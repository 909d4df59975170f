//! The name filter: a Bloom filter that gathers the identifiers along a
//! node's ancestry.

use vstd::prelude::*;
use crate::cid::HashOutput;
use crate::hash::{hash, sha3_256_digest};

verus! {

/// Number of bits in a name filter.
pub const FILTER_BITS: usize = 2048;

/// Number of bytes that a name filter is written as.
pub const FILTER_BYTES: usize = 256;

/// Number of bits that adding an item sets.
pub const HASH_COUNT: usize = 30;

/// Number of bits that are set in a saturated filter.
pub const SATURATION: usize = 1019;

/// Number of rounds in which saturation draws bits from the filter's own
/// state before it fills up from the lowest bit.
pub const SATURATION_ROUNDS: u8 = 255;

/// A Bloom filter of 2048 bits.
#[derive(Clone, Copy, Debug, PartialEq, Eq)]
pub struct Namefilter {
    pub bits: [bool; 2048],
}

/// How many of the bits are set.
pub open spec fn popcount(bits: Seq<bool>) -> nat
    decreases bits.len(),
{
    if bits.len() == 0 {
        0
    } else {
        popcount(bits.drop_last()) + if bits.last() {
            1nat
        } else {
            0nat
        }
    }
}

/// The bit that the `j`-th hash function gives for an item with the digest
/// `first`, whose own digest is `second`: two bytes of the digests, read as
/// a number, modulo the number of bits.
pub open spec fn bit_index(first: HashOutput, second: HashOutput, j: int) -> int {
    if j < 16 {
        (first@[2 * j] as int * 256 + first@[2 * j + 1] as int) % 2048
    } else {
        (second@[2 * (j - 16)] as int * 256 + second@[2 * (j - 16) + 1] as int) % 2048
    }
}

/// The bits that stand for an item.
pub open spec fn bit_indices(item: Seq<u8>) -> Seq<int> {
    let first = sha3_256_digest(item);
    let second = sha3_256_digest(first@);
    Seq::new(30, |j: int| bit_index(first, second, j))
}

/// `bits` with the bits `indices` set as well.
pub open spec fn with_bits(bits: Seq<bool>, indices: Seq<int>) -> Seq<bool> {
    Seq::new(bits.len(), |i: int| bits[i] || indices.contains(i))
}

/// The filter after `item` is added.
pub open spec fn added(bits: Seq<bool>, item: Seq<u8>) -> Seq<bool> {
    with_bits(bits, bit_indices(item))
}

/// Whether the bit `i` is among the first `j` of `indices`.
pub open spec fn drawn(indices: Seq<usize>, j: int, i: int) -> bool {
    exists|k: int| 0 <= k < j && #[trigger] indices[k] == i
}

/// Whether all the bits that stand for `item` are set.
pub open spec fn holds(bits: Seq<bool>, item: Seq<u8>) -> bool {
    forall|j: int| 0 <= j < 30 ==> bits[#[trigger] bit_indices(item)[j]]
}

/// The byte that the eight bits from `8 * j` on are written as: the bit
/// `8 * j + k` counts `2^k`.
pub open spec fn packed_byte(bits: Seq<bool>, j: int) -> u8 {
    ((if bits[8 * j] { 1int } else { 0int }) + (if bits[8 * j + 1] { 2int } else { 0int }) + (
    if bits[8 * j + 2] { 4int } else { 0int }) + (if bits[8 * j + 3] { 8int } else { 0int }) + (
    if bits[8 * j + 4] { 16int } else { 0int }) + (if bits[8 * j + 5] { 32int } else { 0int }) + (
    if bits[8 * j + 6] { 64int } else { 0int }) + (if bits[8 * j + 7] {
        128int
    } else {
        0int
    })) as u8
}

/// Whether the bit `k` of a byte is set.
pub open spec fn byte_bit(byte: u8, k: int) -> bool {
    if k == 0 {
        byte % 2u8 == 1u8
    } else if k == 1 {
        (byte / 2u8) % 2u8 == 1u8
    } else if k == 2 {
        (byte / 4u8) % 2u8 == 1u8
    } else if k == 3 {
        (byte / 8u8) % 2u8 == 1u8
    } else if k == 4 {
        (byte / 16u8) % 2u8 == 1u8
    } else if k == 5 {
        (byte / 32u8) % 2u8 == 1u8
    } else if k == 6 {
        (byte / 64u8) % 2u8 == 1u8
    } else {
        (byte / 128u8) % 2u8 == 1u8
    }
}

/// The bits that 256 bytes are read as.
pub open spec fn unpacked(bytes: Seq<u8>) -> Seq<bool> {
    Seq::new(2048, |i: int| byte_bit(bytes[i / 8], i % 8))
}

/// A byte is the sum of what its set bits count.
pub proof fn lemma_byte_bits(byte: u8)
    ensures
        byte == (if byte_bit(byte, 0) { 1int } else { 0int }) + (if byte_bit(byte, 1) {
            2int
        } else {
            0int
        }) + (if byte_bit(byte, 2) { 4int } else { 0int }) + (if byte_bit(byte, 3) {
            8int
        } else {
            0int
        }) + (if byte_bit(byte, 4) { 16int } else { 0int }) + (if byte_bit(byte, 5) {
            32int
        } else {
            0int
        }) + (if byte_bit(byte, 6) { 64int } else { 0int }) + (if byte_bit(byte, 7) {
            128int
        } else {
            0int
        }),
{
    let b = byte;
    assert(b == (if b % 2u8 == 1u8 { 1u8 } else { 0u8 }) + (if (b / 2u8) % 2u8 == 1u8 {
        2u8
    } else {
        0u8
    }) + (if (b / 4u8) % 2u8 == 1u8 { 4u8 } else { 0u8 }) + (if (b / 8u8) % 2u8 == 1u8 {
        8u8
    } else {
        0u8
    }) + (if (b / 16u8) % 2u8 == 1u8 { 16u8 } else { 0u8 }) + (if (b / 32u8) % 2u8 == 1u8 {
        32u8
    } else {
        0u8
    }) + (if (b / 64u8) % 2u8 == 1u8 { 64u8 } else { 0u8 }) + (if (b / 128u8) % 2u8 == 1u8 {
        128u8
    } else {
        0u8
    })) by (bit_vector);
}

/// Reading the bytes that a filter is written as gives the filter, and
/// writing the filter that bytes are read as gives the bytes.
pub proof fn lemma_packed_unpacked(bits: Seq<bool>, bytes: Seq<u8>)
    requires
        bits.len() == FILTER_BITS,
        bytes.len() == FILTER_BYTES,
    ensures
        unpacked(packed(bits)) == bits,
        packed(unpacked(bytes)) == bytes,
{
    assert forall|i: int| 0 <= i < 2048 implies unpacked(packed(bits))[i] == bits[i] by {
        let j = i / 8;
        let k = i % 8;
        assert(i == 8 * j + k);
    }
    assert(unpacked(packed(bits)) =~= bits);
    assert forall|j: int| 0 <= j < 256 implies packed(unpacked(bytes))[j] == bytes[j] by {
        lemma_byte_bits(bytes[j]);
        let u = unpacked(bytes);
        assert(u[8 * j] == byte_bit(bytes[j], 0));
        assert(u[8 * j + 1] == byte_bit(bytes[j], 1));
        assert(u[8 * j + 2] == byte_bit(bytes[j], 2));
        assert(u[8 * j + 3] == byte_bit(bytes[j], 3));
        assert(u[8 * j + 4] == byte_bit(bytes[j], 4));
        assert(u[8 * j + 5] == byte_bit(bytes[j], 5));
        assert(u[8 * j + 6] == byte_bit(bytes[j], 6));
        assert(u[8 * j + 7] == byte_bit(bytes[j], 7));
    }
    assert(packed(unpacked(bytes)) =~= bytes);
}

/// The bytes that a filter is written as.
pub open spec fn packed(bits: Seq<bool>) -> Seq<u8> {
    Seq::new(256, |j: int| packed_byte(bits, j))
}

/// `bits` after the bits `indices` from `from` on were set one by one, as
/// long as fewer than `SATURATION` bits are set.
pub open spec fn with_bits_up_to(bits: Seq<bool>, indices: Seq<int>, from: int) -> Seq<bool>
    decreases indices.len() - from,
{
    if from < 0 || from >= indices.len() {
        bits
    } else if popcount(bits) < SATURATION && 0 <= indices[from] < bits.len() {
        with_bits_up_to(bits.update(indices[from], true), indices, from + 1)
    } else {
        with_bits_up_to(bits, indices, from + 1)
    }
}

/// The bits that round `round` of saturation draws: those that stand for
/// the filter's bytes followed by the number of the round.
pub open spec fn round_indices(bits: Seq<bool>, round: u8) -> Seq<int> {
    bit_indices(packed(bits).push(round))
}

/// `bits` after the rounds of saturation from `round` on.
pub open spec fn after_rounds(bits: Seq<bool>, round: u8) -> Seq<bool>
    decreases SATURATION_ROUNDS - round,
{
    if round >= SATURATION_ROUNDS {
        bits
    } else {
        after_rounds(with_bits_up_to(bits, round_indices(bits, round), 0), (round + 1) as u8)
    }
}

/// `bits` after the unset bits from `from` on were set in their order, as
/// long as fewer than `SATURATION` bits are set.
pub open spec fn filled(bits: Seq<bool>, from: int) -> Seq<bool>
    decreases bits.len() - from,
{
    if from < 0 || from >= bits.len() {
        bits
    } else if popcount(bits) < SATURATION {
        filled(bits.update(from, true), from + 1)
    } else {
        filled(bits, from + 1)
    }
}

/// The saturated filter: a filter with `SATURATION` bits or more is left as
/// it is; another gets bits drawn from its own state until `SATURATION`
/// bits are set.
pub open spec fn saturated(bits: Seq<bool>) -> Seq<bool> {
    if popcount(bits) >= SATURATION {
        bits
    } else {
        filled(after_rounds(bits, 0), 0)
    }
}

/// Setting a bit raises the count by one where the bit was not set.
pub proof fn lemma_popcount_update(bits: Seq<bool>, i: int)
    requires
        0 <= i < bits.len(),
    ensures
        popcount(bits.update(i, true)) == popcount(bits) + if bits[i] {
            0nat
        } else {
            1nat
        },
    decreases bits.len(),
{
    let next = bits.update(i, true);
    if i == bits.len() - 1 {
        assert(next.drop_last() =~= bits.drop_last());
    } else {
        lemma_popcount_update(bits.drop_last(), i);
        assert(next.drop_last() =~= bits.drop_last().update(i, true));
    }
}

/// No more bits are set than there are, and where the first `n` bits are
/// all set, at least `n` are.
pub proof fn lemma_popcount_bounds(bits: Seq<bool>, n: int)
    requires
        0 <= n <= bits.len(),
        forall|i: int| 0 <= i < n ==> bits[i],
    ensures
        n <= popcount(bits) <= bits.len(),
    decreases bits.len(),
{
    if bits.len() > 0 {
        let rest = bits.drop_last();
        if n == bits.len() {
            lemma_popcount_bounds(rest, n - 1);
        } else {
            lemma_popcount_bounds(rest, n);
        }
    }
}

/// Setting bits up to the limit keeps the length, never unsets a bit, and
/// keeps the count within the limit.
pub proof fn lemma_with_bits_up_to(bits: Seq<bool>, indices: Seq<int>, from: int)
    requires
        popcount(bits) <= SATURATION,
    ensures
        with_bits_up_to(bits, indices, from).len() == bits.len(),
        popcount(bits) <= popcount(with_bits_up_to(bits, indices, from)) <= SATURATION,
        forall|i: int| 0 <= i < bits.len() && bits[i] ==> with_bits_up_to(bits, indices, from)[i],
    decreases indices.len() - from,
{
    if 0 <= from < indices.len() {
        if popcount(bits) < SATURATION && 0 <= indices[from] < bits.len() {
            let next = bits.update(indices[from], true);
            lemma_popcount_update(bits, indices[from]);
            lemma_with_bits_up_to(next, indices, from + 1);
            assert forall|i: int| 0 <= i < bits.len() && bits[i] implies with_bits_up_to(
                bits,
                indices,
                from,
            )[i] by {
                assert(next[i]);
            }
        } else {
            lemma_with_bits_up_to(bits, indices, from + 1);
        }
    }
}

/// The rounds of saturation keep the length, never unset a bit, and keep
/// the count within the limit.
pub proof fn lemma_after_rounds(bits: Seq<bool>, round: u8)
    requires
        popcount(bits) <= SATURATION,
    ensures
        after_rounds(bits, round).len() == bits.len(),
        popcount(bits) <= popcount(after_rounds(bits, round)) <= SATURATION,
        forall|i: int| 0 <= i < bits.len() && bits[i] ==> after_rounds(bits, round)[i],
    decreases SATURATION_ROUNDS - round,
{
    if round < SATURATION_ROUNDS {
        let next = with_bits_up_to(bits, round_indices(bits, round), 0);
        lemma_with_bits_up_to(bits, round_indices(bits, round), 0);
        lemma_after_rounds(next, (round + 1) as u8);
    }
}

/// Filling up keeps the length and never unsets a bit; it ends with
/// `SATURATION` bits set, or with all bits set from `from` on.
pub proof fn lemma_filled(bits: Seq<bool>, from: int)
    requires
        popcount(bits) <= SATURATION,
        0 <= from <= bits.len(),
    ensures
        filled(bits, from).len() == bits.len(),
        popcount(filled(bits, from)) <= SATURATION,
        forall|i: int| 0 <= i < bits.len() && bits[i] ==> filled(bits, from)[i],
        popcount(filled(bits, from)) == SATURATION || forall|i: int|
            from <= i < bits.len() ==> filled(bits, from)[i],
    decreases bits.len() - from,
{
    if from < bits.len() {
        if popcount(bits) < SATURATION {
            let next = bits.update(from, true);
            lemma_popcount_update(bits, from);
            lemma_filled(next, from + 1);
            assert forall|i: int| 0 <= i < bits.len() && bits[i] implies filled(bits, from)[i] by {
                assert(next[i]);
            }
            if popcount(filled(bits, from)) != SATURATION {
                assert forall|i: int| from <= i < bits.len() implies filled(bits, from)[i] by {
                    if i == from {
                        assert(next[from]);
                    }
                }
            }
        } else {
            lemma_filled(bits, from + 1);
            lemma_filled_stays(bits, from + 1);
            lemma_filled_stays(bits, from);
        }
    }
}

/// Filling up a filter that has `SATURATION` bits or more changes nothing.
pub proof fn lemma_filled_stays(bits: Seq<bool>, from: int)
    requires
        popcount(bits) >= SATURATION,
    ensures
        filled(bits, from) == bits,
    decreases bits.len() - from,
{
    if 0 <= from < bits.len() {
        lemma_filled_stays(bits, from + 1);
    }
}

/// A saturated filter of 2048 bits holds every bit of the filter it came
/// from, and exactly `SATURATION` bits where that filter had no more.
pub proof fn lemma_saturated(bits: Seq<bool>)
    requires
        bits.len() == FILTER_BITS,
    ensures
        saturated(bits).len() == FILTER_BITS,
        forall|i: int| 0 <= i < bits.len() && bits[i] ==> saturated(bits)[i],
        popcount(bits) <= SATURATION ==> popcount(saturated(bits)) == SATURATION,
        popcount(bits) >= SATURATION ==> saturated(bits) == bits,
{
    if popcount(bits) < SATURATION {
        let drawn = after_rounds(bits, 0);
        lemma_after_rounds(bits, 0);
        lemma_filled(drawn, 0);
        let full = filled(drawn, 0);
        if popcount(full) != SATURATION {
            lemma_popcount_bounds(full, full.len() as int);
        }
    }
}

/// Saturating a saturated filter changes nothing.
pub proof fn lemma_saturated_idempotent(bits: Seq<bool>)
    requires
        bits.len() == FILTER_BITS,
    ensures
        saturated(saturated(bits)) == saturated(bits),
{
    lemma_saturated(bits);
}

/// Equal filters saturate to equal filters, and two filters that are
/// already saturated are equal where what they saturate to is equal.
pub proof fn lemma_saturated_decides_equality(a: Seq<bool>, b: Seq<bool>)
    requires
        a.len() == FILTER_BITS,
        b.len() == FILTER_BITS,
    ensures
        a == b ==> saturated(a) == saturated(b),
        popcount(a) >= SATURATION && popcount(b) >= SATURATION ==> (saturated(a) == saturated(b)
            <==> a == b),
{
}

/// Adding is monotonic: no bit is unset, and the item is held afterwards.
pub proof fn lemma_added_monotonic(bits: Seq<bool>, item: Seq<u8>)
    requires
        bits.len() == FILTER_BITS,
    ensures
        added(bits, item).len() == bits.len(),
        forall|i: int| 0 <= i < bits.len() && bits[i] ==> added(bits, item)[i],
        holds(added(bits, item), item),
{
    let idx = bit_indices(item);
    assert forall|j: int| 0 <= j < 30 implies added(bits, item)[#[trigger] idx[j]] by {
        assert(0 <= idx[j] < 2048);
        assert(idx.contains(idx[j]));
    }
}

/// Adding is commutative.
pub proof fn lemma_added_commutative(bits: Seq<bool>, a: Seq<u8>, b: Seq<u8>)
    ensures
        added(added(bits, a), b) == added(added(bits, b), a),
{
    assert(added(added(bits, a), b) =~= added(added(bits, b), a));
}

impl Namefilter {
    /// The empty filter.
    pub open spec fn empty() -> Seq<bool> {
        Seq::new(2048, |i: int| false)
    }

    /// Makes the empty filter.
    pub fn new() -> (r: Namefilter)
        ensures
            r.bits@ == Namefilter::empty(),
    {
        broadcast use vstd::array::axiom_spec_array_fill_for_copy_type;

        let r = Namefilter { bits: vstd::array::array_fill_for_copy_types::<bool, 2048>(false) };
        proof {
            assert(r.bits@ =~= Namefilter::empty());
        }
        r
    }

    /// Counts the bits that are set.
    pub fn count_ones(&self) -> (r: usize)
        ensures
            r == popcount(self.bits@),
            r <= FILTER_BITS,
    {
        let mut count: usize = 0;
        let mut i: usize = 0;
        proof {
            assert(self.bits@.subrange(0, 0) =~= Seq::empty());
        }
        while i < 2048
            invariant
                i <= 2048,
                count == popcount(self.bits@.subrange(0, i as int)),
                count <= i,
            decreases 2048 - i,
        {
            proof {
                assert(self.bits@.subrange(0, i + 1).drop_last() =~= self.bits@.subrange(
                    0,
                    i as int,
                ));
            }
            if self.bits[i] {
                count += 1;
            }
            i += 1;
        }
        proof {
            assert(self.bits@.subrange(0, 2048) =~= self.bits@);
        }
        count
    }

    /// Adds an item to the filter.
    pub fn add(&mut self, item: &[u8])
        ensures
            final(self).bits@ == added(old(self).bits@, item@),
    {
        let indices = item_indices(item);
        let ghost before = self.bits@;
        let mut j: usize = 0;
        while j < 30
            invariant
                j <= 30,
                indices@.len() == 30,
                before.len() == 2048,
                forall|k: int| 0 <= k < 30 ==> #[trigger] indices@[k] < 2048,
                forall|i: int|
                    0 <= i < 2048 ==> #[trigger] self.bits@[i] == (before[i] || drawn(
                        indices@,
                        j as int,
                        i,
                    )),
            decreases 30 - j,
        {
            let ghost now = self.bits@;
            self.bits[indices[j]] = true;
            proof {
                let t = indices@[j as int] as int;
                assert(self.bits@ =~= now.update(t, true));
                assert forall|i: int| 0 <= i < 2048 implies #[trigger] self.bits@[i] == (before[i]
                    || drawn(indices@, j + 1, i)) by {
                    assert(now[i] == (before[i] || drawn(indices@, j as int, i)));
                    if i == t {
                        assert(indices@[j as int] == i);
                    } else {
                        if drawn(indices@, j as int, i) {
                            let k = choose|k: int| 0 <= k < j && #[trigger] indices@[k] == i;
                            assert(0 <= k < j + 1 && indices@[k] == i);
                        }
                        if drawn(indices@, j + 1, i) {
                            let k = choose|k: int| 0 <= k < j + 1 && #[trigger] indices@[k] == i;
                            assert(0 <= k < j && indices@[k] == i);
                        }
                    }
                }
            }
            j += 1;
        }
        proof {
            let idx = bit_indices(item@);
            assert forall|i: int| 0 <= i < 2048 implies self.bits@[i] == (before[i] || idx.contains(
                i,
            )) by {
                if idx.contains(i) {
                    let k = choose|k: int| 0 <= k < idx.len() && idx[k] == i;
                    assert(indices@[k] == i);
                }
                if drawn(indices@, 30, i) {
                    let k = choose|k: int| 0 <= k < 30 && #[trigger] indices@[k] == i;
                    assert(idx[k] == i);
                }
            }
            assert(self.bits@ =~= added(before, item@));
        }
    }

    /// Tells whether the filter holds every bit that stands for `item`.
    pub fn contains(&self, item: &[u8]) -> (r: bool)
        ensures
            r == holds(self.bits@, item@),
    {
        let indices = item_indices(item);
        let mut j: usize = 0;
        while j < 30
            invariant
                j <= 30,
                indices@.len() == 30,
                forall|k: int|
                    0 <= k < 30 ==> #[trigger] indices@[k] < 2048 && indices@[k] == bit_indices(
                        item@,
                    )[k],
                forall|k: int| 0 <= k < j ==> self.bits@[#[trigger] bit_indices(item@)[k]],
            decreases 30 - j,
        {
            if !self.bits[indices[j]] {
                proof {
                    assert(!self.bits@[bit_indices(item@)[j as int]]);
                }
                return false;
            }
            j += 1;
        }
        true
    }

    /// Writes the filter as 256 bytes.
    pub fn to_bytes(&self) -> (r: Vec<u8>)
        ensures
            r@ == packed(self.bits@),
    {
        let mut out: Vec<u8> = Vec::new();
        let mut j: usize = 0;
        while j < 256
            invariant
                j <= 256,
                out@.len() == j,
                forall|k: int| 0 <= k < j ==> out@[k] == packed_byte(self.bits@, k),
            decreases 256 - j,
        {
            let mut byte: u8 = 0;
            if self.bits[8 * j] {
                byte += 1;
            }
            if self.bits[8 * j + 1] {
                byte += 2;
            }
            if self.bits[8 * j + 2] {
                byte += 4;
            }
            if self.bits[8 * j + 3] {
                byte += 8;
            }
            if self.bits[8 * j + 4] {
                byte += 16;
            }
            if self.bits[8 * j + 5] {
                byte += 32;
            }
            if self.bits[8 * j + 6] {
                byte += 64;
            }
            if self.bits[8 * j + 7] {
                byte += 128;
            }
            out.push(byte);
            j += 1;
        }
        proof {
            assert(out@ =~= packed(self.bits@));
        }
        out
    }

    /// Reads a filter from 256 bytes.
    pub fn from_bytes(bytes: &[u8]) -> (r: Option<Namefilter>)
        ensures
            r is Some <==> bytes@.len() == FILTER_BYTES,
            r matches Some(f) ==> f.bits@ == unpacked(bytes@),
    {
        if bytes.len() != 256 {
            return None;
        }
        let mut filter = Namefilter::new();
        let mut i: usize = 0;
        while i < 2048
            invariant
                i <= 2048,
                bytes@.len() == 256,
                forall|k: int| 0 <= k < i ==> filter.bits@[k] == byte_bit(bytes@[k / 8], k % 8),
            decreases 2048 - i,
        {
            let byte = bytes[i / 8];
            let weight: u8 = match i % 8 {
                0 => 1,
                1 => 2,
                2 => 4,
                3 => 8,
                4 => 16,
                5 => 32,
                6 => 64,
                _ => 128,
            };
            filter.bits[i] = (byte / weight) % 2 == 1;
            i += 1;
        }
        proof {
            assert(filter.bits@ =~= unpacked(bytes@));
        }
        Some(filter)
    }

    /// Saturates the filter: sets bits drawn from the filter's own state
    /// until `SATURATION` bits are set.
    pub fn saturate(&mut self)
        ensures
            final(self).bits@ == saturated(old(self).bits@),
    {
        let mut count = self.count_ones();
        if count >= SATURATION {
            return ;
        }
        let ghost start = self.bits@;
        let mut round: u8 = 0;
        while round < SATURATION_ROUNDS
            invariant
                round <= SATURATION_ROUNDS,
                count == popcount(self.bits@),
                count <= SATURATION,
                after_rounds(start, 0) == after_rounds(self.bits@, round),
            decreases SATURATION_ROUNDS - round,
        {
            let mut seed = self.to_bytes();
            seed.push(round);
            let indices = item_indices(seed.as_slice());
            let ghost before = self.bits@;
            let ghost idx = round_indices(before, round);
            let mut j: usize = 0;
            while j < 30
                invariant
                    j <= 30,
                    indices@.len() == 30,
                    idx.len() == 30,
                    forall|k: int|
                        0 <= k < 30 ==> #[trigger] indices@[k] < 2048 && indices@[k] == idx[k],
                    count == popcount(self.bits@),
                    count <= SATURATION,
                    with_bits_up_to(before, idx, 0) == with_bits_up_to(self.bits@, idx, j as int),
                decreases 30 - j,
            {
                if count < SATURATION {
                    proof {
                        lemma_popcount_update(self.bits@, indices@[j as int] as int);
                    }
                    if !self.bits[indices[j]] {
                        count += 1;
                    }
                    self.bits[indices[j]] = true;
                }
                j += 1;
            }
            round += 1;
        }
        let mut i: usize = 0;
        while i < 2048
            invariant
                i <= 2048,
                count == popcount(self.bits@),
                count <= SATURATION,
                filled(after_rounds(start, 0), 0) == filled(self.bits@, i as int),
            decreases 2048 - i,
        {
            if count < SATURATION {
                proof {
                    lemma_popcount_update(self.bits@, i as int);
                }
                if !self.bits[i] {
                    count += 1;
                }
                self.bits[i] = true;
            }
            i += 1;
        }
    }
}

/// Computes the bits that stand for an item.
pub fn item_indices(item: &[u8]) -> (r: Vec<usize>)
    ensures
        r@.len() == 30,
        forall|j: int| 0 <= j < 30 ==> #[trigger] r@[j] == bit_indices(item@)[j] && r@[j] < 2048,
{
    let first = hash(item);
    let second = hash(first.as_slice());
    let mut out: Vec<usize> = Vec::new();
    let mut j: usize = 0;
    while j < 30
        invariant
            j <= 30,
            out@.len() == j,
            first == sha3_256_digest(item@),
            second == sha3_256_digest(first@),
            forall|k: int|
                0 <= k < j ==> #[trigger] out@[k] == bit_index(first, second, k) && out@[k] < 2048,
        decreases 30 - j,
    {
        let (high, low): (u8, u8) = if j < 16 {
            (first[2 * j], first[2 * j + 1])
        } else {
            (second[2 * (j - 16)], second[2 * (j - 16) + 1])
        };
        let index: usize = (high as usize * 256 + low as usize) % 2048;
        out.push(index);
        j += 1;
    }
    out
}

} // verus!
