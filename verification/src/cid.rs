//! Content addresses of blocks.

use vstd::prelude::*;
use crate::order::{
    compare_bytes, lemma_lex_irreflexive, lemma_lex_total, lemma_lex_transitive, lex_lt,
    Comparison,
};

verus! {

/// A hash digest.
pub type HashOutput = [u8; 32];

/// Codec number of a block of raw bytes.
pub const CODEC_RAW: u64 = 0x55;

/// Codec number of a DAG-CBOR block.
pub const CODEC_DAG_CBOR: u64 = 0x71;

/// Multihash code of SHA2-256.
pub const HASH_SHA2_256: u64 = 0x12;

/// The address of a block: how it is encoded and the hash of its bytes.
/// Every address is of the format's version 1.
#[derive(Clone, Copy, Debug, PartialEq, Eq, Hash)]
pub struct Cid {
    /// Codec number of the block.
    pub codec: u64,
    /// Multihash code of the hash function.
    pub hash_code: u64,
    /// The hash of the block's bytes.
    pub digest: HashOutput,
}

/// `a` comes strictly before `b`: by codec and hash function, and among
/// addresses that agree in these by the hash, lexicographically.
pub open spec fn cid_lt(a: Cid, b: Cid) -> bool {
    if a.codec != b.codec {
        a.codec < b.codec
    } else if a.hash_code != b.hash_code {
        a.hash_code < b.hash_code
    } else {
        lex_lt(a.digest@, b.digest@)
    }
}

/// The order on addresses is a strict total order.
pub proof fn lemma_cid_order(a: Cid, b: Cid, c: Cid)
    ensures
        !cid_lt(a, a),
        a == b || cid_lt(a, b) || cid_lt(b, a),
        !(cid_lt(a, b) && cid_lt(b, a)),
        cid_lt(a, b) && cid_lt(b, c) ==> cid_lt(a, c),
{
    lemma_lex_irreflexive(a.digest@);
    lemma_lex_total(a.digest@, b.digest@);
    if a.digest@ == b.digest@ {
        assert(a.digest =~= b.digest);
    }
    if lex_lt(a.digest@, b.digest@) && lex_lt(b.digest@, c.digest@) {
        lemma_lex_transitive(a.digest@, b.digest@, c.digest@);
    }
}

/// The digest of 32 zero bytes.
pub open spec fn zero_digest() -> HashOutput {
    vstd::array::spec_array_fill_for_copy_type::<u8, 32>(0u8)
}

/// Makes the digest of 32 zero bytes.
pub fn new_zero_digest() -> (r: HashOutput)
    ensures
        r == zero_digest(),
        forall|i: int| 0 <= i < 32 ==> r@[i] == 0,
{
    broadcast use vstd::array::axiom_spec_array_fill_for_copy_type;

    vstd::array::array_fill_for_copy_types::<u8, 32>(0u8)
}

/// Tells whether two digests hold the same bytes.
pub fn digest_eq(a: &HashOutput, b: &HashOutput) -> (r: bool)
    ensures
        r == (*a == *b),
{
    let r = matches!(compare_bytes(a.as_slice(), b.as_slice()), Comparison::Equal);
    proof {
        if r {
            assert(*a =~= *b);
        }
    }
    r
}

impl Cid {
    /// The address with every field zero.
    pub open spec fn zero() -> Cid {
        Cid { codec: 0, hash_code: 0, digest: zero_digest() }
    }

    /// Tells whether two addresses are the same.
    pub fn same(&self, other: &Cid) -> (r: bool)
        ensures
            r == (*self == *other),
    {
        self.codec == other.codec && self.hash_code == other.hash_code && digest_eq(
            &self.digest,
            &other.digest,
        )
    }

    /// Tells whether `self` comes strictly before `other`.
    pub fn precedes(&self, other: &Cid) -> (r: bool)
        ensures
            r == cid_lt(*self, *other),
    {
        if self.codec != other.codec {
            self.codec < other.codec
        } else if self.hash_code != other.hash_code {
            self.hash_code < other.hash_code
        } else {
            proof {
                lemma_lex_total(self.digest@, other.digest@);
            }
            matches!(
                compare_bytes(self.digest.as_slice(), other.digest.as_slice()),
                Comparison::Less
            )
        }
    }
}

impl Default for Cid {
    fn default() -> (r: Cid)
        ensures
            r == Cid::zero(),
    {
        Cid { codec: 0, hash_code: 0, digest: new_zero_digest() }
    }
}

} // verus!
