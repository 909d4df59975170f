//! The hash array mapped trie that indexes the private forest: a
//! persistent map from 32-byte keys to content addresses, whose shape is
//! fixed by what it holds.

use vstd::prelude::*;
use std::rc::Rc;
use crate::cid::{Cid, HashOutput};
use crate::order::{
    compare_bytes, lemma_lex_irreflexive, lemma_lex_total, lemma_lex_transitive, lex_lt,
    Comparison,
};

verus! {

/// How many entries a bucket holds before it becomes a subtree.
pub const HAMT_BUCKET_SIZE: usize = 3;

/// How many nibbles a key has: the greatest depth of the trie.
pub const HAMT_MAX_DEPTH: usize = 64;

/// An entry of the trie.
#[derive(Clone, Copy, Debug, PartialEq, Eq)]
pub struct Pair {
    pub key: HashOutput,
    pub value: Cid,
}

/// One of the sixteen places of a node.
#[derive(Debug, PartialEq)]
pub enum Slot {
    /// No key has this nibble.
    Empty,
    /// The few entries whose keys have this nibble, in the order of their
    /// keys.
    Bucket(Vec<Pair>),
    /// The subtree of the entries whose keys have this nibble.
    Link(Rc<Node>),
}

/// A node of the trie: one place for each value of the nibble at the
/// node's depth.
#[derive(Debug, PartialEq)]
pub struct Node {
    pub slots: Vec<Slot>,
}

/// A place of a node as contracts see it.
pub enum SlotModel {
    Empty,
    Bucket(Seq<Pair>),
    Link(NodeModel),
}

/// A node as contracts see it.
pub struct NodeModel {
    pub slots: Seq<SlotModel>,
}

/// The nibble of a key at a depth: the high half of a byte at an even
/// depth, the low half at an odd one.
pub open spec fn nibble(key: HashOutput, depth: int) -> int {
    let byte = key@[depth / 2] as int;
    if depth % 2 == 0 {
        byte / 16
    } else {
        byte % 16
    }
}

/// The nibbles of a key above a depth.
pub open spec fn prefix(key: HashOutput, depth: int) -> Seq<int> {
    Seq::new(depth as nat, |j: int| nibble(key, j))
}

/// Whether the first nibbles of a key are `path`.
pub open spec fn on_path(key: HashOutput, path: Seq<int>) -> bool {
    path.len() <= 64 && prefix(key, path.len() as int) == path
}

/// Whether some entry of a bucket has the key.
pub open spec fn bucket_has(pairs: Seq<Pair>, key: HashOutput) -> bool {
    exists|i: int| 0 <= i < pairs.len() && (#[trigger] pairs[i]).key == key
}

/// The value that a bucket holds under a key: that of the first entry of
/// the key.
pub open spec fn bucket_find(pairs: Seq<Pair>, key: HashOutput) -> Option<Cid>
    decreases pairs.len(),
{
    if pairs.len() == 0 {
        None
    } else if pairs[0].key == key {
        Some(pairs[0].value)
    } else {
        bucket_find(pairs.drop_first(), key)
    }
}

/// A bucket holds a value under a key where an entry has the key, and then
/// the value of the first such entry.
pub proof fn lemma_bucket_find_has(pairs: Seq<Pair>, key: HashOutput)
    ensures
        bucket_find(pairs, key) is Some <==> bucket_has(pairs, key),
    decreases pairs.len(),
{
    if pairs.len() > 0 {
        if pairs[0].key == key {
            assert(bucket_has(pairs, key));
        } else {
            let rest = pairs.drop_first();
            lemma_bucket_find_has(rest, key);
            if bucket_has(rest, key) {
                let i = choose|i: int| 0 <= i < rest.len() && (#[trigger] rest[i]).key == key;
                assert(pairs[i + 1].key == key);
            }
            if bucket_has(pairs, key) {
                let i = choose|i: int| 0 <= i < pairs.len() && (#[trigger] pairs[i]).key == key;
                assert(rest[i - 1].key == key);
            }
        }
    }
}

/// The value under a key is the value of the first entry of the key.
pub proof fn lemma_first_match(pairs: Seq<Pair>, key: HashOutput, i: int)
    requires
        0 <= i < pairs.len(),
        pairs[i].key == key,
        forall|j: int| 0 <= j < i ==> (#[trigger] pairs[j]).key != key,
    ensures
        bucket_find(pairs, key) == Some(pairs[i].value),
    decreases i,
{
    if i > 0 {
        let rest = pairs.drop_first();
        assert(pairs[0].key != key);
        assert forall|j: int| 0 <= j < i - 1 implies (#[trigger] rest[j]).key != key by {
            assert(pairs[j + 1].key != key);
        }
        lemma_first_match(rest, key, i - 1);
    }
}

/// The keys of a bucket grow strictly.
pub open spec fn bucket_sorted(pairs: Seq<Pair>) -> bool {
    forall|i: int, j: int|
        0 <= i < j < pairs.len() ==> lex_lt((#[trigger] pairs[i]).key@, (#[trigger] pairs[j]).key@)
}

/// How many entries a place holds.
pub open spec fn slot_count(slot: SlotModel) -> nat
    decreases slot,
{
    match slot {
        SlotModel::Empty => 0,
        SlotModel::Bucket(pairs) => pairs.len(),
        SlotModel::Link(node) => node.count(),
    }
}

/// How many entries places hold together.
pub open spec fn slots_count(slots: Seq<SlotModel>) -> nat
    decreases slots,
{
    if slots.len() == 0 {
        0
    } else {
        slots_count(slots.subrange(0, slots.len() - 1)) + slot_count(slots[slots.len() - 1])
    }
}

/// Whether a place is as it must be for the keys with the nibbles `path`,
/// the last of which is the place's own: a bucket holds one to three
/// entries (any number at the greatest depth), sorted, with keys on the
/// path; a subtree is well formed and holds more than three entries.
pub open spec fn slot_wf(slot: SlotModel, path: Seq<int>) -> bool
    decreases slot,
{
    match slot {
        SlotModel::Empty => true,
        SlotModel::Bucket(pairs) => {
            &&& pairs.len() > 0
            &&& pairs.len() <= 3 || path.len() == 64
            &&& bucket_sorted(pairs)
            &&& forall|k: int| 0 <= k < pairs.len() ==> on_path((#[trigger] pairs[k]).key, path)
        },
        SlotModel::Link(node) => node.wf(path) && node.count() > 3,
    }
}

impl NodeModel {
    /// The value under a key, for a node at a depth.
    pub open spec fn lookup(self, depth: int, key: HashOutput) -> Option<Cid>
        decreases self,
    {
        if 0 <= depth < 64 && self.slots.len() == 16 {
            match self.slots[nibble(key, depth)] {
                SlotModel::Empty => None,
                SlotModel::Bucket(pairs) => bucket_find(pairs, key),
                SlotModel::Link(node) => node.lookup(depth + 1, key),
            }
        } else {
            None
        }
    }

    /// How many entries the node holds.
    pub open spec fn count(self) -> nat
        decreases self,
    {
        slots_count(self.slots)
    }

    /// Whether the node is as it must be for the keys with the nibbles
    /// `path`.
    pub open spec fn wf(self, path: Seq<int>) -> bool
        decreases self,
    {
        &&& path.len() < 64
        &&& self.slots.len() == 16
        &&& forall|i: int| 0 <= i < 16 ==> slot_wf(#[trigger] self.slots[i], path.push(i))
    }

    /// The node with one place replaced.
    pub open spec fn with_slot(self, i: int, slot: SlotModel) -> NodeModel {
        NodeModel { slots: self.slots.update(i, slot) }
    }
}

/// The node without entries.
pub open spec fn empty_node() -> NodeModel {
    NodeModel { slots: Seq::new(16, |i: int| SlotModel::Empty) }
}

/// A nibble is a number below sixteen.
pub proof fn lemma_nibble_range(key: HashOutput, depth: int)
    requires
        0 <= depth < 64,
    ensures
        0 <= nibble(key, depth) < 16,
{
}

/// Replacing a place changes the count by the difference of the counts.
pub proof fn lemma_slots_count_update(slots: Seq<SlotModel>, i: int, slot: SlotModel)
    requires
        0 <= i < slots.len(),
    ensures
        slots_count(slots.update(i, slot)) + slot_count(slots[i]) == slots_count(slots)
            + slot_count(slot),
    decreases slots.len(),
{
    let next = slots.update(i, slot);
    let n = slots.len() - 1;
    if i == n {
        assert(next.subrange(0, n) =~= slots.subrange(0, n));
    } else {
        lemma_slots_count_update(slots.subrange(0, n), i, slot);
        assert(next.subrange(0, n) =~= slots.subrange(0, n).update(i, slot));
    }
}

/// Places that are all empty hold nothing.
pub proof fn lemma_slots_count_empty(slots: Seq<SlotModel>)
    requires
        forall|i: int| 0 <= i < slots.len() ==> slots[i] is Empty,
    ensures
        slots_count(slots) == 0,
    decreases slots.len(),
{
    reveal_with_fuel(slot_count, 2);
    if slots.len() > 0 {
        let rest = slots.subrange(0, slots.len() - 1);
        assert forall|i: int| 0 <= i < rest.len() implies rest[i] is Empty by {
            assert(slots[i] is Empty);
        }
        lemma_slots_count_empty(rest);
        assert(slots[slots.len() - 1] is Empty);
        assert(slot_count(slots[slots.len() - 1]) == 0);
    }
}

/// The count of the places is at least the count of each.
pub proof fn lemma_slots_count_at_least(slots: Seq<SlotModel>, i: int)
    requires
        0 <= i < slots.len(),
    ensures
        slots_count(slots) >= slot_count(slots[i]),
    decreases slots.len(),
{
    let n = slots.len() - 1;
    if i < n {
        lemma_slots_count_at_least(slots.subrange(0, n), i);
    }
}

/// The empty node is well formed on every path, holds nothing and finds
/// nothing.
pub proof fn lemma_empty_node(path: Seq<int>, depth: int, key: HashOutput)
    requires
        path.len() < 64,
    ensures
        empty_node().wf(path),
        empty_node().count() == 0,
        empty_node().lookup(depth, key) is None,
{
    lemma_slots_count_empty(empty_node().slots);
    if 0 <= depth < 64 {
        lemma_nibble_range(key, depth);
    }
}

/// In a sorted bucket no key occurs twice, so an entry is found under its
/// own key.
pub proof fn lemma_bucket_find_at(pairs: Seq<Pair>, i: int)
    requires
        bucket_sorted(pairs),
        0 <= i < pairs.len(),
    ensures
        bucket_find(pairs, pairs[i].key) == Some(pairs[i].value),
{
    let key = pairs[i].key;
    lemma_lex_irreflexive(key@);
    assert forall|j: int| 0 <= j < i implies (#[trigger] pairs[j]).key != key by {
        assert(lex_lt(pairs[j].key@, pairs[i].key@));
    }
    lemma_first_match(pairs, key, i);
}

/// Where a key stands in a sorted bucket: after all smaller keys.
pub open spec fn is_bucket_slot(pairs: Seq<Pair>, key: HashOutput, i: int) -> bool {
    &&& 0 <= i <= pairs.len()
    &&& forall|j: int| 0 <= j < i ==> lex_lt((#[trigger] pairs[j]).key@, key@)
    &&& i < pairs.len() ==> pairs[i].key == key || lex_lt(key@, pairs[i].key@)
}

/// A bucket with an entry put in at its place: instead of the entry of
/// that key, or else between the smaller and the greater keys.
pub open spec fn bucket_put(pairs: Seq<Pair>, pair: Pair, i: int) -> Seq<Pair> {
    if i < pairs.len() && pairs[i].key == pair.key {
        pairs.update(i, pair)
    } else {
        pairs.insert(i, pair)
    }
}

/// Putting an entry into a sorted bucket at its place keeps the bucket
/// sorted, binds the key and leaves every other key as it was.
pub proof fn lemma_bucket_put(pairs: Seq<Pair>, pair: Pair, i: int)
    requires
        bucket_sorted(pairs),
        is_bucket_slot(pairs, pair.key, i),
    ensures
        bucket_sorted(bucket_put(pairs, pair, i)),
        bucket_has(pairs, pair.key) == (i < pairs.len() && pairs[i].key == pair.key),
        forall|key: HashOutput|
            bucket_find(bucket_put(pairs, pair, i), key) == if key == pair.key {
                Some(pair.value)
            } else {
                #[trigger] bucket_find(pairs, key)
            },
{
    let next = bucket_put(pairs, pair, i);
    let replaced = i < pairs.len() && pairs[i].key == pair.key;
    lemma_lex_irreflexive(pair.key@);
    // the key occurs in the bucket only at its place
    assert forall|j: int| 0 <= j < pairs.len() && pairs[j].key == pair.key implies j == i
        && replaced by {
        if j < i {
            assert(lex_lt(pairs[j].key@, pair.key@));
        } else if j > i {
            assert(lex_lt(pairs[i].key@, pairs[j].key@));
            if !replaced {
                lemma_lex_transitive(pair.key@, pairs[i].key@, pairs[j].key@);
            }
        } else if !replaced {
            assert(lex_lt(pair.key@, pairs[i].key@));
        }
    }
    if replaced {
        assert(bucket_has(pairs, pair.key));
    }
    assert forall|a: int, b: int| 0 <= a < b < next.len() implies lex_lt(
        (#[trigger] next[a]).key@,
        (#[trigger] next[b]).key@,
    ) by {
        if replaced {
            assert(next[a].key == pairs[a].key && next[b].key == pairs[b].key);
        } else {
            let sa = if a < i { a } else { a - 1 };
            let sb = if b < i { b } else { b - 1 };
            if a == i {
                assert(next[b] == pairs[sb]);
                if sb > i {
                    assert(lex_lt(pairs[i].key@, pairs[sb].key@));
                    lemma_lex_transitive(pair.key@, pairs[i].key@, pairs[sb].key@);
                }
            } else if b == i {
                assert(next[a] == pairs[sa]);
            } else {
                assert(next[a] == pairs[sa] && next[b] == pairs[sb]);
            }
        }
    }
    assert(next[i] == pair);
    assert forall|key: HashOutput|
        bucket_find(next, key) == if key == pair.key {
            Some(pair.value)
        } else {
            #[trigger] bucket_find(pairs, key)
        } by {
        lemma_bucket_find_has(pairs, key);
        lemma_bucket_find_has(next, key);
        if key == pair.key {
            lemma_bucket_find_at(next, i);
        } else if bucket_has(pairs, key) {
            let j = choose|j: int| 0 <= j < pairs.len() && (#[trigger] pairs[j]).key == key;
            lemma_bucket_find_at(pairs, j);
            let nj = if replaced || j < i { j } else { j + 1 };
            assert(next[nj] == pairs[j]);
            lemma_bucket_find_at(next, nj);
        } else if bucket_has(next, key) {
            let nj = choose|nj: int| 0 <= nj < next.len() && (#[trigger] next[nj]).key == key;
            let j = if replaced || nj < i { nj } else { nj - 1 };
            assert(pairs[j] == next[nj]);
        }
    }
}

/// Taking the entry at a place out of a sorted bucket keeps the bucket
/// sorted, unbinds the key and leaves every other key as it was.
pub proof fn lemma_bucket_remove(pairs: Seq<Pair>, i: int)
    requires
        bucket_sorted(pairs),
        0 <= i < pairs.len(),
    ensures
        bucket_sorted(pairs.remove(i)),
        forall|key: HashOutput|
            bucket_find(pairs.remove(i), key) == if key == pairs[i].key {
                None
            } else {
                #[trigger] bucket_find(pairs, key)
            },
{
    let next = pairs.remove(i);
    lemma_lex_irreflexive(pairs[i].key@);
    assert forall|a: int, b: int| 0 <= a < b < next.len() implies lex_lt(
        (#[trigger] next[a]).key@,
        (#[trigger] next[b]).key@,
    ) by {
        let sa = if a < i { a } else { a + 1 };
        let sb = if b < i { b } else { b + 1 };
        assert(next[a] == pairs[sa] && next[b] == pairs[sb]);
    }
    assert forall|key: HashOutput|
        bucket_find(next, key) == if key == pairs[i].key {
            None
        } else {
            #[trigger] bucket_find(pairs, key)
        } by {
        lemma_bucket_find_has(pairs, key);
        lemma_bucket_find_has(next, key);
        if bucket_has(next, key) {
            let nj = choose|nj: int| 0 <= nj < next.len() && (#[trigger] next[nj]).key == key;
            let j = if nj < i { nj } else { nj + 1 };
            assert(pairs[j] == next[nj]);
            lemma_bucket_find_at(pairs, j);
            lemma_bucket_find_at(next, nj);
            if j < i {
                assert(lex_lt(pairs[j].key@, pairs[i].key@));
            } else {
                assert(lex_lt(pairs[i].key@, pairs[j].key@));
            }
        } else if key != pairs[i].key && bucket_has(pairs, key) {
            let j = choose|j: int| 0 <= j < pairs.len() && (#[trigger] pairs[j]).key == key;
            let nj = if j < i { j } else { j - 1 };
            assert(next[nj] == pairs[j]);
        }
    }
}

/// The places of a node as contracts see them.
pub open spec fn slots_model(slots: Seq<Slot>) -> Seq<SlotModel>
    decreases slots,
{
    Seq::new(
        slots.len(),
        |i: int|
            if 0 <= i < slots.len() {
                slots[i].model()
            } else {
                SlotModel::Empty
            },
    )
}

impl Slot {
    /// The place that `self` holds.
    pub open spec fn model(&self) -> SlotModel
        decreases self,
    {
        match self {
            Slot::Empty => SlotModel::Empty,
            Slot::Bucket(pairs) => SlotModel::Bucket(pairs@),
            Slot::Link(node) => SlotModel::Link(node.model()),
        }
    }

    /// A copy of the place that shares the subtree below it.
    pub fn copy(&self) -> (r: Slot)
        ensures
            r.model() == self.model(),
    {
        match self {
            Slot::Empty => Slot::Empty,
            Slot::Bucket(pairs) => Slot::Bucket(copy_pairs(pairs)),
            Slot::Link(node) => Slot::Link(Rc::clone(node)),
        }
    }
}

/// Copies the entries of a bucket.
pub fn copy_pairs(pairs: &Vec<Pair>) -> (r: Vec<Pair>)
    ensures
        r@ == pairs@,
{
    let mut out: Vec<Pair> = Vec::new();
    let mut i: usize = 0;
    while i < pairs.len()
        invariant
            i <= pairs.len(),
            out@ == pairs@.subrange(0, i as int),
        decreases pairs.len() - i,
    {
        out.push(pairs[i]);
        proof {
            assert(out@ =~= pairs@.subrange(0, i + 1));
        }
        i += 1;
    }
    proof {
        assert(pairs@.subrange(0, pairs.len() as int) =~= pairs@);
    }
    out
}

/// Tells whether two keys are the same.
pub fn same_key(a: &HashOutput, b: &HashOutput) -> (r: bool)
    ensures
        r == (*a == *b),
{
    crate::cid::digest_eq(a, b)
}

/// Reads the nibble of a key at a depth.
pub fn nibble_at(key: &HashOutput, depth: usize) -> (r: usize)
    requires
        depth < 64,
    ensures
        r == nibble(*key, depth as int),
        r < 16,
{
    let byte = key[depth / 2];
    if depth % 2 == 0 {
        (byte / 16) as usize
    } else {
        (byte % 16) as usize
    }
}

/// Finds the place of a key in a sorted bucket.
pub fn bucket_position(pairs: &Vec<Pair>, key: &HashOutput) -> (r: (usize, bool))
    ensures
        is_bucket_slot(pairs@, *key, r.0 as int),
        r.1 == (r.0 < pairs.len() && pairs[r.0 as int].key == *key),
{
    let mut i: usize = 0;
    while i < pairs.len()
        invariant
            i <= pairs.len(),
            forall|j: int| 0 <= j < i ==> lex_lt((#[trigger] pairs@[j]).key@, key@),
        decreases pairs.len() - i,
    {
        proof {
            lemma_lex_total(pairs@[i as int].key@, key@);
        }
        match compare_bytes(pairs[i].key.as_slice(), key.as_slice()) {
            Comparison::Less => {},
            Comparison::Equal => {
                proof {
                    assert(pairs@[i as int].key =~= *key);
                }
                return (i, true);
            },
            Comparison::Greater => {
                return (i, false);
            },
        }
        i += 1;
    }
    (i, false)
}

impl Node {
    /// The node that `self` holds.
    pub open spec fn model(&self) -> NodeModel
        decreases self,
    {
        NodeModel { slots: slots_model(self.slots@) }
    }

    /// Makes a node without entries.
    pub fn new() -> (r: Node)
        ensures
            r.model() == empty_node(),
    {
        let mut slots: Vec<Slot> = Vec::new();
        let mut i: usize = 0;
        while i < 16
            invariant
                i <= 16,
                slots.len() == i,
                forall|j: int| 0 <= j < i ==> slots@[j] is Empty,
            decreases 16 - i,
        {
            slots.push(Slot::Empty);
            i += 1;
        }
        let r = Node { slots };
        proof {
            assert(r.model().slots =~= empty_node().slots);
        }
        r
    }

    /// Gets the value under a key, in a node at a depth.
    pub fn get(&self, key: &HashOutput, depth: usize) -> (r: Option<Cid>)
        requires
            depth < 64,
        ensures
            r == self.model().lookup(depth as int, *key),
        decreases 64 - depth,
    {
        if self.slots.len() != 16 {
            return None;
        }
        let i = nibble_at(key, depth);
        match &self.slots[i] {
            Slot::Empty => None,
            Slot::Bucket(pairs) => find_in_bucket(pairs, key),
            Slot::Link(node) => {
                if depth + 1 < 64 {
                    node.get(key, depth + 1)
                } else {
                    None
                }
            },
        }
    }
}

/// Finds the value under a key in a bucket.
pub fn find_in_bucket(pairs: &Vec<Pair>, key: &HashOutput) -> (r: Option<Cid>)
    ensures
        r == bucket_find(pairs@, *key),
{
    let mut i: usize = 0;
    while i < pairs.len()
        invariant
            i <= pairs.len(),
            forall|j: int| 0 <= j < i ==> (#[trigger] pairs@[j]).key != *key,
        decreases pairs.len() - i,
    {
        if same_key(&pairs[i].key, key) {
            proof {
                lemma_first_match(pairs@, *key, i as int);
            }
            return Some(pairs[i].value);
        }
        i += 1;
    }
    proof {
        lemma_bucket_find_has(pairs@, *key);
    }
    None
}

} // verus!
