//! Writing the trie into a block store: each node is a DAG-CBOR block that
//! holds a bitmap of the places in use and, for each of them in turn, the
//! bucket of its entries or the address of its subtree. Subtrees are
//! stored before the node that points to them.

use vstd::prelude::*;
use crate::cid::{Cid, HashOutput};
use crate::error::{store_failed, FsError};
use crate::ipld::{entries_model, items_model, Value, ValueModel};
use crate::private::canonical::lemma_hamt_canonical;
use crate::private::codec::to_vec;
use crate::private::forest::{ForestMap, PrivateForest};
use crate::private::hamt::{Node, NodeModel, Pair, Slot, SlotModel};
use crate::private::hamt_remove::Hamt;
use crate::public::history::{store_value, stored_value};
use crate::store::{BlockStore, Blocks};

verus! {

/// The value that an entry is written as.
pub open spec fn pair_value(pair: Pair) -> ValueModel {
    ValueModel::StringMap(
        seq![("key"@, ValueModel::Bytes(pair.key@)), ("value"@, ValueModel::Link(pair.value))],
    )
}

/// The values that the entries of a bucket are written as, in the order
/// of the bucket.
pub open spec fn bucket_values(pairs: Seq<Pair>) -> Seq<ValueModel> {
    Seq::new(pairs.len(), |i: int| pair_value(pairs[i]))
}

/// The value that a node is written as, given the bitmap of its places in
/// use and what is written for each of them.
pub open spec fn trie_value(bitmap: int, items: Seq<ValueModel>) -> ValueModel {
    ValueModel::StringMap(
        seq![("bitmap"@, ValueModel::Integer(bitmap)), ("slots"@, ValueModel::List(items))],
    )
}

/// The weight of the place `i` in the bitmap: two to the power of `i`.
pub open spec fn weight(i: int) -> int
    decreases i,
{
    if i <= 0 {
        1
    } else {
        2 * weight(i - 1)
    }
}

/// What storing a node gives: its address and the blocks with the blocks
/// of the node and of its subtrees among them. A node that has not
/// sixteen places is not stored.
pub open spec fn stored_trie(node: NodeModel, blocks: Blocks) -> (Result<Cid, FsError>, Blocks)
    decreases node, 0nat,
{
    if node.slots.len() != 16 {
        (Err(FsError::UnexpectedNodeType), blocks)
    } else {
        match stored_slots(node.slots, 0, 0, Seq::empty(), blocks) {
            (Ok((bitmap, items)), after) => stored_value(trie_value(bitmap, items), after),
            (Err(e), after) => (Err(e), after),
        }
    }
}

/// What storing the places from `j` on gives, after the places before
/// with the bitmap `bitmap` and the values `items`: an empty place adds
/// nothing, a bucket the list of its entries, a subtree its address.
pub open spec fn stored_slots(
    slots: Seq<SlotModel>,
    j: int,
    bitmap: int,
    items: Seq<ValueModel>,
    blocks: Blocks,
) -> (Result<(int, Seq<ValueModel>), FsError>, Blocks)
    decreases slots, slots.len() - j,
{
    if j < 0 || j >= slots.len() {
        (Ok((bitmap, items)), blocks)
    } else {
        match slots[j] {
            SlotModel::Empty => stored_slots(slots, j + 1, bitmap, items, blocks),
            SlotModel::Bucket(pairs) => stored_slots(
                slots,
                j + 1,
                bitmap + weight(j),
                items.push(ValueModel::List(bucket_values(pairs))),
                blocks,
            ),
            SlotModel::Link(child) => match stored_trie(child, blocks) {
                (Ok(cid), after) => stored_slots(
                    slots,
                    j + 1,
                    bitmap + weight(j),
                    items.push(ValueModel::Link(cid)),
                    after,
                ),
                (Err(e), after) => (Err(e), after),
            },
        }
    }
}

/// The weights of the sixteen places fit sixteen bits.
pub proof fn lemma_weight(i: int)
    requires
        0 <= i < 16,
    ensures
        1 <= weight(i) <= 32768,
        weight(i + 1) == 2 * weight(i),
{
    reveal_with_fuel(weight, 17);
}

/// Writes a bucket as a list of its entries.
pub fn bucket_to_value(pairs: &Vec<Pair>) -> (v: Value)
    ensures
        v.model() == ValueModel::List(bucket_values(pairs@)),
{
    let mut items: Vec<Value> = Vec::new();
    let mut i: usize = 0;
    while i < pairs.len()
        invariant
            i <= pairs.len(),
            items.len() == i,
            forall|j: int| 0 <= j < i ==> (#[trigger] items[j]).model() == pair_value(pairs[j]),
        decreases pairs.len() - i,
    {
        let mut entries: Vec<(String, Value)> = Vec::new();
        entries.push(("key".to_string(), Value::Bytes(to_vec(pairs[i].key.as_slice()))));
        entries.push(("value".to_string(), Value::Link(pairs[i].value)));
        proof {
            assert(entries_model(entries@) =~= seq![
                ("key"@, ValueModel::Bytes(pairs[i as int].key@)),
                ("value"@, ValueModel::Link(pairs[i as int].value)),
            ]);
        }
        items.push(Value::StringMap(entries));
        i += 1;
    }
    proof {
        assert(items_model(items@) =~= bucket_values(pairs@));
    }
    Value::List(items)
}

/// Writes a node as a value, given the bitmap of its places in use and
/// what is written for each of them.
pub fn trie_to_value(bitmap: i128, items: Vec<Value>) -> (v: Value)
    ensures
        v.model() == trie_value(bitmap as int, items_model(items@)),
{
    let ghost written = items_model(items@);
    let mut entries: Vec<(String, Value)> = Vec::new();
    entries.push(("bitmap".to_string(), Value::Integer(bitmap)));
    entries.push(("slots".to_string(), Value::List(items)));
    proof {
        assert(entries_model(entries@) =~= seq![
            ("bitmap"@, ValueModel::Integer(bitmap as int)),
            ("slots"@, ValueModel::List(written)),
        ]);
    }
    Value::StringMap(entries)
}

impl Node {
    /// Stores the node and its subtrees and returns the address of the
    /// node.
    pub fn store<B: BlockStore>(&self, store: &mut B) -> (r: Result<Cid, FsError>)
        ensures
            final(store).reliable() == old(store).reliable(),
            (r, final(store).blocks()) == stored_trie(self.model(), old(store).blocks()) || (
            store_failed(r) && !old(store).reliable()),
        decreases self,
    {
        if self.slots.len() != 16 {
            return Err(FsError::UnexpectedNodeType);
        }
        let ghost slots = self.model().slots;
        let ghost goal = stored_slots(slots, 0, 0, Seq::empty(), store.blocks());
        let mut bitmap: i128 = 0;
        let mut place: i128 = 1;
        let mut items: Vec<Value> = Vec::new();
        let mut j: usize = 0;
        proof {
            assert(items_model(items@) =~= Seq::empty());
            reveal_with_fuel(weight, 2);
        }
        while j < 16
            invariant
                j <= 16,
                self.slots.len() == 16,
                slots == self.model().slots,
                store.reliable() == old(store).reliable(),
                place == weight(j as int),
                0 <= bitmap < place,
                place <= 65536,
                goal == stored_slots(slots, 0, 0, Seq::empty(), old(store).blocks()),
                goal == stored_slots(
                    slots,
                    j as int,
                    bitmap as int,
                    items_model(items@),
                    store.blocks(),
                ),
            decreases 16 - j,
        {
            let ghost done = items_model(items@);
            proof {
                lemma_weight(j as int);
                assert(slots[j as int] == self.slots[j as int].model());
            }
            match &self.slots[j] {
                Slot::Empty => {},
                Slot::Bucket(pairs) => {
                    let item = bucket_to_value(pairs);
                    let ghost written = item.model();
                    items.push(item);
                    bitmap = bitmap + place;
                    proof {
                        assert(items_model(items@) =~= done.push(written));
                    }
                },
                Slot::Link(child) => {
                    let cid = child.store(store)?;
                    items.push(Value::Link(cid));
                    bitmap = bitmap + place;
                    proof {
                        assert(items_model(items@) =~= done.push(ValueModel::Link(cid)));
                    }
                },
            }
            place = place * 2;
            j += 1;
        }
        let value = trie_to_value(bitmap, items);
        store_value(&value, store)
    }
}

impl Hamt {
    /// Stores the trie and returns the address of its root.
    pub fn store<B: BlockStore>(&self, store: &mut B) -> (r: Result<Cid, FsError>)
        ensures
            final(store).reliable() == old(store).reliable(),
            (r, final(store).blocks()) == stored_trie(self.root.model(), old(store).blocks()) || (
            store_failed(r) && !old(store).reliable()),
    {
        self.root.store(store)
    }
}

impl PrivateForest {
    /// Stores the index of the forest and returns the address of its root.
    pub fn store<B: BlockStore>(&self, store: &mut B) -> (r: Result<Cid, FsError>)
        ensures
            final(store).reliable() == old(store).reliable(),
            (r, final(store).blocks()) == stored_trie(
                self.root.root.model(),
                old(store).blocks(),
            ) || (store_failed(r) && !old(store).reliable()),
    {
        self.root.store(store)
    }
}

/// The address that storing a node gives does not depend on the blocks
/// that the store holds.
pub proof fn lemma_root_of_node(node: NodeModel, a: Blocks, b: Blocks)
    ensures
        stored_trie(node, a).0 == stored_trie(node, b).0,
    decreases node, 0nat,
{
    if node.slots.len() == 16 {
        lemma_root_of_slots(node.slots, 0, 0, Seq::empty(), a, b);
    }
}

/// What is written for the places of a node does not depend on the blocks
/// that the store holds.
pub proof fn lemma_root_of_slots(
    slots: Seq<SlotModel>,
    j: int,
    bitmap: int,
    items: Seq<ValueModel>,
    a: Blocks,
    b: Blocks,
)
    ensures
        stored_slots(slots, j, bitmap, items, a).0 == stored_slots(slots, j, bitmap, items, b).0,
    decreases slots, slots.len() - j,
{
    if 0 <= j < slots.len() {
        match slots[j] {
            SlotModel::Empty => {
                lemma_root_of_slots(slots, j + 1, bitmap, items, a, b);
            },
            SlotModel::Bucket(pairs) => {
                lemma_root_of_slots(
                    slots,
                    j + 1,
                    bitmap + weight(j),
                    items.push(ValueModel::List(bucket_values(pairs))),
                    a,
                    b,
                );
            },
            SlotModel::Link(child) => {
                lemma_root_of_node(child, a, b);
                match stored_trie(child, a) {
                    (Ok(cid), after) => {
                        lemma_root_of_slots(
                            slots,
                            j + 1,
                            bitmap + weight(j),
                            items.push(ValueModel::Link(cid)),
                            after,
                            stored_trie(child, b).1,
                        );
                    },
                    _ => {},
                }
            },
        }
    }
}

/// Two well-formed tries that hold the same entries have the same root
/// address, whatever the order in which entries were put in and taken out
/// of each, and whatever store each is written to.
pub proof fn lemma_same_entries_same_root(a: Hamt, b: Hamt, blocks_a: Blocks, blocks_b: Blocks)
    requires
        a.wf(),
        b.wf(),
        forall|k: crate::cid::HashOutput| #[trigger] a.lookup(k) == b.lookup(k),
    ensures
        stored_trie(a.root.model(), blocks_a).0 == stored_trie(b.root.model(), blocks_b).0,
{
    lemma_hamt_canonical(a, b);
    lemma_root_of_node(a.root.model(), blocks_a, blocks_b);
}

/// Two well-formed forests that hold the same entries have the same root
/// address.
pub proof fn lemma_same_forest_same_root(
    a: PrivateForest,
    b: PrivateForest,
    blocks_a: Blocks,
    blocks_b: Blocks,
)
    requires
        a.wf(),
        b.wf(),
        a@ == b@,
    ensures
        stored_trie(a.root.root.model(), blocks_a).0 == stored_trie(
            b.root.root.model(),
            blocks_b,
        ).0,
{
    assert forall|k: crate::cid::HashOutput| #[trigger] a.root.lookup(k) == b.root.lookup(k) by {
        assert(a@.contains_key(k) == (a.root.lookup(k) is Some));
        assert(b@.contains_key(k) == (b.root.lookup(k) is Some));
        if a@.contains_key(k) {
            assert(a@[k] == a.root.lookup(k)->0);
            assert(b@[k] == b.root.lookup(k)->0);
        }
    }
    lemma_same_entries_same_root(a.root, b.root, blocks_a, blocks_b);
}

/// Four addresses under four different hashes, put into an empty forest in
/// one order or in another, with the third taken out of each again: what
/// is taken out is the third address, and what is left is the forest of
/// the three others, at one root address.
pub proof fn lemma_order_of_writing(
    one: PrivateForest,
    other: PrivateForest,
    three: PrivateForest,
    keys: (HashOutput, HashOutput, HashOutput, HashOutput),
    values: (Cid, Cid, Cid, Cid),
    blocks: (Blocks, Blocks, Blocks),
)
    requires
        one.wf(),
        other.wf(),
        three.wf(),
        keys.0 != keys.1 && keys.0 != keys.2 && keys.0 != keys.3,
        keys.1 != keys.2 && keys.1 != keys.3 && keys.2 != keys.3,
        one@ == in_order_of_writing(keys, values).remove(keys.2),
        other@ == in_other_order(keys, values).remove(keys.2),
        three@ == ForestMap::empty().insert(keys.0, values.0).insert(keys.1, values.1).insert(
            keys.3,
            values.3,
        ),
    ensures
        in_order_of_writing(keys, values)[keys.2] == values.2,
        in_other_order(keys, values)[keys.2] == values.2,
        one@ == three@,
        other@ == three@,
        stored_trie(one.root.root.model(), blocks.0).0 == stored_trie(
            three.root.root.model(),
            blocks.2,
        ).0,
        stored_trie(other.root.root.model(), blocks.1).0 == stored_trie(
            three.root.root.model(),
            blocks.2,
        ).0,
{
    assert(one@ =~= three@);
    assert(other@ =~= three@);
    lemma_same_forest_same_root(one, three, blocks.0, blocks.2);
    lemma_same_forest_same_root(other, three, blocks.1, blocks.2);
}

/// Four entries put into an empty forest, the first first.
pub open spec fn in_order_of_writing(
    keys: (HashOutput, HashOutput, HashOutput, HashOutput),
    values: (Cid, Cid, Cid, Cid),
) -> ForestMap {
    ForestMap::empty().insert(keys.0, values.0).insert(keys.1, values.1).insert(
        keys.2,
        values.2,
    ).insert(keys.3, values.3)
}

/// The same four entries put into an empty forest: the fourth, the
/// second, the first, then the third.
pub open spec fn in_other_order(
    keys: (HashOutput, HashOutput, HashOutput, HashOutput),
    values: (Cid, Cid, Cid, Cid),
) -> ForestMap {
    ForestMap::empty().insert(keys.3, values.3).insert(keys.1, values.1).insert(
        keys.0,
        values.0,
    ).insert(keys.2, values.2)
}

} // verus!
