//! Reading the trie back from a block store. What is read is held to the
//! shape that a trie must have: a block that holds anything else is
//! refused.

use vstd::prelude::*;
use std::rc::Rc;
use crate::assoc::find;
use crate::cid::{Cid, HashOutput};
use crate::error::{store_failed, FsError};
use crate::ipld::{dag_cbor_value, decode, items_model, map_get, Value, ValueModel};
use crate::order::{
    compare_bytes, lemma_lex_irreflexive, lemma_lex_transitive, lex_lt, Comparison,
};
use crate::private::codec::{bytes_field, digest_of, read_bytes, to_digest};
use crate::private::forest::PrivateForest;
use crate::private::hamt::{
    bucket_sorted, nibble, nibble_at, on_path, prefix, slot_count, slot_wf, slots_count,
    slots_model, Node, NodeModel, Pair, Slot, SlotModel,
};
use crate::private::hamt_remove::Hamt;
use crate::private::hamt_store::{lemma_weight, weight};
use crate::public::codec::{int_field, read_int};
use crate::store::{fetch, BlockStore, Blocks};

verus! {

/// The entry that a value holds.
pub open spec fn pair_of_value(v: ValueModel) -> Option<Pair> {
    match v {
        ValueModel::StringMap(entries) => match (
            bytes_field(entries, "key"@, 32),
            find(entries, "value"@),
        ) {
            (Some(key), Some(ValueModel::Link(value))) => Some(
                Pair { key: digest_of(key), value },
            ),
            _ => None,
        },
        _ => None,
    }
}

/// The entries that a list of values holds: `None` where one of them holds
/// no entry.
pub open spec fn pairs_of_values(items: Seq<ValueModel>) -> Option<Seq<Pair>>
    decreases items.len(),
{
    if items.len() == 0 {
        Some(Seq::empty())
    } else {
        match (pairs_of_values(items.drop_last()), pair_of_value(items.last())) {
            (Some(rest), Some(pair)) => Some(rest.push(pair)),
            _ => None,
        }
    }
}

/// Whether a bitmap marks the place `i` as in use.
pub open spec fn bit_set(bitmap: int, i: int) -> bool {
    (bitmap / weight(i)) % 2 == 1
}

/// A count of entries as far as it matters for the shape of the trie: up
/// to three, or more.
pub open spec fn capped(count: nat) -> nat {
    if count > 3 {
        4
    } else {
        count
    }
}

/// The nibbles of a path as contracts see them.
pub open spec fn path_model(path: Seq<usize>) -> Seq<int> {
    Seq::new(path.len(), |i: int| path[i] as int)
}

/// The node that the block at an address holds, for the keys with the
/// nibbles `path`: the block is a map of a bitmap and a list, which holds
/// for each place that the bitmap marks, in turn, the address of a subtree
/// of more than three entries or a bucket that is well formed for the
/// place, and nothing else.
pub open spec fn read_trie(cid: Cid, blocks: Blocks, path: Seq<int>) -> Result<NodeModel, FsError>
    decreases 64 - path.len(), 17nat,
{
    if path.len() >= 64 {
        Err(FsError::UnexpectedNodeType)
    } else {
        match fetch(blocks, cid) {
            Err(e) => Err(e),
            Ok(bytes) => match dag_cbor_value(bytes) {
                Some(ValueModel::StringMap(entries)) => match (
                    int_field(entries, "bitmap"@, 0, 65535),
                    find(entries, "slots"@),
                ) {
                    (Some(bitmap), Some(ValueModel::List(items))) => read_slots(
                        items,
                        0,
                        0,
                        Seq::empty(),
                        bitmap,
                        blocks,
                        path,
                    ),
                    _ => Err(FsError::UnexpectedNodeType),
                },
                _ => Err(FsError::UnexpectedNodeType),
            },
        }
    }
}

/// The node that the places from `j` on complete, after the places `done`
/// and with the items from `next` on still to read.
pub open spec fn read_slots(
    items: Seq<ValueModel>,
    j: int,
    next: int,
    done: Seq<SlotModel>,
    bitmap: int,
    blocks: Blocks,
    path: Seq<int>,
) -> Result<NodeModel, FsError>
    decreases 64 - path.len(), 16 - j,
{
    if j < 0 || j >= 16 || path.len() >= 64 {
        if next == items.len() {
            Ok(NodeModel { slots: done })
        } else {
            Err(FsError::UnexpectedNodeType)
        }
    } else if !bit_set(bitmap, j) {
        read_slots(items, j + 1, next, done.push(SlotModel::Empty), bitmap, blocks, path)
    } else if next < 0 || next >= items.len() {
        Err(FsError::UnexpectedNodeType)
    } else {
        match items[next] {
            ValueModel::Link(child) => match read_trie(child, blocks, path.push(j)) {
                Err(e) => Err(e),
                Ok(node) => if node.count() > 3 {
                    read_slots(
                        items,
                        j + 1,
                        next + 1,
                        done.push(SlotModel::Link(node)),
                        bitmap,
                        blocks,
                        path,
                    )
                } else {
                    Err(FsError::UnexpectedNodeType)
                },
            },
            ValueModel::List(values) => match pairs_of_values(values) {
                None => Err(FsError::UnexpectedNodeType),
                Some(pairs) => if slot_wf(SlotModel::Bucket(pairs), path.push(j)) {
                    read_slots(
                        items,
                        j + 1,
                        next + 1,
                        done.push(SlotModel::Bucket(pairs)),
                        bitmap,
                        blocks,
                        path,
                    )
                } else {
                    Err(FsError::UnexpectedNodeType)
                },
            },
            _ => Err(FsError::UnexpectedNodeType),
        }
    }
}

/// Reads an entry from a value.
pub fn pair_from_value(v: &Value) -> (r: Option<Pair>)
    ensures
        r == pair_of_value(v.model()),
{
    let entries = match v {
        Value::StringMap(entries) => entries,
        _ => {
            return None;
        },
    };
    match (read_bytes(entries, "key", 32), map_get(entries, "value")) {
        (Some(key), Some(Value::Link(value))) => Some(
            Pair { key: to_digest(key.as_slice()), value: *value },
        ),
        _ => None,
    }
}

/// Where the first values of a list hold what is no entry, so does the
/// whole list.
proof fn lemma_pairs_of_values_prefix(items: Seq<ValueModel>, k: int)
    requires
        0 <= k <= items.len(),
        pairs_of_values(items.subrange(0, k)) is None,
    ensures
        pairs_of_values(items) is None,
    decreases items.len() - k,
{
    if k < items.len() {
        let next = items.subrange(0, k + 1);
        assert(next.drop_last() =~= items.subrange(0, k));
        lemma_pairs_of_values_prefix(items, k + 1);
    } else {
        assert(items.subrange(0, k) =~= items);
    }
}

/// Reads the entries of a bucket from a list of values.
pub fn pairs_from_values(values: &Vec<Value>) -> (r: Option<Vec<Pair>>)
    ensures
        match r {
            Some(pairs) => pairs_of_values(items_model(values@)) == Some(pairs@),
            None => pairs_of_values(items_model(values@)) is None,
        },
{
    let ghost all = items_model(values@);
    let mut pairs: Vec<Pair> = Vec::new();
    let mut i: usize = 0;
    proof {
        assert(all.subrange(0, 0) =~= Seq::empty());
    }
    while i < values.len()
        invariant
            i <= values.len(),
            all == items_model(values@),
            pairs_of_values(all.subrange(0, i as int)) == Some(pairs@),
        decreases values.len() - i,
    {
        let ghost before = pairs@;
        let ghost next = all.subrange(0, i + 1);
        proof {
            assert(next.drop_last() =~= all.subrange(0, i as int));
            assert(next.last() == values[i as int].model());
        }
        match pair_from_value(&values[i]) {
            Some(pair) => {
                pairs.push(pair);
                proof {
                    assert(pairs@ =~= before.push(pair));
                }
            },
            None => {
                proof {
                    lemma_pairs_of_values_prefix(all, i + 1);
                }
                return None;
            },
        }
        i += 1;
    }
    proof {
        assert(all.subrange(0, i as int) =~= all);
    }
    Some(pairs)
}

/// Tells whether the first nibbles of a key are those of a path.
pub fn key_on_path(key: &HashOutput, path: &Vec<usize>) -> (r: bool)
    requires
        path.len() <= 64,
    ensures
        r == on_path(*key, path_model(path@)),
{
    let ghost names = path_model(path@);
    let mut t: usize = 0;
    while t < path.len()
        invariant
            t <= path.len(),
            path.len() <= 64,
            names == path_model(path@),
            forall|k: int| 0 <= k < t ==> nibble(*key, k) == names[k],
        decreases path.len() - t,
    {
        if nibble_at(key, t) != path[t] {
            proof {
                assert(prefix(*key, names.len() as int)[t as int] == nibble(*key, t as int));
            }
            return false;
        }
        t += 1;
    }
    proof {
        assert(prefix(*key, names.len() as int) =~= names);
    }
    true
}

/// Tells whether a bucket is well formed for the place at the end of a
/// path: it holds an entry, no more than three unless the path is of full
/// length, its keys grow strictly and are on the path.
pub fn bucket_fits(pairs: &Vec<Pair>, path: &Vec<usize>) -> (r: bool)
    requires
        path.len() <= 64,
    ensures
        r == slot_wf(SlotModel::Bucket(pairs@), path_model(path@)),
{
    let ghost names = path_model(path@);
    if pairs.len() == 0 {
        return false;
    }
    if pairs.len() > 3 && path.len() != 64 {
        return false;
    }
    let mut i: usize = 0;
    while i < pairs.len()
        invariant
            i <= pairs.len(),
            path.len() <= 64,
            names == path_model(path@),
            forall|k: int| 0 <= k < i ==> on_path((#[trigger] pairs@[k]).key, names),
            forall|a: int, b: int|
                0 <= a < b < i ==> lex_lt((#[trigger] pairs@[a]).key@, (#[trigger] pairs@[b]).key@),
        decreases pairs.len() - i,
    {
        if !key_on_path(&pairs[i].key, path) {
            proof {
                assert(!on_path(pairs@[i as int].key, names));
            }
            return false;
        }
        if i > 0 {
            proof {
                lemma_lex_irreflexive(pairs@[i as int].key@);
            }
            match compare_bytes(pairs[i - 1].key.as_slice(), pairs[i].key.as_slice()) {
                Comparison::Less => {
                    proof {
                        assert forall|a: int| 0 <= a < i implies lex_lt(
                            (#[trigger] pairs@[a]).key@,
                            pairs@[i as int].key@,
                        ) by {
                            if a < i - 1 {
                                assert(lex_lt(pairs@[a].key@, pairs@[i - 1].key@));
                                lemma_lex_transitive(
                                    pairs@[a].key@,
                                    pairs@[i - 1].key@,
                                    pairs@[i as int].key@,
                                );
                            }
                        }
                    }
                },
                _ => {
                    proof {
                        assert(!lex_lt(pairs@[i - 1].key@, pairs@[i as int].key@));
                        assert(!bucket_sorted(pairs@));
                    }
                    return false;
                },
            }
        }
        i += 1;
    }
    true
}

/// Reads the node at an address and the subtrees below it, for the keys
/// with the nibbles `path`, and gives the node with the count of its
/// entries as far as four.
pub fn load_node<B: BlockStore>(cid: &Cid, store: &B, path: &Vec<usize>) -> (r: Result<
    (Node, usize),
    FsError,
>)
    requires
        path.len() <= 64,
    ensures
        store_failed(r) && !store.reliable() || match r {
            Ok((node, count)) => read_trie(*cid, store.blocks(), path_model(path@)) == Ok::<
                NodeModel,
                FsError,
            >(node.model()) && node.model().wf(path_model(path@)) && count == capped(
                node.model().count(),
            ),
            Err(e) => read_trie(*cid, store.blocks(), path_model(path@)) == Err::<
                NodeModel,
                FsError,
            >(e),
        },
    decreases 64 - path.len(),
{
    if path.len() >= 64 {
        return Err(FsError::UnexpectedNodeType);
    }
    let bytes = store.get_block(cid)?;
    let entries = match decode(bytes.as_slice()) {
        Some(Value::StringMap(entries)) => entries,
        _ => {
            return Err(FsError::UnexpectedNodeType);
        },
    };
    let bitmap = match read_int(&entries, "bitmap", 0, 65535) {
        Some(bitmap) => bitmap,
        None => {
            return Err(FsError::UnexpectedNodeType);
        },
    };
    let items = match map_get(&entries, "slots") {
        Some(Value::List(items)) => items,
        _ => {
            return Err(FsError::UnexpectedNodeType);
        },
    };
    let ghost names = path_model(path@);
    let ghost all = items_model(items@);
    let ghost goal = read_trie(*cid, store.blocks(), names);
    let mut slots: Vec<Slot> = Vec::new();
    let mut next: usize = 0;
    let mut count: usize = 0;
    let mut place: i128 = 1;
    let mut j: usize = 0;
    proof {
        assert(slots_model(slots@) =~= Seq::empty());
        assert(goal == read_slots(all, 0, 0, Seq::empty(), bitmap as int, store.blocks(), names));
        reveal_with_fuel(weight, 2);
    }
    while j < 16
        invariant
            j <= 16,
            slots.len() == j,
            next <= items.len(),
            path.len() < 64,
            names == path_model(path@),
            all == items_model(items@),
            place == weight(j as int),
            1 <= place <= 65536,
            0 <= bitmap <= 65535,
            count == capped(slots_count(slots_model(slots@))),
            forall|i: int| 0 <= i < j ==> slot_wf(#[trigger] slots_model(slots@)[i], names.push(i)),
            goal == read_trie(*cid, store.blocks(), names),
            goal == read_slots(
                all,
                j as int,
                next as int,
                slots_model(slots@),
                bitmap as int,
                store.blocks(),
                names,
            ),
        decreases 16 - j,
    {
        let ghost done = slots_model(slots@);
        proof {
            lemma_weight(j as int);
        }
        let used = (bitmap / place) % 2 == 1;
        let ghost read: SlotModel;
        if used {
            if next >= items.len() {
                return Err(FsError::UnexpectedNodeType);
            }
            let mut slot_path = path.clone();
            slot_path.push(j);
            proof {
                assert(path_model(slot_path@) =~= names.push(j as int));
                assert(all[next as int] == items[next as int].model());
            }
            match &items[next] {
                Value::Link(child_cid) => {
                    let (child, child_count) = load_node(child_cid, store, &slot_path)?;
                    if child_count <= 3 {
                        return Err(FsError::UnexpectedNodeType);
                    }
                    proof {
                        read = SlotModel::Link(child.model());
                    }
                    slots.push(Slot::Link(Rc::new(child)));
                    count = 4;
                },
                Value::List(values) => {
                    let pairs = match pairs_from_values(values) {
                        Some(pairs) => pairs,
                        None => {
                            return Err(FsError::UnexpectedNodeType);
                        },
                    };
                    if !bucket_fits(&pairs, &slot_path) {
                        return Err(FsError::UnexpectedNodeType);
                    }
                    let more: usize = if pairs.len() > 3 {
                        4
                    } else {
                        pairs.len()
                    };
                    count = if count + more > 3 {
                        4
                    } else {
                        count + more
                    };
                    proof {
                        read = SlotModel::Bucket(pairs@);
                    }
                    slots.push(Slot::Bucket(pairs));
                },
                _ => {
                    return Err(FsError::UnexpectedNodeType);
                },
            }
            next += 1;
        } else {
            proof {
                read = SlotModel::Empty;
            }
            slots.push(Slot::Empty);
        }
        proof {
            let now = slots_model(slots@);
            assert(now =~= done.push(read));
            assert(now.subrange(0, now.len() - 1) =~= done);
            reveal_with_fuel(slot_count, 2);
            assert(slots_count(now) == slots_count(done) + slot_count(read));
            assert forall|i: int| 0 <= i < j + 1 implies slot_wf(
                #[trigger] now[i],
                names.push(i),
            ) by {
                if i < j {
                    assert(now[i] == done[i]);
                }
            }
        }
        place = place * 2;
        j += 1;
    }
    if next != items.len() {
        return Err(FsError::UnexpectedNodeType);
    }
    Ok((Node { slots }, count))
}

impl Hamt {
    /// Reads the trie whose root is at an address.
    pub fn load<B: BlockStore>(cid: &Cid, store: &B) -> (r: Result<Hamt, FsError>)
        ensures
            store_failed(r) && !store.reliable() || match r {
                Ok(hamt) => hamt.wf() && read_trie(*cid, store.blocks(), Seq::empty()) == Ok::<
                    NodeModel,
                    FsError,
                >(hamt.root.model()),
                Err(e) => read_trie(*cid, store.blocks(), Seq::empty()) == Err::<
                    NodeModel,
                    FsError,
                >(e),
            },
    {
        let path: Vec<usize> = Vec::new();
        proof {
            assert(path_model(path@) =~= Seq::empty());
        }
        let (root, _) = load_node(cid, store, &path)?;
        Ok(Hamt { root: Rc::new(root) })
    }
}

impl PrivateForest {
    /// Reads the forest whose index has its root at an address.
    pub fn load<B: BlockStore>(cid: &Cid, store: &B) -> (r: Result<PrivateForest, FsError>)
        ensures
            store_failed(r) && !store.reliable() || match r {
                Ok(forest) => forest.wf() && read_trie(*cid, store.blocks(), Seq::empty()) == Ok::<
                    NodeModel,
                    FsError,
                >(forest.root.root.model()),
                Err(e) => read_trie(*cid, store.blocks(), Seq::empty()) == Err::<
                    NodeModel,
                    FsError,
                >(e),
            },
    {
        let root = Hamt::load(cid, store)?;
        Ok(PrivateForest { root })
    }
}

} // verus!
