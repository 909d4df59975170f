//! Putting an entry into the trie.

use vstd::prelude::*;
use std::rc::Rc;
use crate::cid::{Cid, HashOutput};
use crate::private::hamt::{
    bucket_find, bucket_has, bucket_position, bucket_put, bucket_sorted, copy_pairs,
    is_bucket_slot, lemma_bucket_find_has, lemma_bucket_put, lemma_empty_node, lemma_nibble_range,
    lemma_slots_count_update, nibble, nibble_at, on_path, prefix, slot_count, slot_wf, Node,
    NodeModel, Pair, Slot, SlotModel,
};

verus! {

/// The value that a place gives under a key, in a node at a depth.
pub open spec fn slot_lookup(slot: SlotModel, depth: int, key: HashOutput) -> Option<Cid> {
    match slot {
        SlotModel::Empty => None,
        SlotModel::Bucket(pairs) => bucket_find(pairs, key),
        SlotModel::Link(node) => node.lookup(depth + 1, key),
    }
}

/// `none_adds(found)` is one where nothing was found, else zero.
pub open spec fn none_adds(found: Option<Cid>) -> nat {
    if found is None {
        1
    } else {
        0
    }
}

/// Whether the place `new` is what putting a key with a value into the
/// place `old` must give: a well-formed place that finds the key with the
/// value and every other key as before, with one entry more where the key
/// was not found.
pub open spec fn slot_set_ok(
    new: SlotModel,
    old: SlotModel,
    depth: int,
    path: Seq<int>,
    key: HashOutput,
    value: Cid,
) -> bool {
    &&& slot_wf(new, path)
    &&& forall|k: HashOutput| #[trigger]
        slot_lookup(new, depth, k) == if k == key {
            Some(value)
        } else {
            slot_lookup(old, depth, k)
        }
    &&& slot_count(new) == slot_count(old) + none_adds(slot_lookup(old, depth, key))
}

/// The nibbles of a key above a depth, with the nibble at the depth, are
/// the nibbles above the next depth.
pub proof fn lemma_prefix_push(key: HashOutput, depth: int)
    requires
        0 <= depth < 64,
    ensures
        prefix(key, depth).push(nibble(key, depth)) == prefix(key, depth + 1),
        on_path(key, prefix(key, depth + 1)),
        on_path(key, prefix(key, depth)),
{
    assert(prefix(key, depth).push(nibble(key, depth)) =~= prefix(key, depth + 1));
}

/// What replacing a place of a well-formed node by a well-formed place
/// gives: a well-formed node whose count changes by the difference of the
/// places' counts, and which finds the keys of that nibble in the new place
/// and every other key as before.
pub proof fn lemma_with_slot(node: NodeModel, depth: int, path: Seq<int>, i: int, slot: SlotModel)
    requires
        node.wf(path),
        path.len() == depth,
        0 <= i < 16,
        slot_wf(slot, path.push(i)),
    ensures
        node.with_slot(i, slot).wf(path),
        node.with_slot(i, slot).count() + slot_count(node.slots[i]) == node.count() + slot_count(
            slot,
        ),
        forall|key: HashOutput| #[trigger]
            node.with_slot(i, slot).lookup(depth, key) == if nibble(key, depth) == i {
                slot_lookup(slot, depth, key)
            } else {
                node.lookup(depth, key)
            },
        forall|key: HashOutput|
            nibble(key, depth) == i ==> #[trigger] node.lookup(depth, key) == slot_lookup(
                node.slots[i],
                depth,
                key,
            ),
{
    let next = node.with_slot(i, slot);
    lemma_slots_count_update(node.slots, i, slot);
    assert forall|j: int| 0 <= j < 16 implies slot_wf(#[trigger] next.slots[j], path.push(j)) by {
        if j != i {
            assert(slot_wf(node.slots[j], path.push(j)));
        }
    }
    assert forall|key: HashOutput| #[trigger]
        next.lookup(depth, key) == if nibble(key, depth) == i {
            slot_lookup(slot, depth, key)
        } else {
            node.lookup(depth, key)
        } by {
        lemma_nibble_range(key, depth);
    }
}

/// A bucket that ends in an entry whose key is the greatest finds that key
/// at the end and every other key as without the entry.
pub proof fn lemma_bucket_find_push(pairs: Seq<Pair>, pair: Pair)
    requires
        bucket_sorted(pairs.push(pair)),
    ensures
        bucket_sorted(pairs),
        !bucket_has(pairs, pair.key),
        forall|key: HashOutput|
            bucket_find(pairs.push(pair), key) == if key == pair.key {
                Some(pair.value)
            } else {
                #[trigger] bucket_find(pairs, key)
            },
{
    let all = pairs.push(pair);
    let n = pairs.len() as int;
    assert forall|a: int, b: int| 0 <= a < b < pairs.len() implies crate::order::lex_lt(
        (#[trigger] pairs[a]).key@,
        (#[trigger] pairs[b]).key@,
    ) by {
        assert(all[a] == pairs[a] && all[b] == pairs[b]);
    }
    assert forall|j: int| 0 <= j < n implies crate::order::lex_lt(
        (#[trigger] pairs[j]).key@,
        pair.key@,
    ) by {
        assert(all[j] == pairs[j] && all[n] == pair);
    }
    assert(is_bucket_slot(pairs, pair.key, n));
    lemma_bucket_put(pairs, pair, n);
    assert(bucket_put(pairs, pair, n) =~= all);
}

impl Node {
    /// A copy of the node that shares the subtrees below it.
    pub fn copy(&self) -> (r: Node)
        ensures
            r.model() == self.model(),
    {
        let mut slots: Vec<Slot> = Vec::new();
        let mut i: usize = 0;
        while i < self.slots.len()
            invariant
                i <= self.slots.len(),
                slots.len() == i,
                forall|j: int| 0 <= j < i ==> (#[trigger] slots@[j]).model() == self.slots@[j].model(),
            decreases self.slots.len() - i,
        {
            slots.push(self.slots[i].copy());
            i += 1;
        }
        let r = Node { slots };
        proof {
            assert(r.model().slots =~= self.model().slots);
        }
        r
    }

    /// A copy of the node with one place replaced.
    pub fn replace_slot(&self, i: usize, slot: Slot) -> (r: Node)
        requires
            i < self.slots.len(),
        ensures
            r.model() == self.model().with_slot(i as int, slot.model()),
    {
        let mut slots: Vec<Slot> = Vec::new();
        let ghost slot_model = slot.model();
        let mut j: usize = 0;
        while j < i
            invariant
                j <= i,
                i < self.slots.len(),
                slots.len() == j,
                forall|k: int| 0 <= k < j ==> (#[trigger] slots@[k]).model() == self.slots@[k].model(),
            decreases i - j,
        {
            slots.push(self.slots[j].copy());
            j += 1;
        }
        slots.push(slot);
        j += 1;
        while j < self.slots.len()
            invariant
                i < j <= self.slots.len(),
                slots.len() == j,
                slots@[i as int].model() == slot_model,
                forall|k: int|
                    0 <= k < j && k != i ==> (#[trigger] slots@[k]).model()
                        == self.slots@[k].model(),
            decreases self.slots.len() - j,
        {
            slots.push(self.slots[j].copy());
            j += 1;
        }
        let r = Node { slots };
        proof {
            assert(r.model().slots =~= self.model().with_slot(i as int, slot_model).slots);
        }
        r
    }

    /// Builds the subtree that takes the place of a full bucket when
    /// another entry comes in.
    fn split(pairs: &Vec<Pair>, key: HashOutput, value: Cid, depth: usize) -> (r: Node)
        requires
            depth < 64,
            bucket_sorted(pairs@),
            pairs@.len() == 3,
            !bucket_has(pairs@, key),
            forall|k: int|
                0 <= k < pairs@.len() ==> on_path((#[trigger] pairs@[k]).key, prefix(key, depth as int)),
        ensures
            r.model().wf(prefix(key, depth as int)),
            r.model().count() == 4,
            forall|k: HashOutput|
                r.model().lookup(depth as int, k) == if k == key {
                    Some(value)
                } else {
                    #[trigger] bucket_find(pairs@, k)
                },
        decreases 64 - depth, 1nat,
    {
        let ghost path = prefix(key, depth as int);
        let mut child = Node::new();
        let mut j: usize = 0;
        proof {
            lemma_empty_node(path, depth as int, key);
            assert(pairs@.subrange(0, 0) =~= Seq::empty());
            assert forall|k: HashOutput| child.model().lookup(depth as int, k) == #[trigger] bucket_find(
                pairs@.subrange(0, 0),
                k,
            ) by {
                lemma_empty_node(path, depth as int, k);
            }
        }
        while j < pairs.len()
            invariant
                j <= pairs.len(),
                depth < 64,
                path == prefix(key, depth as int),
                bucket_sorted(pairs@),
                forall|k: int| 0 <= k < pairs@.len() ==> on_path((#[trigger] pairs@[k]).key, path),
                child.model().wf(path),
                child.model().count() == j,
                forall|k: HashOutput|
                    child.model().lookup(depth as int, k) == #[trigger] bucket_find(
                        pairs@.subrange(0, j as int),
                        k,
                    ),
            decreases pairs.len() - j,
        {
            let pair = pairs[j];
            let ghost done = pairs@.subrange(0, j as int);
            let ghost before = child.model();
            proof {
                assert(on_path(pair.key, path));
                assert(prefix(pair.key, depth as int) == path);
                assert(done.push(pair) =~= pairs@.subrange(0, j + 1));
                assert forall|a: int, b: int| 0 <= a < b < done.push(pair).len() implies crate::order::lex_lt(
                    (#[trigger] done.push(pair)[a]).key@,
                    (#[trigger] done.push(pair)[b]).key@,
                ) by {
                    assert(done.push(pair)[a] == pairs@[a] && done.push(pair)[b] == pairs@[b]);
                }
                lemma_bucket_find_push(done, pair);
                lemma_bucket_find_has(done, pair.key);
            }
            child = child.set(pair.key, pair.value, depth);
            proof {
                assert forall|k: HashOutput|
                    child.model().lookup(depth as int, k) == #[trigger] bucket_find(
                        pairs@.subrange(0, j + 1),
                        k,
                    ) by {
                    assert(before.lookup(depth as int, k) == bucket_find(done, k));
                    assert(child.model().lookup(depth as int, k) == if k == pair.key {
                        Some(pair.value)
                    } else {
                        before.lookup(depth as int, k)
                    });
                    assert(bucket_find(done.push(pair), k) == if k == pair.key {
                        Some(pair.value)
                    } else {
                        bucket_find(done, k)
                    });
                }
            }
            j += 1;
        }
        proof {
            assert(pairs@.subrange(0, pairs@.len() as int) =~= pairs@);
            lemma_bucket_find_has(pairs@, key);
        }
        let ghost before = child.model();
        let r = child.set(key, value, depth);
        proof {
            assert forall|k: HashOutput|
                r.model().lookup(depth as int, k) == if k == key {
                    Some(value)
                } else {
                    #[trigger] bucket_find(pairs@, k)
                } by {
                assert(before.lookup(depth as int, k) == bucket_find(pairs@, k));
                assert(r.model().lookup(depth as int, k) == if k == key {
                    Some(value)
                } else {
                    before.lookup(depth as int, k)
                });
            }
        }
        r
    }

    /// Puts an entry into a node at a depth and gives the new node; the
    /// node itself stays as it is.
    pub fn set(&self, key: HashOutput, value: Cid, depth: usize) -> (r: Node)
        requires
            depth < 64,
            self.model().wf(prefix(key, depth as int)),
        ensures
            r.model().wf(prefix(key, depth as int)),
            forall|k: HashOutput|
                r.model().lookup(depth as int, k) == if k == key {
                    Some(value)
                } else {
                    #[trigger] self.model().lookup(depth as int, k)
                },
            r.model().count() == self.model().count() + none_adds(
                self.model().lookup(depth as int, key),
            ),
        decreases 64 - depth, 0nat,
    {
        let ghost path = prefix(key, depth as int);
        let ghost before = self.model();
        let i = nibble_at(&key, depth);
        let ghost old_slot = before.slots[i as int];
        let pair = Pair { key, value };
        proof {
            lemma_prefix_push(key, depth as int);
            assert(slot_wf(old_slot, path.push(i as int)));
            assert(old_slot == self.slots@[i as int].model());
        }
        let ghost here = path.push(i as int);
        let new_slot: Slot = match &self.slots[i] {
            Slot::Empty => {
                let mut pairs: Vec<Pair> = Vec::new();
                pairs.push(pair);
                proof {
                    let none = Seq::<Pair>::empty();
                    assert(is_bucket_slot(none, key, 0));
                    lemma_bucket_put(none, pair, 0);
                    assert(bucket_put(none, pair, 0) =~= pairs@);
                    assert(pairs@[0] == pair);
                    assert forall|k: HashOutput| #[trigger]
                        slot_lookup(SlotModel::Bucket(pairs@), depth as int, k) == if k == key {
                            Some(value)
                        } else {
                            slot_lookup(old_slot, depth as int, k)
                        } by {
                        assert(bucket_find(none, k) is None);
                    }
                    assert(slot_set_ok(
                        SlotModel::Bucket(pairs@),
                        old_slot,
                        depth as int,
                        here,
                        key,
                        value,
                    ));
                }
                Slot::Bucket(pairs)
            },
            Slot::Bucket(pairs) => {
                let (pos, found) = bucket_position(pairs, &key);
                proof {
                    lemma_bucket_put(pairs@, pair, pos as int);
                    lemma_bucket_find_has(pairs@, key);
                }
                if found || pairs.len() < 3 || depth == 63 {
                    let mut next = copy_pairs(pairs);
                    if found {
                        next[pos] = pair;
                    } else {
                        next.insert(pos, pair);
                    }
                    proof {
                        assert(next@ =~= bucket_put(pairs@, pair, pos as int));
                        assert forall|k: int| 0 <= k < next@.len() implies on_path(
                            (#[trigger] next@[k]).key,
                            here,
                        ) by {
                            if found {
                                if k != pos {
                                    assert(next@[k] == pairs@[k]);
                                }
                            } else {
                                if k < pos {
                                    assert(next@[k] == pairs@[k]);
                                } else if k > pos {
                                    assert(next@[k] == pairs@[k - 1]);
                                }
                            }
                        }
                        assert forall|k: HashOutput| #[trigger]
                            slot_lookup(SlotModel::Bucket(next@), depth as int, k) == if k == key {
                                Some(value)
                            } else {
                                slot_lookup(old_slot, depth as int, k)
                            } by {
                            assert(bucket_find(next@, k) == if k == key {
                                Some(value)
                            } else {
                                bucket_find(pairs@, k)
                            });
                        }
                        assert(slot_set_ok(
                            SlotModel::Bucket(next@),
                            old_slot,
                            depth as int,
                            here,
                            key,
                            value,
                        ));
                    }
                    Slot::Bucket(next)
                } else {
                    let child = Node::split(pairs, key, value, depth + 1);
                    proof {
                        assert forall|k: HashOutput| #[trigger]
                            slot_lookup(SlotModel::Link(child.model()), depth as int, k) == if k
                                == key {
                                Some(value)
                            } else {
                                slot_lookup(old_slot, depth as int, k)
                            } by {
                            assert(child.model().lookup(depth + 1, k) == if k == key {
                                Some(value)
                            } else {
                                bucket_find(pairs@, k)
                            });
                        }
                        assert(slot_set_ok(
                            SlotModel::Link(child.model()),
                            old_slot,
                            depth as int,
                            here,
                            key,
                            value,
                        ));
                    }
                    Slot::Link(Rc::new(child))
                }
            },
            Slot::Link(node) => {
                let child = node.set(key, value, depth + 1);
                proof {
                    assert forall|k: HashOutput| #[trigger]
                        slot_lookup(SlotModel::Link(child.model()), depth as int, k) == if k == key {
                            Some(value)
                        } else {
                            slot_lookup(old_slot, depth as int, k)
                        } by {
                        assert(child.model().lookup(depth + 1, k) == if k == key {
                            Some(value)
                        } else {
                            node.model().lookup(depth + 1, k)
                        });
                    }
                    assert(slot_set_ok(
                        SlotModel::Link(child.model()),
                        old_slot,
                        depth as int,
                        here,
                        key,
                        value,
                    ));
                }
                Slot::Link(Rc::new(child))
            },
        };
        proof {
            assert(slot_set_ok(new_slot.model(), old_slot, depth as int, here, key, value));
            lemma_with_slot(before, depth as int, path, i as int, new_slot.model());
        }
        let r = self.replace_slot(i, new_slot);
        proof {
            assert forall|k: HashOutput|
                r.model().lookup(depth as int, k) == if k == key {
                    Some(value)
                } else {
                    #[trigger] before.lookup(depth as int, k)
                } by {
                assert(r.model().lookup(depth as int, k) == if nibble(k, depth as int) == i {
                    slot_lookup(new_slot.model(), depth as int, k)
                } else {
                    before.lookup(depth as int, k)
                });
                if nibble(k, depth as int) == i {
                    assert(before.lookup(depth as int, k) == slot_lookup(old_slot, depth as int, k));
                }
            }
            assert(before.lookup(depth as int, key) == slot_lookup(old_slot, depth as int, key));
        }
        r
    }
}

} // verus!
