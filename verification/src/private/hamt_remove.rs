//! Taking an entry out of the trie, and the trie as a whole.

use vstd::prelude::*;
use std::rc::Rc;
use crate::cid::{Cid, HashOutput};
use crate::order::{lemma_lex_common_prefix, lex_lt};
use crate::private::hamt::{
    bucket_find, bucket_has, bucket_position, bucket_sorted, copy_pairs, empty_node,
    lemma_bucket_find_has, lemma_bucket_remove, lemma_empty_node, lemma_nibble_range,
    lemma_slots_count_at_least, nibble, nibble_at, on_path, prefix, slot_count, slot_wf,
    slots_count, Node, Pair, Slot, SlotModel,
};
use crate::private::hamt_set::{lemma_prefix_push, lemma_with_slot, slot_lookup};

verus! {

/// Whether the place `new` is what taking a key that is found out of the
/// place `old` must give: a well-formed place that finds the key no more
/// and every other key as before, with one entry fewer.
pub open spec fn slot_remove_ok(
    new: SlotModel,
    old: SlotModel,
    depth: int,
    path: Seq<int>,
    key: HashOutput,
) -> bool {
    &&& slot_wf(new, path)
    &&& forall|k: HashOutput| #[trigger]
        slot_lookup(new, depth, k) == if k == key {
            None
        } else {
            slot_lookup(old, depth, k)
        }
    &&& slot_count(new) + 1 == slot_count(old)
}

/// The entry that a lookup found, if it found one.
pub open spec fn found_pair(key: HashOutput, found: Option<Cid>) -> Option<Pair> {
    match found {
        Some(value) => Some(Pair { key, value }),
        None => None,
    }
}

/// Of two keys with the same nibbles above a depth, the one with the
/// smaller nibble at the depth comes first.
pub proof fn lemma_nibble_order(a: HashOutput, b: HashOutput, depth: int)
    requires
        0 <= depth < 64,
        prefix(a, depth) == prefix(b, depth),
        nibble(a, depth) < nibble(b, depth),
    ensures
        lex_lt(a@, b@),
{
    let m = depth / 2;
    assert forall|t: int| 0 <= t < m implies a@[t] == b@[t] by {
        assert(prefix(a, depth)[2 * t] == nibble(a, 2 * t));
        assert(prefix(b, depth)[2 * t] == nibble(b, 2 * t));
        assert(prefix(a, depth)[2 * t + 1] == nibble(a, 2 * t + 1));
        assert(prefix(b, depth)[2 * t + 1] == nibble(b, 2 * t + 1));
        assert((2 * t) / 2 == t && (2 * t + 1) / 2 == t);
    }
    if depth % 2 == 1 {
        assert(prefix(a, depth)[2 * m] == nibble(a, 2 * m));
        assert(prefix(b, depth)[2 * m] == nibble(b, 2 * m));
        assert((2 * m) / 2 == m);
    }
    assert(a@[m] < b@[m]);
    lemma_lex_common_prefix(a@, b@, m);
    let ra = a@.subrange(m, 32);
    let rb = b@.subrange(m, 32);
    assert(ra[0] == a@[m] && rb[0] == b@[m]);
}

/// A key on a path with a nibble is on the path, and has the nibble.
pub proof fn lemma_on_path_pop(key: HashOutput, path: Seq<int>, i: int)
    requires
        on_path(key, path.push(i)),
    ensures
        on_path(key, path),
        nibble(key, path.len() as int) == i,
{
    let longer = path.push(i);
    assert(prefix(key, longer.len() as int)[path.len() as int] == i);
    assert(prefix(key, path.len() as int) =~= path) by {
        assert forall|j: int| 0 <= j < path.len() implies prefix(key, path.len() as int)[j]
            == path[j] by {
            assert(prefix(key, longer.len() as int)[j] == longer[j]);
        }
    }
}

/// The count of the first places is no more than the count of all.
pub proof fn lemma_slots_count_prefix(slots: Seq<SlotModel>, j: int)
    requires
        0 <= j <= slots.len(),
    ensures
        slots_count(slots.subrange(0, j)) <= slots_count(slots),
    decreases slots.len() - j,
{
    if j < slots.len() {
        lemma_slots_count_prefix(slots, j + 1);
        let next = slots.subrange(0, j + 1);
        assert(next.subrange(0, next.len() - 1) =~= slots.subrange(0, j));
    } else {
        assert(slots.subrange(0, j) =~= slots);
    }
}

/// What one bucket after another finds: what the first finds, or else what
/// the second finds.
pub proof fn lemma_bucket_find_concat(a: Seq<Pair>, b: Seq<Pair>, key: HashOutput)
    ensures
        bucket_find(a + b, key) == if bucket_find(a, key) is Some {
            bucket_find(a, key)
        } else {
            bucket_find(b, key)
        },
    decreases a.len(),
{
    if a.len() == 0 {
        assert(a + b =~= b);
    } else {
        assert((a + b).drop_first() =~= a.drop_first() + b);
        lemma_bucket_find_concat(a.drop_first(), b, key);
    }
}

impl Node {
    /// Collects the entries of a node that holds three at most, in the
    /// order of their keys; gives `None` for a node that holds more.
    pub fn gather(&self, key: &HashOutput, depth: usize) -> (r: Option<Vec<Pair>>)
        requires
            depth < 64,
            self.model().wf(prefix(*key, depth as int)),
        ensures
            match r {
                Some(pairs) => {
                    &&& pairs@.len() == self.model().count()
                    &&& pairs@.len() <= 3
                    &&& bucket_sorted(pairs@)
                    &&& forall|k: int|
                        0 <= k < pairs@.len() ==> on_path(
                            (#[trigger] pairs@[k]).key,
                            prefix(*key, depth as int),
                        )
                    &&& forall|k: HashOutput| #[trigger]
                        bucket_find(pairs@, k) == self.model().lookup(depth as int, k)
                },
                None => self.model().count() > 3,
            },
    {
        let ghost path = prefix(*key, depth as int);
        let ghost node = self.model();
        let mut out: Vec<Pair> = Vec::new();
        let mut j: usize = 0;
        proof {
            assert(node.slots.subrange(0, 0) =~= Seq::empty());
            assert forall|k: HashOutput| #[trigger] bucket_find(out@, k) is None by {}
        }
        while j < 16
            invariant
                j <= 16,
                depth < 64,
                node == self.model(),
                node.wf(path),
                path.len() == depth,
                out@.len() == slots_count(node.slots.subrange(0, j as int)),
                out@.len() <= 3,
                bucket_sorted(out@),
                forall|k: int|
                    0 <= k < out@.len() ==> on_path((#[trigger] out@[k]).key, path) && nibble(
                        out@[k].key,
                        depth as int,
                    ) < j,
                forall|k: HashOutput| #[trigger]
                    bucket_find(out@, k) == if nibble(k, depth as int) < j {
                        node.lookup(depth as int, k)
                    } else {
                        None
                    },
            decreases 16 - j,
        {
            let ghost before = out@;
            let ghost slot = node.slots[j as int];
            proof {
                let next = node.slots.subrange(0, j + 1);
                assert(next.subrange(0, next.len() - 1) =~= node.slots.subrange(0, j as int));
                assert(next[next.len() - 1] == slot);
                assert(slot == self.slots@[j as int].model());
                assert(slot_wf(slot, path.push(j as int)));
                lemma_slots_count_prefix(node.slots, j + 1);
                reveal_with_fuel(slot_count, 2);
                assert(slots_count(next) == slots_count(node.slots.subrange(0, j as int))
                    + slot_count(slot));
            }
            match &self.slots[j] {
                Slot::Empty => {
                    proof {
                        assert forall|k: HashOutput| #[trigger]
                            bucket_find(out@, k) == if nibble(k, depth as int) < j + 1 {
                                node.lookup(depth as int, k)
                            } else {
                                None
                            } by {
                            assert(bucket_find(before, k) == if nibble(k, depth as int) < j {
                                node.lookup(depth as int, k)
                            } else {
                                None
                            });
                        }
                    }
                },
                Slot::Link(_) => {
                    proof {
                        lemma_slots_count_at_least(node.slots, j as int);
                    }
                    return None;
                },
                Slot::Bucket(pairs) => {
                    if pairs.len() > 3 - out.len() {
                        return None;
                    }
                    let mut t: usize = 0;
                    while t < pairs.len()
                        invariant
                            t <= pairs.len(),
                            out@ == before + pairs@.subrange(0, t as int),
                        decreases pairs.len() - t,
                    {
                        out.push(pairs[t]);
                        proof {
                            assert(out@ =~= before + pairs@.subrange(0, t + 1));
                        }
                        t += 1;
                    }
                    proof {
                        assert(pairs@.subrange(0, pairs@.len() as int) =~= pairs@);
                        assert(out@ =~= before + pairs@);
                        assert forall|k: int| 0 <= k < pairs@.len() implies on_path(
                            (#[trigger] pairs@[k]).key,
                            path,
                        ) && nibble(pairs@[k].key, depth as int) == j by {
                            lemma_on_path_pop(pairs@[k].key, path, j as int);
                        }
                        assert forall|k: int| 0 <= k < out@.len() implies on_path(
                            (#[trigger] out@[k]).key,
                            path,
                        ) && nibble(out@[k].key, depth as int) < j + 1 by {
                            if k < before.len() {
                                assert(out@[k] == before[k]);
                            } else {
                                assert(out@[k] == pairs@[k - before.len()]);
                            }
                        }
                        assert forall|a: int, b: int| 0 <= a < b < out@.len() implies lex_lt(
                            (#[trigger] out@[a]).key@,
                            (#[trigger] out@[b]).key@,
                        ) by {
                            if b < before.len() {
                                assert(out@[a] == before[a] && out@[b] == before[b]);
                            } else if a >= before.len() {
                                assert(out@[a] == pairs@[a - before.len()]);
                                assert(out@[b] == pairs@[b - before.len()]);
                            } else {
                                assert(out@[a] == before[a]);
                                assert(out@[b] == pairs@[b - before.len()]);
                                lemma_nibble_order(out@[a].key, out@[b].key, depth as int);
                            }
                        }
                        assert forall|k: HashOutput| #[trigger]
                            bucket_find(out@, k) == if nibble(k, depth as int) < j + 1 {
                                node.lookup(depth as int, k)
                            } else {
                                None
                            } by {
                            lemma_bucket_find_concat(before, pairs@, k);
                            lemma_bucket_find_has(pairs@, k);
                            lemma_nibble_range(k, depth as int);
                            assert(bucket_find(before, k) == if nibble(k, depth as int) < j {
                                node.lookup(depth as int, k)
                            } else {
                                None
                            });
                            if bucket_has(pairs@, k) {
                                let x = choose|x: int|
                                    0 <= x < pairs@.len() && (#[trigger] pairs@[x]).key == k;
                                assert(nibble(pairs@[x].key, depth as int) == j);
                            }
                        }
                    }
                },
            }
            j += 1;
        }
        proof {
            assert(node.slots.subrange(0, 16) =~= node.slots);
            assert forall|k: HashOutput| #[trigger]
                bucket_find(out@, k) == node.lookup(depth as int, k) by {
                lemma_nibble_range(k, depth as int);
                assert(bucket_find(out@, k) == if nibble(k, depth as int) < 16 {
                    node.lookup(depth as int, k)
                } else {
                    None
                });
            }
        }
        Some(out)
    }

    /// Takes the entry of a key out of a node at a depth and gives the new
    /// node with the entry; the node itself stays as it is. A subtree that is
    /// left with three entries becomes a bucket.
    pub fn remove(&self, key: &HashOutput, depth: usize) -> (r: (Node, Option<Pair>))
        requires
            depth < 64,
            self.model().wf(prefix(*key, depth as int)),
        ensures
            r.0.model().wf(prefix(*key, depth as int)),
            r.1 == found_pair(*key, self.model().lookup(depth as int, *key)),
            forall|k: HashOutput|
                r.0.model().lookup(depth as int, k) == if k == *key {
                    None
                } else {
                    #[trigger] self.model().lookup(depth as int, k)
                },
            r.0.model().count() + (if r.1 is Some {
                1nat
            } else {
                0nat
            }) == self.model().count(),
            r.1 is None ==> r.0.model() == self.model(),
        decreases 64 - depth,
    {
        let ghost path = prefix(*key, depth as int);
        let ghost before = self.model();
        let i = nibble_at(key, depth);
        let ghost old_slot = before.slots[i as int];
        let ghost here = path.push(i as int);
        proof {
            lemma_prefix_push(*key, depth as int);
            assert(slot_wf(old_slot, here));
            assert(old_slot == self.slots@[i as int].model());
            assert(before.lookup(depth as int, *key) == slot_lookup(old_slot, depth as int, *key));
        }
        let (new_slot, removed): (Slot, Pair) = match &self.slots[i] {
            Slot::Empty => {
                return (self.copy(), None);
            },
            Slot::Bucket(pairs) => {
                let (pos, found) = bucket_position(pairs, key);
                proof {
                    lemma_bucket_find_has(pairs@, *key);
                    crate::private::hamt::lemma_bucket_put(pairs@, Pair { key: *key, value: Cid::zero() }, pos as int);
                }
                if !found {
                    return (self.copy(), None);
                }
                let mut next = copy_pairs(pairs);
                let removed = next.remove(pos);
                proof {
                    lemma_bucket_remove(pairs@, pos as int);
                    crate::private::hamt::lemma_bucket_find_at(pairs@, pos as int);
                    assert(next@ =~= pairs@.remove(pos as int));
                    assert forall|k: int| 0 <= k < next@.len() implies on_path(
                        (#[trigger] next@[k]).key,
                        here,
                    ) by {
                        if k < pos {
                            assert(next@[k] == pairs@[k]);
                        } else {
                            assert(next@[k] == pairs@[k + 1]);
                        }
                    }
                }
                if next.len() == 0 {
                    proof {
                        assert forall|k: HashOutput| #[trigger]
                            slot_lookup(SlotModel::Empty, depth as int, k) == if k == *key {
                                None
                            } else {
                                slot_lookup(old_slot, depth as int, k)
                            } by {
                            assert(bucket_find(next@, k) == if k == pairs@[pos as int].key {
                                None
                            } else {
                                bucket_find(pairs@, k)
                            });
                        }
                        assert(slot_remove_ok(SlotModel::Empty, old_slot, depth as int, here, *key));
                    }
                    (Slot::Empty, removed)
                } else {
                    proof {
                        assert forall|k: HashOutput| #[trigger]
                            slot_lookup(SlotModel::Bucket(next@), depth as int, k) == if k == *key {
                                None
                            } else {
                                slot_lookup(old_slot, depth as int, k)
                            } by {
                            assert(bucket_find(next@, k) == if k == pairs@[pos as int].key {
                                None
                            } else {
                                bucket_find(pairs@, k)
                            });
                        }
                        assert(slot_remove_ok(
                            SlotModel::Bucket(next@),
                            old_slot,
                            depth as int,
                            here,
                            *key,
                        ));
                    }
                    (Slot::Bucket(next), removed)
                }
            },
            Slot::Link(node) => {
                let (child, removed) = node.remove(key, depth + 1);
                let removed = match removed {
                    Some(removed) => removed,
                    None => {
                        return (self.copy(), None);
                    },
                };
                match child.gather(key, depth + 1) {
                    Some(pairs) => {
                        proof {
                            assert forall|k: HashOutput| #[trigger]
                                slot_lookup(SlotModel::Bucket(pairs@), depth as int, k) == if k
                                    == *key {
                                    None
                                } else {
                                    slot_lookup(old_slot, depth as int, k)
                                } by {
                                assert(bucket_find(pairs@, k) == child.model().lookup(depth + 1, k));
                                assert(child.model().lookup(depth + 1, k) == if k == *key {
                                    None
                                } else {
                                    node.model().lookup(depth + 1, k)
                                });
                            }
                            assert(slot_remove_ok(
                                SlotModel::Bucket(pairs@),
                                old_slot,
                                depth as int,
                                here,
                                *key,
                            ));
                        }
                        (Slot::Bucket(pairs), removed)
                    },
                    None => {
                        proof {
                            assert forall|k: HashOutput| #[trigger]
                                slot_lookup(SlotModel::Link(child.model()), depth as int, k) == if k
                                    == *key {
                                    None
                                } else {
                                    slot_lookup(old_slot, depth as int, k)
                                } by {
                                assert(child.model().lookup(depth + 1, k) == if k == *key {
                                    None
                                } else {
                                    node.model().lookup(depth + 1, k)
                                });
                            }
                            assert(slot_remove_ok(
                                SlotModel::Link(child.model()),
                                old_slot,
                                depth as int,
                                here,
                                *key,
                            ));
                        }
                        (Slot::Link(Rc::new(child)), removed)
                    },
                }
            },
        };
        proof {
            assert(slot_remove_ok(new_slot.model(), old_slot, depth as int, here, *key));
            lemma_with_slot(before, depth as int, path, i as int, new_slot.model());
        }
        let r = self.replace_slot(i, new_slot);
        proof {
            assert forall|k: HashOutput|
                r.model().lookup(depth as int, k) == if k == *key {
                    None
                } else {
                    #[trigger] before.lookup(depth as int, k)
                } by {
                assert(r.model().lookup(depth as int, k) == if nibble(k, depth as int) == i {
                    slot_lookup(new_slot.model(), depth as int, k)
                } else {
                    before.lookup(depth as int, k)
                });
                if nibble(k, depth as int) == i {
                    assert(before.lookup(depth as int, k) == slot_lookup(old_slot, depth as int, k));
                }
            }
        }
        (r, Some(removed))
    }
}

/// A persistent map from 32-byte keys to content addresses.
#[derive(Debug, PartialEq)]
pub struct Hamt {
    pub root: Rc<Node>,
}

impl Hamt {
    /// The trie is as it must be: every bucket and every subtree is where
    /// the keys it holds belong, and is of the size that its kind allows.
    pub open spec fn wf(&self) -> bool {
        self.root.model().wf(Seq::empty())
    }

    /// The value under a key.
    pub open spec fn lookup(&self, key: HashOutput) -> Option<Cid> {
        self.root.model().lookup(0, key)
    }

    /// How many entries the trie holds.
    pub open spec fn count(&self) -> nat {
        self.root.model().count()
    }

    /// Makes a trie without entries.
    pub fn new() -> (r: Hamt)
        ensures
            r.wf(),
            r.count() == 0,
            forall|key: HashOutput| #[trigger] r.lookup(key) is None,
            r.root.model() == empty_node(),
    {
        let r = Hamt { root: Rc::new(Node::new()) };
        proof {
            assert forall|key: HashOutput| #[trigger] r.lookup(key) is None by {
                lemma_empty_node(Seq::empty(), 0, key);
            }
            lemma_empty_node(Seq::empty(), 0, crate::cid::zero_digest());
        }
        r
    }

    /// Gets the value under a key.
    pub fn get_by_hash(&self, hash: &HashOutput) -> (r: Option<Cid>)
        ensures
            r == self.lookup(*hash),
    {
        self.root.get(hash, 0)
    }

    /// Binds a key to a value and gives the new trie; the trie itself stays
    /// as it is.
    pub fn set(&self, key: HashOutput, value: Cid) -> (r: Hamt)
        requires
            self.wf(),
        ensures
            r.wf(),
            forall|k: HashOutput|
                r.lookup(k) == if k == key {
                    Some(value)
                } else {
                    #[trigger] self.lookup(k)
                },
            r.count() == self.count() + if self.lookup(key) is None {
                1nat
            } else {
                0nat
            },
    {
        proof {
            assert(prefix(key, 0) =~= Seq::empty());
        }
        Hamt { root: Rc::new(self.root.set(key, value, 0)) }
    }

    /// Takes the entry of a key out and gives the new trie with the entry;
    /// the trie itself stays as it is.
    pub fn remove_by_hash(&self, hash: &HashOutput) -> (r: (Hamt, Option<Pair>))
        requires
            self.wf(),
        ensures
            r.0.wf(),
            r.1 == found_pair(*hash, self.lookup(*hash)),
            forall|k: HashOutput|
                r.0.lookup(k) == if k == *hash {
                    None
                } else {
                    #[trigger] self.lookup(k)
                },
            r.0.count() + (if r.1 is Some {
                1nat
            } else {
                0nat
            }) == self.count(),
            r.1 is None ==> r.0.root.model() == self.root.model(),
    {
        proof {
            assert(prefix(*hash, 0) =~= Seq::empty());
        }
        let (root, removed) = self.root.remove(hash, 0);
        (Hamt { root: Rc::new(root) }, removed)
    }
}

impl Clone for Hamt {
    fn clone(&self) -> (r: Self)
        ensures
            r.root.model() == self.root.model(),
    {
        Hamt { root: Rc::clone(&self.root) }
    }
}

} // verus!
