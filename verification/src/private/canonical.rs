//! The shape of a trie is fixed by what it holds: two well-formed tries
//! that find the same value under every key are the same trie, however
//! each was built.

use vstd::prelude::*;
use crate::cid::HashOutput;
use crate::order::{lemma_lex_irreflexive, lemma_lex_transitive, lex_lt};
use crate::private::hamt::{
    bucket_find, bucket_has, bucket_sorted, lemma_bucket_find_at, lemma_bucket_find_has,
    lemma_nibble_range, nibble, on_path, slot_count, slot_wf, slots_count, NodeModel, Pair,
    SlotModel,
};
use crate::private::hamt_remove::{
    lemma_bucket_find_concat, lemma_nibble_order, lemma_on_path_pop, Hamt,
};
use crate::private::hamt_set::slot_lookup;

verus! {

/// The entries of a place, in the order of their keys.
pub open spec fn slot_pairs(slot: SlotModel) -> Seq<Pair>
    decreases slot,
{
    match slot {
        SlotModel::Empty => Seq::empty(),
        SlotModel::Bucket(pairs) => pairs,
        SlotModel::Link(node) => slots_pairs(node.slots),
    }
}

/// The entries of places, one place after the other.
pub open spec fn slots_pairs(slots: Seq<SlotModel>) -> Seq<Pair>
    decreases slots,
{
    if slots.len() == 0 {
        Seq::empty()
    } else {
        slots_pairs(slots.subrange(0, slots.len() - 1)) + slot_pairs(slots[slots.len() - 1])
    }
}

/// Whether `pairs` are the entries that a node on `path` holds under the
/// nibbles below `j`: sorted, on the path, and finding what the node finds.
pub open spec fn holds_below(pairs: Seq<Pair>, node: NodeModel, path: Seq<int>, j: int) -> bool {
    let depth = path.len() as int;
    &&& bucket_sorted(pairs)
    &&& forall|x: int|
        0 <= x < pairs.len() ==> on_path((#[trigger] pairs[x]).key, path) && nibble(
            pairs[x].key,
            depth,
        ) < j
    &&& forall|k: HashOutput| #[trigger]
        bucket_find(pairs, k) == if nibble(k, depth) < j {
            node.lookup(depth, k)
        } else {
            None
        }
}

/// The entries of the first `j` places of a well-formed node are as many
/// as the places count, sorted, on the node's path, and find what the node
/// finds under the nibbles below `j`.
pub proof fn lemma_pairs(node: NodeModel, path: Seq<int>, j: int)
    requires
        node.wf(path),
        0 <= j <= 16,
    ensures
        slots_pairs(node.slots.subrange(0, j)).len() == slots_count(node.slots.subrange(0, j)),
        holds_below(slots_pairs(node.slots.subrange(0, j)), node, path, j),
    decreases node, j,
{
    let depth = path.len() as int;
    let first = node.slots.subrange(0, j);
    let all = slots_pairs(first);
    if j == 0 {
        assert(first =~= Seq::empty());
        assert forall|k: HashOutput| #[trigger] bucket_find(all, k) is None by {}
        assert forall|k: HashOutput| nibble(k, depth) >= 0 by {
            lemma_nibble_range(k, depth);
        }
    } else {
        lemma_pairs(node, path, j - 1);
        let slot = node.slots[j - 1];
        let before = slots_pairs(node.slots.subrange(0, j - 1));
        let here = slot_pairs(slot);
        assert(first.subrange(0, first.len() - 1) =~= node.slots.subrange(0, j - 1));
        assert(first[first.len() - 1] == slot);
        assert(all == before + here);
        assert(slot_wf(slot, path.push(j - 1)));
        reveal_with_fuel(slot_count, 2);
        assert(slots_count(first) == slots_count(node.slots.subrange(0, j - 1)) + slot_count(slot));
        // what the place holds
        match slot {
            SlotModel::Empty => {},
            SlotModel::Bucket(pairs) => {},
            SlotModel::Link(child) => {
                lemma_pairs(child, path.push(j - 1), 16);
                assert(child.slots.subrange(0, 16) =~= child.slots);
                assert forall|k: HashOutput| #[trigger]
                    bucket_find(here, k) == child.lookup(depth + 1, k) by {
                    lemma_nibble_range(k, depth + 1);
                }
            },
        }
        assert(here.len() == slot_count(slot));
        assert(bucket_sorted(here));
        assert forall|x: int| 0 <= x < here.len() implies on_path((#[trigger] here[x]).key, path)
            && nibble(here[x].key, depth) == j - 1 by {
            assert(on_path(here[x].key, path.push(j - 1)));
            lemma_on_path_pop(here[x].key, path, j - 1);
        }
        assert forall|k: HashOutput| #[trigger]
            bucket_find(here, k) == if nibble(k, depth) == j - 1 {
                node.lookup(depth, k)
            } else {
                None
            } by {
            lemma_bucket_find_has(here, k);
            if bucket_has(here, k) {
                let x = choose|x: int| 0 <= x < here.len() && (#[trigger] here[x]).key == k;
                assert(nibble(here[x].key, depth) == j - 1);
            }
        }
        // the entries before and the entries of the place together
        assert forall|x: int| 0 <= x < all.len() implies on_path((#[trigger] all[x]).key, path)
            && nibble(all[x].key, depth) < j by {
            if x < before.len() {
                assert(all[x] == before[x]);
            } else {
                assert(all[x] == here[x - before.len()]);
            }
        }
        assert forall|a: int, b: int| 0 <= a < b < all.len() implies lex_lt(
            (#[trigger] all[a]).key@,
            (#[trigger] all[b]).key@,
        ) by {
            if b < before.len() {
                assert(all[a] == before[a] && all[b] == before[b]);
            } else if a >= before.len() {
                assert(all[a] == here[a - before.len()]);
                assert(all[b] == here[b - before.len()]);
            } else {
                assert(all[a] == before[a]);
                assert(all[b] == here[b - before.len()]);
                lemma_nibble_order(all[a].key, all[b].key, depth);
            }
        }
        assert forall|k: HashOutput| #[trigger]
            bucket_find(all, k) == if nibble(k, depth) < j {
                node.lookup(depth, k)
            } else {
                None
            } by {
            lemma_bucket_find_concat(before, here, k);
            assert(bucket_find(before, k) == if nibble(k, depth) < j - 1 {
                node.lookup(depth, k)
            } else {
                None
            });
            assert(bucket_find(here, k) == if nibble(k, depth) == j - 1 {
                node.lookup(depth, k)
            } else {
                None
            });
        }
    }
}

/// The entries of a well-formed node: as many as the node counts, sorted,
/// on the node's path, and finding what the node finds.
pub proof fn lemma_node_pairs(node: NodeModel, path: Seq<int>)
    requires
        node.wf(path),
    ensures
        slots_pairs(node.slots).len() == node.count(),
        bucket_sorted(slots_pairs(node.slots)),
        forall|x: int|
            0 <= x < slots_pairs(node.slots).len() ==> on_path(
                (#[trigger] slots_pairs(node.slots)[x]).key,
                path,
            ),
        forall|k: HashOutput| #[trigger]
            bucket_find(slots_pairs(node.slots), k) == node.lookup(path.len() as int, k),
{
    lemma_pairs(node, path, 16);
    assert(node.slots.subrange(0, 16) =~= node.slots);
    assert forall|k: HashOutput| #[trigger]
        bucket_find(slots_pairs(node.slots), k) == node.lookup(path.len() as int, k) by {
        lemma_nibble_range(k, path.len() as int);
    }
}

/// Two sorted buckets that find the same value under every key are the
/// same bucket.
pub proof fn lemma_bucket_extensional(p: Seq<Pair>, q: Seq<Pair>)
    requires
        bucket_sorted(p),
        bucket_sorted(q),
        forall|k: HashOutput| bucket_find(p, k) == bucket_find(q, k),
    ensures
        p == q,
    decreases p.len(),
{
    if p.len() == 0 {
        if q.len() > 0 {
            lemma_bucket_find_at(q, 0);
            assert(bucket_find(p, q[0].key) is None);
        }
        assert(p =~= q);
    } else {
        lemma_bucket_find_at(p, 0);
        assert(bucket_find(q, p[0].key) == Some(p[0].value));
        lemma_bucket_find_has(q, p[0].key);
        let x = choose|x: int| 0 <= x < q.len() && (#[trigger] q[x]).key == p[0].key;
        lemma_bucket_find_at(q, 0);
        assert(bucket_find(p, q[0].key) == Some(q[0].value));
        lemma_bucket_find_has(p, q[0].key);
        let y = choose|y: int| 0 <= y < p.len() && (#[trigger] p[y]).key == q[0].key;
        // the first key of each is the least key of both
        lemma_lex_irreflexive(p[0].key@);
        if x > 0 && y > 0 {
            assert(lex_lt(q[0].key@, q[x].key@));
            assert(lex_lt(p[0].key@, p[y].key@));
            lemma_lex_transitive(p[0].key@, q[0].key@, p[0].key@);
        }
        if x > 0 && y == 0 {
            assert(lex_lt(q[0].key@, q[x].key@));
        }
        assert(p[0].key == q[0].key);
        assert(p[0] == q[0]);
        let rest_p = p.drop_first();
        let rest_q = q.drop_first();
        assert forall|a: int, b: int| 0 <= a < b < rest_p.len() implies lex_lt(
            (#[trigger] rest_p[a]).key@,
            (#[trigger] rest_p[b]).key@,
        ) by {
            assert(rest_p[a] == p[a + 1] && rest_p[b] == p[b + 1]);
        }
        assert forall|a: int, b: int| 0 <= a < b < rest_q.len() implies lex_lt(
            (#[trigger] rest_q[a]).key@,
            (#[trigger] rest_q[b]).key@,
        ) by {
            assert(rest_q[a] == q[a + 1] && rest_q[b] == q[b + 1]);
        }
        assert forall|k: HashOutput| bucket_find(rest_p, k) == bucket_find(rest_q, k) by {
            if k == p[0].key {
                lemma_bucket_find_has(rest_p, k);
                lemma_bucket_find_has(rest_q, k);
                if bucket_has(rest_p, k) {
                    let i = choose|i: int| 0 <= i < rest_p.len() && (#[trigger] rest_p[i]).key == k;
                    assert(rest_p[i] == p[i + 1]);
                    assert(lex_lt(p[0].key@, p[i + 1].key@));
                }
                if bucket_has(rest_q, k) {
                    let i = choose|i: int| 0 <= i < rest_q.len() && (#[trigger] rest_q[i]).key == k;
                    assert(rest_q[i] == q[i + 1]);
                    assert(lex_lt(q[0].key@, q[i + 1].key@));
                }
            } else {
                assert(bucket_find(p, k) == bucket_find(rest_p, k));
                assert(bucket_find(q, k) == bucket_find(rest_q, k));
            }
        }
        lemma_bucket_extensional(rest_p, rest_q);
        assert(p =~= seq![p[0]] + rest_p);
        assert(q =~= seq![q[0]] + rest_q);
    }
}

/// Two well-formed places on one path that find the same value under
/// every key are the same place.
pub proof fn lemma_same_slot(a: SlotModel, b: SlotModel, path: Seq<int>, depth: int)
    requires
        0 < path.len() <= 64,
        depth == path.len() - 1,
        slot_wf(a, path),
        slot_wf(b, path),
        forall|k: HashOutput| #[trigger] slot_lookup(a, depth, k) == slot_lookup(b, depth, k),
    ensures
        a == b,
    decreases a, 0nat,
{
    let pa = slot_pairs(a);
    let pb = slot_pairs(b);
    // the entries of each place find what the place finds
    assert(bucket_sorted(pa) && pa.len() == slot_count(a) && (forall|k: HashOutput| #[trigger]
        bucket_find(pa, k) == slot_lookup(a, depth, k))) by {
        reveal_with_fuel(slot_count, 2);
        match a {
            SlotModel::Link(node) => {
                lemma_node_pairs(node, path);
            },
            _ => {},
        }
    }
    assert(bucket_sorted(pb) && pb.len() == slot_count(b) && (forall|k: HashOutput| #[trigger]
        bucket_find(pb, k) == slot_lookup(b, depth, k))) by {
        reveal_with_fuel(slot_count, 2);
        match b {
            SlotModel::Link(node) => {
                lemma_node_pairs(node, path);
            },
            _ => {},
        }
    }
    assert forall|k: HashOutput| bucket_find(pa, k) == bucket_find(pb, k) by {
        assert(bucket_find(pa, k) == slot_lookup(a, depth, k));
        assert(bucket_find(pb, k) == slot_lookup(b, depth, k));
    }
    lemma_bucket_extensional(pa, pb);
    reveal_with_fuel(slot_count, 2);
    // places with the same entries are of the same kind
    match (a, b) {
        (SlotModel::Link(n), SlotModel::Link(m)) => {
            assert forall|k: HashOutput| #[trigger]
                n.lookup(depth + 1, k) == m.lookup(depth + 1, k) by {
                assert(slot_lookup(a, depth, k) == slot_lookup(b, depth, k));
            }
            lemma_canonical(n, m, path, depth + 1);
        },
        (SlotModel::Link(n), _) => {
            assert(pb.len() > 3 && path.len() < 64);
        },
        (_, SlotModel::Link(m)) => {
            assert(pa.len() > 3 && path.len() < 64);
        },
        _ => {},
    }
}

/// Two well-formed nodes on one path that find the same value under every
/// key are the same node.
pub proof fn lemma_canonical(a: NodeModel, b: NodeModel, path: Seq<int>, depth: int)
    requires
        a.wf(path),
        b.wf(path),
        depth == path.len(),
        forall|k: HashOutput| #[trigger] a.lookup(depth, k) == b.lookup(depth, k),
    ensures
        a == b,
    decreases a, 1nat,
{
    assert forall|i: int| 0 <= i < 16 implies a.slots[i] == b.slots[i] by {
        let sa = a.slots[i];
        let sb = b.slots[i];
        let longer = path.push(i);
        assert(slot_wf(sa, longer) && slot_wf(sb, longer));
        assert forall|k: HashOutput| #[trigger]
            slot_lookup(sa, depth, k) == slot_lookup(sb, depth, k) by {
            lemma_slot_lookup_on_path(sa, longer, k);
            lemma_slot_lookup_on_path(sb, longer, k);
            if nibble(k, depth) == i {
                assert(a.lookup(depth, k) == slot_lookup(sa, depth, k));
                assert(b.lookup(depth, k) == slot_lookup(sb, depth, k));
            } else if on_path(k, longer) {
                lemma_on_path_pop(k, path, i);
            }
        }
        lemma_same_slot(sa, sb, longer, depth);
    }
    assert(a.slots =~= b.slots);
}

/// A well-formed place finds values under keys on its path only.
pub proof fn lemma_slot_lookup_on_path(slot: SlotModel, path: Seq<int>, key: HashOutput)
    requires
        0 < path.len() <= 64,
        slot_wf(slot, path),
    ensures
        slot_lookup(slot, path.len() - 1, key) is Some ==> on_path(key, path),
{
    match slot {
        SlotModel::Empty => {},
        SlotModel::Bucket(pairs) => {
            lemma_bucket_find_has(pairs, key);
        },
        SlotModel::Link(node) => {
            lemma_node_pairs(node, path);
            let pairs = slots_pairs(node.slots);
            lemma_bucket_find_has(pairs, key);
            assert(bucket_find(pairs, key) == node.lookup(path.len() as int, key));
        },
    }
}

/// Two well-formed tries that find the same value under every key are the
/// same trie, whatever the order in which entries were put in and taken
/// out of each.
pub proof fn lemma_hamt_canonical(a: Hamt, b: Hamt)
    requires
        a.wf(),
        b.wf(),
        forall|k: HashOutput| #[trigger] a.lookup(k) == b.lookup(k),
    ensures
        a.root.model() == b.root.model(),
{
    assert forall|k: HashOutput| #[trigger]
        a.root.model().lookup(0, k) == b.root.model().lookup(0, k) by {
        assert(a.lookup(k) == b.lookup(k));
    }
    lemma_canonical(a.root.model(), b.root.model(), Seq::empty(), 0);
}

/// Taking a key out of a trie and putting it back with the value it had
/// gives the trie as it was.
pub proof fn lemma_remove_then_set(
    whole: Hamt,
    without: Hamt,
    restored: Hamt,
    key: HashOutput,
)
    requires
        whole.wf(),
        without.wf(),
        restored.wf(),
        whole.lookup(key) is Some,
        forall|k: HashOutput|
            without.lookup(k) == if k == key {
                None
            } else {
                #[trigger] whole.lookup(k)
            },
        forall|k: HashOutput|
            restored.lookup(k) == if k == key {
                whole.lookup(key)
            } else {
                #[trigger] without.lookup(k)
            },
    ensures
        restored.root.model() == whole.root.model(),
{
    assert forall|k: HashOutput| #[trigger] restored.lookup(k) == whole.lookup(k) by {
        if k != key {
            assert(restored.lookup(k) == without.lookup(k));
            assert(without.lookup(k) == whole.lookup(k));
        }
    }
    lemma_hamt_canonical(restored, whole);
}

} // verus!
