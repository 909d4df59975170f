//! Lists of named entries kept in the order of their names: the model of a
//! directory's entry map, and the laws that make it behave as a map.

use vstd::prelude::*;
use crate::order::{lemma_name_order, name_lt};

verus! {

/// A name as contracts see it.
pub type Name = Seq<char>;

/// The names grow strictly from each entry to the next, so none occurs twice.
pub open spec fn sorted<M>(s: Seq<(Name, M)>) -> bool {
    forall|i: int, j: int| 0 <= i < j < s.len() ==> name_lt(#[trigger] s[i].0, #[trigger] s[j].0)
}

/// The value of the first entry called `name`.
pub open spec fn find<M>(s: Seq<(Name, M)>, name: Name) -> Option<M>
    decreases s.len(),
{
    if s.len() == 0 {
        None
    } else if s[0].0 == name {
        Some(s[0].1)
    } else {
        find(s.drop_first(), name)
    }
}

/// `s` with `name` bound to `value`: in place of the entry of that name, or
/// else before the first entry whose name comes later.
pub open spec fn put<M>(s: Seq<(Name, M)>, name: Name, value: M) -> Seq<(Name, M)>
    decreases s.len(),
{
    if s.len() == 0 {
        seq![(name, value)]
    } else if s[0].0 == name {
        seq![(name, value)] + s.drop_first()
    } else if name_lt(name, s[0].0) {
        seq![(name, value)] + s
    } else {
        seq![s[0]] + put(s.drop_first(), name, value)
    }
}

/// `s` without its first entry called `name`.
pub open spec fn delete<M>(s: Seq<(Name, M)>, name: Name) -> Seq<(Name, M)>
    decreases s.len(),
{
    if s.len() == 0 {
        s
    } else if s[0].0 == name {
        s.drop_first()
    } else {
        seq![s[0]] + delete(s.drop_first(), name)
    }
}

/// Whether some entry is called `name`.
pub open spec fn has_name<M>(s: Seq<(Name, M)>, name: Name) -> bool {
    exists|i: int| 0 <= i < s.len() && #[trigger] s[i].0 == name
}

/// The names of entries, in their order.
pub open spec fn names<M>(entries: Seq<(Name, M)>) -> Seq<Name> {
    Seq::new(entries.len(), |i: int| entries[i].0)
}

/// Whether entries are sorted is a matter of their names alone.
pub proof fn lemma_sorted_by_names<A, B>(a: Seq<(Name, A)>, b: Seq<(Name, B)>)
    requires
        names(a) == names(b),
    ensures
        sorted(a) == sorted(b),
{
    assert(a.len() == names(a).len() && b.len() == names(b).len());
    assert forall|i: int| 0 <= i < a.len() implies (#[trigger] a[i]).0 == b[i].0 by {
        assert(names(a)[i] == names(b)[i]);
    }
    if sorted(a) {
        assert forall|i: int, j: int| 0 <= i < j < b.len() implies name_lt(
            #[trigger] b[i].0,
            #[trigger] b[j].0,
        ) by {
            assert(name_lt(a[i].0, a[j].0));
        }
    }
    if sorted(b) {
        assert forall|i: int, j: int| 0 <= i < j < a.len() implies name_lt(
            #[trigger] a[i].0,
            #[trigger] a[j].0,
        ) by {
            assert(name_lt(b[i].0, b[j].0));
        }
    }
}

/// `find` gives a value exactly for the names that occur.
pub proof fn lemma_find_has_name<M>(s: Seq<(Name, M)>, name: Name)
    ensures
        find(s, name) is Some <==> has_name(s, name),
    decreases s.len(),
{
    if s.len() > 0 {
        if s[0].0 == name {
            assert(has_name(s, name));
        } else {
            let t = s.drop_first();
            lemma_find_has_name(t, name);
            if has_name(t, name) {
                let i = choose|i: int| 0 <= i < t.len() && #[trigger] t[i].0 == name;
                assert(s[i + 1].0 == name);
            }
            if has_name(s, name) {
                let i = choose|i: int| 0 <= i < s.len() && #[trigger] s[i].0 == name;
                assert(t[i - 1].0 == name);
            }
        }
    }
}

/// Where the first entry called `name` stands, `find` gives its value.
pub proof fn lemma_find_at<M>(s: Seq<(Name, M)>, name: Name, i: int)
    requires
        0 <= i < s.len(),
        s[i].0 == name,
        forall|j: int| 0 <= j < i ==> (#[trigger] s[j]).0 != name,
    ensures
        find(s, name) == Some(s[i].1),
    decreases i,
{
    if i > 0 {
        let t = s.drop_first();
        assert forall|j: int| 0 <= j < i - 1 implies (#[trigger] t[j]).0 != name by {
            assert(s[j + 1].0 != name);
        }
        assert(s[0].0 != name);
        lemma_find_at(t, name, i - 1);
    }
}

/// In a sorted list an entry is found under its own name.
pub proof fn lemma_find_sorted_at<M>(s: Seq<(Name, M)>, i: int)
    requires
        sorted(s),
        0 <= i < s.len(),
    ensures
        find(s, s[i].0) == Some(s[i].1),
{
    assert forall|j: int| 0 <= j < i implies (#[trigger] s[j]).0 != s[i].0 by {
        lemma_name_order(s[j].0, s[i].0, s[i].0);
    }
    lemma_find_at(s, s[i].0, i);
}

/// Where `name` belongs: all entries before `i` have smaller names.
pub open spec fn is_slot<M>(s: Seq<(Name, M)>, name: Name, i: int) -> bool {
    &&& 0 <= i <= s.len()
    &&& forall|j: int| 0 <= j < i ==> name_lt((#[trigger] s[j]).0, name)
    &&& i < s.len() ==> s[i].0 == name || name_lt(name, s[i].0)
}

/// What `put` does, said by position.
pub proof fn lemma_put_at<M>(s: Seq<(Name, M)>, name: Name, value: M, i: int)
    requires
        is_slot(s, name, i),
    ensures
        put(s, name, value) == if i < s.len() && s[i].0 == name {
            s.update(i, (name, value))
        } else {
            s.insert(i, (name, value))
        },
    decreases i,
{
    if i == 0 {
        if s.len() == 0 {
            assert(seq![(name, value)] =~= s.insert(0, (name, value)));
        } else if s[0].0 == name {
            assert(seq![(name, value)] + s.drop_first() =~= s.update(0, (name, value)));
        } else {
            assert(seq![(name, value)] + s =~= s.insert(0, (name, value)));
        }
    } else {
        let t = s.drop_first();
        assert(name_lt(s[0].0, name));
        lemma_name_order(s[0].0, name, name);
        assert forall|j: int| 0 <= j < i - 1 implies name_lt((#[trigger] t[j]).0, name) by {
            assert(name_lt(s[j + 1].0, name));
        }
        lemma_put_at(t, name, value, i - 1);
        if i < s.len() && s[i].0 == name {
            assert(seq![s[0]] + t.update(i - 1, (name, value)) =~= s.update(i, (name, value)));
        } else {
            assert(seq![s[0]] + t.insert(i - 1, (name, value)) =~= s.insert(i, (name, value)));
        }
    }
}

/// What `delete` does, said by position.
pub proof fn lemma_delete_at<M>(s: Seq<(Name, M)>, name: Name, i: int)
    requires
        0 <= i <= s.len(),
        forall|j: int| 0 <= j < i ==> (#[trigger] s[j]).0 != name,
        i < s.len() ==> s[i].0 == name,
    ensures
        delete(s, name) == if i < s.len() {
            s.remove(i)
        } else {
            s
        },
    decreases i,
{
    if i == 0 {
        if s.len() > 0 {
            assert(s.drop_first() =~= s.remove(0));
        }
    } else {
        let t = s.drop_first();
        assert(s[0].0 != name);
        assert forall|j: int| 0 <= j < i - 1 implies (#[trigger] t[j]).0 != name by {
            assert(s[j + 1].0 != name);
        }
        lemma_delete_at(t, name, i - 1);
        if i < s.len() {
            assert(seq![s[0]] + t.remove(i - 1) =~= s.remove(i));
        } else {
            assert(seq![s[0]] + t =~= s);
        }
    }
}

/// In a sorted list the slot of a name is found by counting the smaller names.
pub proof fn lemma_slot_exists<M>(s: Seq<(Name, M)>, name: Name) -> (i: int)
    ensures
        is_slot(s, name, i),
    decreases s.len(),
{
    if s.len() == 0 {
        0
    } else if s[0].0 == name || name_lt(name, s[0].0) {
        0
    } else {
        lemma_name_order(s[0].0, name, name);
        let t = s.drop_first();
        let k = lemma_slot_exists(t, name);
        assert forall|j: int| 0 <= j < k + 1 implies name_lt((#[trigger] s[j]).0, name) by {
            if j > 0 {
                assert(name_lt(t[j - 1].0, name));
            }
        }
        if k + 1 < s.len() {
            assert(t[k].0 == s[k + 1].0);
        }
        k + 1
    }
}

/// `put` keeps a sorted list sorted.
pub proof fn lemma_put_sorted<M>(s: Seq<(Name, M)>, name: Name, value: M)
    requires
        sorted(s),
    ensures
        sorted(put(s, name, value)),
{
    let i = lemma_slot_exists(s, name);
    lemma_put_at(s, name, value, i);
    let r = put(s, name, value);
    assert forall|a: int, b: int| 0 <= a < b < r.len() implies name_lt(
        #[trigger] r[a].0,
        #[trigger] r[b].0,
    ) by {
        if i < s.len() && s[i].0 == name {
            assert(r[a].0 == s[a].0 && r[b].0 == s[b].0);
        } else {
            let sa = if a < i { a } else { a - 1 };
            let sb = if b < i { b } else { b - 1 };
            if a == i {
                assert(r[b].0 == s[sb].0);
                if sb > i {
                    lemma_name_order(name, s[i].0, s[sb].0);
                }
            } else if b == i {
                assert(r[a].0 == s[sa].0);
            } else {
                assert(r[a].0 == s[sa].0 && r[b].0 == s[sb].0);
            }
        }
    }
}

/// `delete` keeps a sorted list sorted.
pub proof fn lemma_delete_sorted<M>(s: Seq<(Name, M)>, name: Name)
    requires
        sorted(s),
    ensures
        sorted(delete(s, name)),
    decreases s.len(),
{
    if s.len() > 0 && s[0].0 != name {
        let t = s.drop_first();
        assert forall|a: int, b: int| 0 <= a < b < t.len() implies name_lt(
            #[trigger] t[a].0,
            #[trigger] t[b].0,
        ) by {
            assert(name_lt(s[a + 1].0, s[b + 1].0));
        }
        lemma_delete_sorted(t, name);
        let d = delete(t, name);
        let r = delete(s, name);
        assert forall|a: int, b: int| 0 <= a < b < r.len() implies name_lt(
            #[trigger] r[a].0,
            #[trigger] r[b].0,
        ) by {
            if a == 0 {
                lemma_delete_subset(t, name, b - 1);
                let k = choose|k: int| 0 <= k < t.len() && t[k] == d[b - 1];
                assert(name_lt(s[0].0, s[k + 1].0));
            } else {
                assert(name_lt(d[a - 1].0, d[b - 1].0));
            }
        }
    } else if s.len() > 0 {
        let t = s.drop_first();
        assert forall|a: int, b: int| 0 <= a < b < t.len() implies name_lt(
            #[trigger] t[a].0,
            #[trigger] t[b].0,
        ) by {
            assert(name_lt(s[a + 1].0, s[b + 1].0));
        }
    }
}

/// Every entry that `delete` leaves was there before.
pub proof fn lemma_delete_subset<M>(s: Seq<(Name, M)>, name: Name, i: int)
    requires
        0 <= i < delete(s, name).len(),
    ensures
        exists|k: int| 0 <= k < s.len() && s[k] == delete(s, name)[i],
    decreases s.len(),
{
    if s.len() > 0 {
        let t = s.drop_first();
        if s[0].0 == name {
            assert(s[i + 1] == t[i]);
        } else if i == 0 {
            assert(s[0] == delete(s, name)[0]);
        } else {
            lemma_delete_subset(t, name, i - 1);
            let k = choose|k: int| 0 <= k < t.len() && t[k] == delete(t, name)[i - 1];
            assert(s[k + 1] == delete(s, name)[i]);
        }
    }
}

/// After `put`, `name` is bound to `value` and every other name is as before.
pub proof fn lemma_find_put<M>(s: Seq<(Name, M)>, name: Name, value: M, other: Name)
    ensures
        find(put(s, name, value), other) == if other == name {
            Some(value)
        } else {
            find(s, other)
        },
    decreases s.len(),
{
    let r = put(s, name, value);
    if s.len() == 0 {
        assert(r.drop_first() =~= s);
    } else if s[0].0 == name {
        assert(r.drop_first() =~= s.drop_first());
    } else if name_lt(name, s[0].0) {
        assert(r.drop_first() =~= s);
    } else {
        lemma_find_put(s.drop_first(), name, value, other);
        assert(r.drop_first() =~= put(s.drop_first(), name, value));
    }
}

/// After `delete` from a sorted list, `name` is unbound and every other name
/// is as before.
pub proof fn lemma_find_delete<M>(s: Seq<(Name, M)>, name: Name, other: Name)
    requires
        sorted(s),
    ensures
        find(delete(s, name), other) == if other == name {
            None
        } else {
            find(s, other)
        },
    decreases s.len(),
{
    if s.len() > 0 {
        let t = s.drop_first();
        assert forall|a: int, b: int| 0 <= a < b < t.len() implies name_lt(
            #[trigger] t[a].0,
            #[trigger] t[b].0,
        ) by {
            assert(name_lt(s[a + 1].0, s[b + 1].0));
        }
        if s[0].0 == name {
            if other == name {
                lemma_find_has_name(t, name);
                if has_name(t, name) {
                    let i = choose|i: int| 0 <= i < t.len() && #[trigger] t[i].0 == name;
                    assert(name_lt(s[0].0, s[i + 1].0));
                    lemma_name_order(name, name, name);
                }
            }
        } else {
            lemma_find_delete(t, name, other);
            assert(delete(s, name).drop_first() =~= delete(t, name));
        }
    }
}

/// Two sorted lists that bind the same names to the same values are equal.
pub proof fn lemma_sorted_extensional<M>(a: Seq<(Name, M)>, b: Seq<(Name, M)>)
    requires
        sorted(a),
        sorted(b),
        forall|name: Name| find(a, name) == find(b, name),
    ensures
        a == b,
    decreases a.len(),
{
    if a.len() == 0 {
        if b.len() > 0 {
            assert(find(b, b[0].0) is Some);
            assert(find(a, b[0].0) is None);
        }
        assert(a =~= b);
    } else if b.len() == 0 {
        assert(find(a, a[0].0) is Some);
        assert(find(b, a[0].0) is None);
    } else {
        let ta = a.drop_first();
        let tb = b.drop_first();
        assert(sorted(ta)) by {
            assert forall|i: int, j: int| 0 <= i < j < ta.len() implies name_lt(
                #[trigger] ta[i].0,
                #[trigger] ta[j].0,
            ) by {
                assert(name_lt(a[i + 1].0, a[j + 1].0));
            }
        }
        assert(sorted(tb)) by {
            assert forall|i: int, j: int| 0 <= i < j < tb.len() implies name_lt(
                #[trigger] tb[i].0,
                #[trigger] tb[j].0,
            ) by {
                assert(name_lt(b[i + 1].0, b[j + 1].0));
            }
        }
        lemma_first_is_least(a, b);
        lemma_first_is_least(b, a);
        lemma_name_order(a[0].0, b[0].0, a[0].0);
        assert(a[0].0 == b[0].0);
        assert(find(a, a[0].0) == Some(a[0].1));
        assert(find(b, a[0].0) == Some(b[0].1));
        assert(a[0] == b[0]);
        assert forall|name: Name| find(ta, name) == find(tb, name) by {
            if name == a[0].0 {
                lemma_find_has_name(ta, name);
                lemma_find_has_name(tb, name);
                if has_name(ta, name) {
                    let i = choose|i: int| 0 <= i < ta.len() && #[trigger] ta[i].0 == name;
                    assert(name_lt(a[0].0, a[i + 1].0));
                    lemma_name_order(name, name, name);
                }
                if has_name(tb, name) {
                    let i = choose|i: int| 0 <= i < tb.len() && #[trigger] tb[i].0 == name;
                    assert(name_lt(b[0].0, b[i + 1].0));
                    lemma_name_order(name, name, name);
                }
            } else {
                assert(find(a, name) == find(b, name));
            }
        }
        lemma_sorted_extensional(ta, tb);
        assert(a =~= seq![a[0]] + ta);
        assert(b =~= seq![b[0]] + tb);
    }
}

/// The first name of a sorted list does not come after the first name of
/// another sorted list that binds it.
proof fn lemma_first_is_least<M>(a: Seq<(Name, M)>, b: Seq<(Name, M)>)
    requires
        sorted(b),
        a.len() > 0,
        b.len() > 0,
        find(b, a[0].0) is Some,
    ensures
        a[0].0 == b[0].0 || name_lt(b[0].0, a[0].0),
{
    lemma_find_has_name(b, a[0].0);
    let i = choose|i: int| 0 <= i < b.len() && #[trigger] b[i].0 == a[0].0;
    if i > 0 {
        assert(name_lt(b[0].0, b[i].0));
    }
}

} // verus!
