//! Entry lists as they are held in memory: a vector of names and values,
//! kept in the order of the names.

use vstd::prelude::*;
use crate::assoc::{
    delete, find, has_name, is_slot, lemma_delete_at, lemma_delete_sorted, lemma_find_at,
    lemma_find_has_name, lemma_put_at, lemma_put_sorted, put, sorted, Name,
};
use crate::order::{compare_names, lemma_name_order, name_lt, Comparison};

verus! {

/// The entry list that a vector of names and values stands for.
pub open spec fn entries_view<V>(v: Seq<(String, V)>) -> Seq<(Name, V)> {
    Seq::new(v.len(), |i: int| (v[i].0@, v[i].1))
}

/// Finds the position of the first entry called `name`.
pub fn position<V>(entries: &Vec<(String, V)>, name: &str) -> (r: Option<usize>)
    ensures
        match r {
            Some(i) => i < entries.len() && find(entries_view(entries@), name@) == Some(
                entries[i as int].1,
            ) && entries[i as int].0@ == name@ && forall|j: int|
                0 <= j < i ==> (#[trigger] entries[j]).0@ != name@,
            None => find(entries_view(entries@), name@) is None,
        },
{
    let ghost s = entries_view(entries@);
    let mut i: usize = 0;
    while i < entries.len()
        invariant
            i <= entries.len(),
            s == entries_view(entries@),
            forall|j: int| 0 <= j < i ==> (#[trigger] s[j]).0 != name@,
        decreases entries.len() - i,
    {
        if matches!(compare_names(entries[i].0.as_str(), name), Comparison::Equal) {
            proof {
                lemma_find_at(s, name@, i as int);
                assert forall|j: int| 0 <= j < i implies (#[trigger] entries[j]).0@ != name@ by {
                    assert(s[j].0 != name@);
                }
            }
            return Some(i);
        }
        i += 1;
    }
    proof {
        lemma_find_has_name(s, name@);
    }
    None
}

/// Tells whether the names grow strictly from each entry to the next.
pub fn is_sorted<V>(entries: &Vec<(String, V)>) -> (r: bool)
    ensures
        r == sorted(entries_view(entries@)),
{
    let ghost s = entries_view(entries@);
    let mut i: usize = 1;
    while i < entries.len()
        invariant
            1 <= i,
            s == entries_view(entries@),
            forall|a: int, b: int|
                0 <= a < b < i && b < s.len() ==> name_lt(#[trigger] s[a].0, #[trigger] s[b].0),
        decreases entries.len() - i,
    {
        match compare_names(entries[i - 1].0.as_str(), entries[i].0.as_str()) {
            Comparison::Less => {
                proof {
                    assert forall|a: int, b: int| 0 <= a < b < i + 1 && b < s.len() implies name_lt(
                        #[trigger] s[a].0,
                        #[trigger] s[b].0,
                    ) by {
                        if b == i && a < i - 1 {
                            assert(name_lt(s[a].0, s[i - 1].0));
                            lemma_name_order(s[a].0, s[i - 1].0, s[i as int].0);
                        }
                    }
                }
            },
            _ => {
                proof {
                    lemma_name_order(s[i - 1].0, s[i as int].0, s[i as int].0);
                    lemma_name_order(s[i as int].0, s[i as int].0, s[i as int].0);
                    assert(!name_lt(s[i - 1].0, s[i as int].0));
                }
                return false;
            },
        }
        i += 1;
    }
    true
}

/// Finds where `name` belongs among the entries.
pub fn slot<V>(entries: &Vec<(String, V)>, name: &str) -> (r: (usize, bool))
    ensures
        is_slot(entries_view(entries@), name@, r.0 as int),
        r.1 == (r.0 < entries.len() && entries[r.0 as int].0@ == name@),
{
    let ghost s = entries_view(entries@);
    let mut i: usize = 0;
    while i < entries.len()
        invariant
            i <= entries.len(),
            s == entries_view(entries@),
            forall|j: int| 0 <= j < i ==> name_lt((#[trigger] s[j]).0, name@),
        decreases entries.len() - i,
    {
        match compare_names(entries[i].0.as_str(), name) {
            Comparison::Less => {},
            Comparison::Equal => {
                return (i, true);
            },
            Comparison::Greater => {
                proof {
                    lemma_name_order(s[i as int].0, name@, name@);
                }
                return (i, false);
            },
        }
        i += 1;
    }
    (i, false)
}

/// Binds `name` to `value`, in place of an entry of that name if there is
/// one, and returns the value that was bound before.
pub fn insert_entry<V>(entries: &mut Vec<(String, V)>, name: String, value: V) -> (r: Option<V>)
    ensures
        entries_view(final(entries)@) == put(entries_view(old(entries)@), name@, value),
        sorted(entries_view(old(entries)@)) ==> r == find(entries_view(old(entries)@), name@)
            && sorted(entries_view(final(entries)@)),
{
    let ghost s = entries_view(entries@);
    let (i, found) = slot(entries, name.as_str());
    proof {
        lemma_put_at(s, name@, value, i as int);
        if sorted(s) {
            lemma_put_sorted(s, name@, value);
        }
        if found {
            assert forall|j: int| 0 <= j < i implies (#[trigger] s[j]).0 != name@ by {
                lemma_name_order(s[j].0, name@, name@);
            }
            lemma_find_at(s, name@, i as int);
        } else if sorted(s) {
            lemma_find_has_name(s, name@);
            if has_name(s, name@) {
                let k = choose|k: int| 0 <= k < s.len() && #[trigger] s[k].0 == name@;
                lemma_name_order(s[k].0, name@, name@);
                if k > i {
                    assert(name_lt(s[i as int].0, s[k].0));
                    lemma_name_order(name@, s[i as int].0, s[k].0);
                }
            }
        }
    }
    if found {
        let old_entry = entries.remove(i);
        entries.insert(i, (name, value));
        proof {
            assert(entries_view(entries@) =~= s.update(i as int, (name@, value)));
        }
        Some(old_entry.1)
    } else {
        entries.insert(i, (name, value));
        proof {
            assert(entries_view(entries@) =~= s.insert(i as int, (name@, value)));
        }
        None
    }
}

/// Takes out the first entry called `name` and returns its value.
pub fn remove_entry<V>(entries: &mut Vec<(String, V)>, name: &str) -> (r: Option<V>)
    ensures
        entries_view(final(entries)@) == delete(entries_view(old(entries)@), name@),
        r == find(entries_view(old(entries)@), name@),
        sorted(entries_view(old(entries)@)) ==> sorted(entries_view(final(entries)@)),
{
    let ghost s = entries_view(entries@);
    proof {
        if sorted(s) {
            lemma_delete_sorted(s, name@);
        }
    }
    match position(entries, name) {
        Some(i) => {
            proof {
                assert forall|j: int| 0 <= j < i implies (#[trigger] s[j]).0 != name@ by {
                    assert(entries[j].0@ != name@);
                }
                lemma_delete_at(s, name@, i as int);
            }
            let old_entry = entries.remove(i);
            proof {
                assert(entries_view(entries@) =~= s.remove(i as int));
            }
            Some(old_entry.1)
        },
        None => {
            proof {
                lemma_find_has_name(s, name@);
                lemma_delete_at(s, name@, s.len() as int);
            }
            None
        },
    }
}

} // verus!
