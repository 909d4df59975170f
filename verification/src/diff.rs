//! Walking two sorted entry lists side by side.

use vstd::prelude::*;
use crate::assoc::{find, has_name, lemma_find_has_name, lemma_find_sorted_at, sorted, Name};
use crate::entries::entries_view;
use crate::order::{compare_names, lemma_name_order, name_lt, Comparison};

verus! {

/// What the walk finds under one name.
#[derive(Debug, Clone, PartialEq, Eq)]
pub enum DiffItem<K, V> {
    /// The name is bound on the left only.
    InLeft(K, V),
    /// The name is bound on the right only.
    InRight(K, V),
    /// The name is bound on both sides: the left value, then the right one.
    InBoth(K, V, V),
}

/// A walk over two entry lists that yields, name by name in the order of
/// the names, on which side each name is bound.
pub struct MapDiff<'a, V> {
    pub left: &'a Vec<(String, V)>,
    pub left_pos: usize,
    pub right: &'a Vec<(String, V)>,
    pub right_pos: usize,
}

/// The items that a walk over `l` and `r` yields, in order.
pub open spec fn diff_items<V>(l: Seq<(Name, V)>, r: Seq<(Name, V)>) -> Seq<DiffItem<Name, V>>
    decreases l.len() + r.len(),
{
    if l.len() == 0 && r.len() == 0 {
        Seq::empty()
    } else if l.len() == 0 {
        seq![DiffItem::InRight(r[0].0, r[0].1)] + diff_items(l, r.drop_first())
    } else if r.len() == 0 {
        seq![DiffItem::InLeft(l[0].0, l[0].1)] + diff_items(l.drop_first(), r)
    } else if l[0].0 == r[0].0 {
        seq![DiffItem::InBoth(l[0].0, l[0].1, r[0].1)] + diff_items(
            l.drop_first(),
            r.drop_first(),
        )
    } else if name_lt(l[0].0, r[0].0) {
        seq![DiffItem::InLeft(l[0].0, l[0].1)] + diff_items(l.drop_first(), r)
    } else {
        seq![DiffItem::InRight(r[0].0, r[0].1)] + diff_items(l, r.drop_first())
    }
}

/// An item as contracts see it: the name by its characters, the values
/// themselves.
pub open spec fn item_view<V>(item: DiffItem<&String, &V>) -> DiffItem<Name, V> {
    match item {
        DiffItem::InLeft(k, v) => DiffItem::InLeft(k@, *v),
        DiffItem::InRight(k, v) => DiffItem::InRight(k@, *v),
        DiffItem::InBoth(k, l, r) => DiffItem::InBoth(k@, *l, *r),
    }
}

/// The name that an item is about.
pub open spec fn item_name<V>(item: DiffItem<Name, V>) -> Name {
    match item {
        DiffItem::InLeft(k, _) => k,
        DiffItem::InRight(k, _) => k,
        DiffItem::InBoth(k, _, _) => k,
    }
}

/// What an item says of its name: the value on the left and the value on
/// the right.
pub open spec fn item_sides<V>(item: DiffItem<Name, V>) -> (Option<V>, Option<V>) {
    match item {
        DiffItem::InLeft(_, v) => (Some(v), None),
        DiffItem::InRight(_, v) => (None, Some(v)),
        DiffItem::InBoth(_, l, r) => (Some(l), Some(r)),
    }
}

impl<'a, V> MapDiff<'a, V> {
    /// The position is within both lists.
    pub open spec fn wf(&self) -> bool {
        self.left_pos <= self.left.len() && self.right_pos <= self.right.len()
    }

    /// The entries on the left that the walk has not passed yet.
    pub open spec fn left_rest(&self) -> Seq<(Name, V)> {
        entries_view(self.left@).subrange(self.left_pos as int, self.left.len() as int)
    }

    /// The entries on the right that the walk has not passed yet.
    pub open spec fn right_rest(&self) -> Seq<(Name, V)> {
        entries_view(self.right@).subrange(self.right_pos as int, self.right.len() as int)
    }

    /// The next name is bound on the left only.
    pub open spec fn takes_left(&self) -> bool {
        &&& self.left_pos < self.left.len()
        &&& self.right_pos < self.right.len() ==> name_lt(
            self.left[self.left_pos as int].0@,
            self.right[self.right_pos as int].0@,
        )
    }

    /// The next name is bound on the right only.
    pub open spec fn takes_right(&self) -> bool {
        &&& self.right_pos < self.right.len()
        &&& self.left_pos < self.left.len() ==> name_lt(
            self.right[self.right_pos as int].0@,
            self.left[self.left_pos as int].0@,
        )
    }

    /// The next name is bound on both sides.
    pub open spec fn takes_both(&self) -> bool {
        &&& self.left_pos < self.left.len()
        &&& self.right_pos < self.right.len()
        &&& self.left[self.left_pos as int].0@ == self.right[self.right_pos as int].0@
    }

    /// How many entries of both lists the walk has not passed yet.
    pub open spec fn rest_len(&self) -> nat {
        self.left_rest().len() + self.right_rest().len()
    }

    /// The items that the walk has yet to yield.
    pub open spec fn remaining(&self) -> Seq<DiffItem<Name, V>> {
        diff_items(self.left_rest(), self.right_rest())
    }

    /// Starts a walk at the head of both lists.
    pub fn new(left: &'a Vec<(String, V)>, right: &'a Vec<(String, V)>) -> (r: Self)
        ensures
            r.wf(),
            r.left == left,
            r.right == right,
            r.left_pos == 0,
            r.right_pos == 0,
            r.remaining() == diff_items(entries_view(left@), entries_view(right@)),
    {
        let r = MapDiff { left, left_pos: 0, right, right_pos: 0 };
        proof {
            assert(r.left_rest() =~= entries_view(left@));
            assert(r.right_rest() =~= entries_view(right@));
        }
        r
    }

    /// Yields the next item, or `None` when both lists are used up.
    pub fn next(&mut self) -> (r: Option<DiffItem<&'a String, &'a V>>)
        requires
            old(self).wf(),
        ensures
            final(self).wf(),
            final(self).left == old(self).left,
            final(self).right == old(self).right,
            match r {
                Some(item) => {
                    &&& old(self).remaining() == seq![item_view(item)] + final(self).remaining()
                    &&& final(self).rest_len() < old(self).rest_len()
                },
                None => old(self).rest_len() == 0 && *final(self) == *old(self),
            },
            match r {
                Some(DiffItem::InLeft(k, v)) => {
                    &&& old(self).takes_left()
                    &&& final(self).left_pos == old(self).left_pos + 1
                    &&& final(self).right_pos == old(self).right_pos
                    &&& (*k, *v) == old(self).left[old(self).left_pos as int]
                },
                Some(DiffItem::InRight(k, v)) => {
                    &&& old(self).takes_right()
                    &&& final(self).left_pos == old(self).left_pos
                    &&& final(self).right_pos == old(self).right_pos + 1
                    &&& (*k, *v) == old(self).right[old(self).right_pos as int]
                },
                Some(DiffItem::InBoth(k, l, r)) => {
                    &&& old(self).takes_both()
                    &&& final(self).left_pos == old(self).left_pos + 1
                    &&& final(self).right_pos == old(self).right_pos + 1
                    &&& (*k, *l) == old(self).left[old(self).left_pos as int]
                    &&& *r == old(self).right[old(self).right_pos as int].1
                },
                None => true,
            },
    {
        let ghost l = self.left_rest();
        let ghost r = self.right_rest();
        let left = self.left;
        let right = self.right;
        let has_left = self.left_pos < left.len();
        let has_right = self.right_pos < right.len();
        if !has_left && !has_right {
            return None;
        }
        let side = if !has_left {
            Comparison::Greater
        } else if !has_right {
            Comparison::Less
        } else {
            compare_names(left[self.left_pos].0.as_str(), right[self.right_pos].0.as_str())
        };
        proof {
            if has_left {
                assert(l[0] == entries_view(left@)[self.left_pos as int]);
            }
            if has_right {
                assert(r[0] == entries_view(right@)[self.right_pos as int]);
            }
            if has_left && has_right {
                lemma_name_order(
                    left[self.left_pos as int].0@,
                    right[self.right_pos as int].0@,
                    left[self.left_pos as int].0@,
                );
            }
        }
        match side {
            Comparison::Less => {
                let entry = &left[self.left_pos];
                self.left_pos = self.left_pos + 1;
                proof {
                    assert(self.left_rest() =~= l.drop_first());
                }
                Some(DiffItem::InLeft(&entry.0, &entry.1))
            },
            Comparison::Equal => {
                let le = &left[self.left_pos];
                let re = &right[self.right_pos];
                self.left_pos = self.left_pos + 1;
                self.right_pos = self.right_pos + 1;
                proof {
                    assert(self.left_rest() =~= l.drop_first());
                    assert(self.right_rest() =~= r.drop_first());
                }
                Some(DiffItem::InBoth(&le.0, &le.1, &re.1))
            },
            Comparison::Greater => {
                let entry = &right[self.right_pos];
                self.right_pos = self.right_pos + 1;
                proof {
                    assert(self.right_rest() =~= r.drop_first());
                }
                Some(DiffItem::InRight(&entry.0, &entry.1))
            },
        }
    }

    /// Walks to the end and returns all the items that were still to come.
    pub fn collect(self) -> (r: Vec<DiffItem<&'a String, &'a V>>)
        requires
            self.wf(),
        ensures
            r@.len() == self.remaining().len(),
            forall|i: int| 0 <= i < r@.len() ==> item_view(#[trigger] r@[i]) == self.remaining()[i],
    {
        let mut walk = self;
        let mut out: Vec<DiffItem<&'a String, &'a V>> = Vec::new();
        let ghost all = self.remaining();
        loop
            invariant
                walk.wf(),
                all == self.remaining(),
                out@.len() + walk.remaining().len() == all.len(),
                forall|i: int| 0 <= i < out@.len() ==> item_view(#[trigger] out@[i]) == all[i],
                forall|i: int|
                    0 <= i < walk.remaining().len() ==> #[trigger] walk.remaining()[i] == all[out@.len()
                        + i],
            decreases walk.rest_len(),
        {
            let ghost before = walk.remaining();
            match walk.next() {
                Some(item) => {
                    proof {
                        assert(before[0] == item_view(item));
                        assert forall|i: int| 0 <= i < walk.remaining().len() implies #[trigger] walk.remaining()[i]
                            == all[out@.len() + 1 + i] by {
                            assert(walk.remaining()[i] == before[i + 1]);
                        }
                    }
                    out.push(item);
                },
                None => {
                    proof {
                        assert(walk.left_rest().len() == 0 && walk.right_rest().len() == 0);
                        assert(walk.remaining().len() == 0);
                    }
                    return out;
                },
            }
        }
    }
}

/// A walk over sorted lists says of every name what both lists say of it,
/// and of no other name.
pub proof fn lemma_diff_items_sides<V>(l: Seq<(Name, V)>, r: Seq<(Name, V)>, i: int)
    requires
        sorted(l),
        sorted(r),
        0 <= i < diff_items(l, r).len(),
    ensures
        item_sides(diff_items(l, r)[i]) == (
            find(l, item_name(diff_items(l, r)[i])),
            find(r, item_name(diff_items(l, r)[i])),
        ),
    decreases l.len() + r.len(),
{
    let d = diff_items(l, r);
    let name = item_name(d[i]);
    let lt = if l.len() > 0 { l.drop_first() } else { l };
    let rt = if r.len() > 0 { r.drop_first() } else { r };
    if l.len() > 0 {
        lemma_sorted_tail(l);
    }
    if r.len() > 0 {
        lemma_sorted_tail(r);
    }
    if l.len() > 0 && r.len() > 0 && l[0].0 != r[0].0 {
        lemma_name_order(l[0].0, r[0].0, r[0].0);
        if name_lt(l[0].0, r[0].0) {
            assert forall|j: int| 0 <= j < r.len() implies name_lt(l[0].0, (#[trigger] r[j]).0) by {
                if j > 0 {
                    assert(name_lt(r[0].0, r[j].0));
                    lemma_name_order(l[0].0, r[0].0, r[j].0);
                }
            }
        } else {
            assert forall|j: int| 0 <= j < l.len() implies name_lt(r[0].0, (#[trigger] l[j]).0) by {
                if j > 0 {
                    assert(name_lt(l[0].0, l[j].0));
                    lemma_name_order(r[0].0, l[0].0, l[j].0);
                }
            }
        }
    }
    if l.len() == 0 {
        if i == 0 {
            lemma_find_sorted_at(r, 0);
        } else {
            lemma_diff_items_sides(l, rt, i - 1);
            lemma_diff_names_above(l, rt, r[0].0, i - 1);
            lemma_name_order(r[0].0, name, name);
        }
        assert(find(l, name) is None);
    } else if r.len() == 0 {
        if i == 0 {
            lemma_find_sorted_at(l, 0);
        } else {
            lemma_diff_items_sides(lt, r, i - 1);
            lemma_diff_names_above(lt, r, l[0].0, i - 1);
            lemma_name_order(l[0].0, name, name);
        }
        assert(find(r, name) is None);
    } else if l[0].0 == r[0].0 {
        if i > 0 {
            lemma_diff_items_sides(lt, rt, i - 1);
            lemma_diff_names_above(lt, rt, l[0].0, i - 1);
            lemma_name_order(l[0].0, name, name);
        }
    } else if name_lt(l[0].0, r[0].0) {
        if i == 0 {
            lemma_find_below(r, l[0].0);
        } else {
            lemma_diff_items_sides(lt, r, i - 1);
            lemma_diff_names_above(lt, r, l[0].0, i - 1);
            lemma_name_order(l[0].0, name, name);
        }
    } else {
        lemma_name_order(l[0].0, r[0].0, r[0].0);
        if i == 0 {
            lemma_find_below(l, r[0].0);
        } else {
            lemma_diff_items_sides(l, rt, i - 1);
            lemma_diff_names_above(l, rt, r[0].0, i - 1);
            lemma_name_order(r[0].0, name, name);
        }
    }
}

/// The tail of a sorted list is sorted, and its names come after the head's.
pub proof fn lemma_sorted_tail<M>(s: Seq<(Name, M)>)
    requires
        sorted(s),
        s.len() > 0,
    ensures
        sorted(s.drop_first()),
        forall|j: int| 0 <= j < s.drop_first().len() ==> name_lt(s[0].0, (#[trigger] s.drop_first()[j]).0),
{
    let t = s.drop_first();
    assert forall|a: int, b: int| 0 <= a < b < t.len() implies name_lt(
        #[trigger] t[a].0,
        #[trigger] t[b].0,
    ) by {
        assert(name_lt(s[a + 1].0, s[b + 1].0));
    }
    assert forall|j: int| 0 <= j < t.len() implies name_lt(s[0].0, (#[trigger] t[j]).0) by {
        assert(name_lt(s[0].0, s[j + 1].0));
    }
}

/// A name that comes before the first of a sorted list is not bound in it.
pub proof fn lemma_find_below<M>(s: Seq<(Name, M)>, name: Name)
    requires
        sorted(s),
        s.len() > 0 ==> name_lt(name, s[0].0),
    ensures
        find(s, name) is None,
{
    lemma_find_has_name(s, name);
    if has_name(s, name) {
        let i = choose|i: int| 0 <= i < s.len() && #[trigger] s[i].0 == name;
        if i > 0 {
            assert(name_lt(s[0].0, s[i].0));
        }
        lemma_name_order(name, s[0].0, name);
    }
}

/// Where all names of both lists come after `floor`, so do the names of
/// the items.
proof fn lemma_diff_names_above<V>(l: Seq<(Name, V)>, r: Seq<(Name, V)>, floor: Name, i: int)
    requires
        forall|j: int| 0 <= j < l.len() ==> name_lt(floor, (#[trigger] l[j]).0),
        forall|j: int| 0 <= j < r.len() ==> name_lt(floor, (#[trigger] r[j]).0),
        0 <= i < diff_items(l, r).len(),
    ensures
        name_lt(floor, item_name(diff_items(l, r)[i])),
    decreases l.len() + r.len(),
{
    let lt = if l.len() > 0 { l.drop_first() } else { l };
    let rt = if r.len() > 0 { r.drop_first() } else { r };
    assert forall|j: int| 0 <= j < lt.len() implies name_lt(floor, (#[trigger] lt[j]).0) by {
        if l.len() > 0 {
            assert(name_lt(floor, l[j + 1].0));
        }
    }
    assert forall|j: int| 0 <= j < rt.len() implies name_lt(floor, (#[trigger] rt[j]).0) by {
        if r.len() > 0 {
            assert(name_lt(floor, r[j + 1].0));
        }
    }
    if i > 0 {
        if l.len() == 0 {
            lemma_diff_names_above(l, rt, floor, i - 1);
        } else if r.len() == 0 {
            lemma_diff_names_above(lt, r, floor, i - 1);
        } else if l[0].0 == r[0].0 {
            lemma_diff_names_above(lt, rt, floor, i - 1);
        } else if name_lt(l[0].0, r[0].0) {
            lemma_diff_names_above(lt, r, floor, i - 1);
        } else {
            lemma_diff_names_above(l, rt, floor, i - 1);
        }
    }
}

} // verus!
