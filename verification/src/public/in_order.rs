//! The entries of a directory are kept in the order of their names: what
//! the operations of a public directory give is well formed where the
//! root they start from is.

use vstd::prelude::*;
use crate::assoc::{
    delete, find, lemma_delete_sorted, lemma_delete_subset, lemma_put_at, lemma_put_sorted,
    lemma_slot_exists, lemma_sorted_by_names, names, put, sorted, Name,
};
use crate::cid::Cid;
use crate::error::FsError;
use crate::ipld::ValueModel;
use crate::order::name_lt;
use crate::public::codec::{node_of_value, userland_of_entries};
use crate::public::directory::{
    list_entries, listing, made_dir, moved, removed, written, written_file,
};
use crate::public::history::{based_on, deep_equal, rebased_entries, rebased_link, stored_link};
use crate::public::merge::{merged_dir, merged_entries, merged_link};
use crate::public::node::{fresh_dir, DirModel, LinkModel, NodeModel};
use crate::public::path::{
    create_path, fix_up, get_or_create, lookup, resolve, walk, PathModel, WalkModel,
};
use crate::store::Blocks;

verus! {

/// Whether every directory of path nodes is well formed.
pub open spec fn path_wf(p: PathModel) -> bool {
    p.tail.wf() && forall|i: int| 0 <= i < p.path.len() ==> (#[trigger] p.path[i]).0.wf()
}

/// Whether a node is well formed: a directory is, a file always.
pub open spec fn node_wf(node: NodeModel) -> bool {
    match node {
        NodeModel::Dir(d) => d.wf(),
        NodeModel::File(_) => true,
    }
}

/// The path nodes that a walk came to.
pub open spec fn walked(w: WalkModel) -> PathModel {
    match w {
        WalkModel::Complete(p) => p,
        WalkModel::MissingLink(p, _) => p,
        WalkModel::NotADirectory(p, _) => p,
    }
}

/// What is found under a name is the value of an entry of that name.
pub proof fn lemma_find_is_entry<M>(s: Seq<(Name, M)>, name: Name) -> (i: int)
    requires
        find(s, name) is Some,
    ensures
        0 <= i < s.len(),
        s[i] == (name, find(s, name)->0),
    decreases s.len(),
{
    if s[0].0 == name {
        0
    } else {
        let k = lemma_find_is_entry(s.drop_first(), name);
        assert(s.drop_first()[k] == s[k + 1]);
        k + 1
    }
}

/// The entries that a map of links holds are links by address.
pub proof fn lemma_userland_encoded(entries: Seq<(Name, ValueModel)>)
    requires
        userland_of_entries(entries) is Some,
    ensures
        forall|i: int|
            0 <= i < userland_of_entries(entries)->0.len() ==> (#[trigger] userland_of_entries(
                entries,
            )->0[i]).1 is Encoded,
    decreases entries.len(),
{
    if entries.len() > 0 {
        lemma_userland_encoded(entries.drop_last());
    }
}

/// A node that a value holds is well formed: a directory is read from a
/// value only where its names are in order, and holds its entries by
/// their addresses.
pub proof fn lemma_read_node_wf(value: ValueModel)
    requires
        node_of_value(value) is Some,
    ensures
        node_wf(node_of_value(value)->0),
{
    match value {
        ValueModel::StringMap(entries) => match find(entries, "userland"@) {
            Some(ValueModel::StringMap(links)) => {
                if userland_of_entries(links) is Some {
                    lemma_userland_encoded(links);
                }
            },
            _ => {},
        },
        _ => {},
    }
}

/// The node that a well-formed link leads to is well formed: a directory
/// that is read from a block has its entries in order, or is refused.
pub proof fn lemma_resolve_wf(link: LinkModel, blocks: Blocks)
    requires
        link.wf(),
        resolve(link, blocks) is Ok,
    ensures
        node_wf(resolve(link, blocks)->Ok_0),
{
    match link {
        LinkModel::Encoded(cid) => {
            lemma_read_node_wf(crate::ipld::dag_cbor_value(blocks[cid])->0);
        },
        LinkModel::Decoded(_) => {},
    }
}

/// The node that a name leads to in a well-formed directory is well
/// formed.
pub proof fn lemma_lookup_wf(dir: DirModel, name: Name, blocks: Blocks)
    requires
        dir.wf(),
        lookup(dir, name, blocks) matches Ok(Some(_)),
    ensures
        node_wf(lookup(dir, name, blocks)->Ok_0->0),
{
    let i = lemma_find_is_entry(dir.userland, name);
    assert(dir.userland[i].1.wf());
    lemma_resolve_wf(dir.userland[i].1, blocks);
}

/// A walk from a well-formed directory goes through well-formed
/// directories only.
pub proof fn lemma_walk_wf(dir: DirModel, path: Seq<Name>, blocks: Blocks)
    requires
        dir.wf(),
        walk(dir, path, blocks) is Ok,
    ensures
        path_wf(walked(walk(dir, path, blocks)->Ok_0)),
    decreases path.len(),
{
    if path.len() > 0 {
        match lookup(dir, path[0], blocks) {
            Ok(Some(NodeModel::Dir(next))) => {
                lemma_lookup_wf(dir, path[0], blocks);
                lemma_walk_wf(next, path.drop_first(), blocks);
                let below = walked(walk(next, path.drop_first(), blocks)->Ok_0);
                let p = walked(walk(dir, path, blocks)->Ok_0);
                assert(p.path == seq![(dir, path[0])] + below.path);
                assert forall|i: int| 0 <= i < p.path.len() implies (#[trigger] p.path[i]).0.wf() by {
                    if i > 0 {
                        assert(p.path[i] == below.path[i - 1]);
                    }
                }
            },
            _ => {},
        }
    }
}

/// Binding a name to a well-formed link keeps a directory well formed.
pub proof fn lemma_with_entry_wf(dir: DirModel, name: Name, link: LinkModel)
    requires
        dir.wf(),
        link.wf(),
    ensures
        dir.with_entry(name, link).wf(),
{
    let s = dir.userland;
    let r = put(s, name, link);
    let i = lemma_slot_exists(s, name);
    lemma_put_at(s, name, link, i);
    lemma_put_sorted(s, name, link);
    assert forall|k: int| 0 <= k < r.len() implies (#[trigger] r[k]).1.wf() by {
        if k == i {
        } else if i < s.len() && s[i].0 == name {
            assert(r[k] == s[k]);
            assert(s[k].1.wf());
        } else if k < i {
            assert(r[k] == s[k]);
            assert(s[k].1.wf());
        } else {
            assert(r[k] == s[k - 1]);
            assert(s[k - 1].1.wf());
        }
    }
}

/// Taking a name out keeps a directory well formed.
pub proof fn lemma_without_entry_wf(dir: DirModel, name: Name)
    requires
        dir.wf(),
    ensures
        dir.without_entry(name).wf(),
{
    let s = dir.userland;
    let r = delete(s, name);
    lemma_delete_sorted(s, name);
    assert forall|k: int| 0 <= k < r.len() implies (#[trigger] r[k]).1.wf() by {
        lemma_delete_subset(s, name, k);
        let j = choose|j: int| 0 <= j < s.len() && s[j] == r[k];
        assert(s[j].1.wf());
    }
}

/// Building the tree anew along well-formed path nodes gives a
/// well-formed root.
pub proof fn lemma_fix_up_wf(p: PathModel)
    requires
        path_wf(p),
    ensures
        fix_up(p).wf(),
    decreases p.path.len(),
{
    if p.path.len() > 0 {
        let (dir, name) = p.path.last();
        assert(p.path[p.path.len() - 1].0.wf());
        lemma_with_entry_wf(dir, name, LinkModel::Decoded(NodeModel::Dir(p.tail)));
        let next = PathModel {
            path: p.path.drop_last(),
            tail: dir.with_entry(name, LinkModel::Decoded(NodeModel::Dir(p.tail))),
        };
        assert forall|i: int| 0 <= i < next.path.len() implies (#[trigger] next.path[i]).0.wf() by {
            assert(next.path[i] == p.path[i]);
        }
        lemma_fix_up_wf(next);
    }
}

/// The path nodes that are found or made from a well-formed root are well
/// formed.
pub proof fn lemma_get_or_create_wf(dir: DirModel, path: Seq<Name>, time: i64, blocks: Blocks)
    requires
        dir.wf(),
        get_or_create(dir, path, time, blocks) is Ok,
    ensures
        path_wf(get_or_create(dir, path, time, blocks)->Ok_0),
{
    lemma_walk_wf(dir, path, blocks);
    match walk(dir, path, blocks) {
        Ok(WalkModel::MissingLink(p, name)) => {
            let created = create_path(
                path.subrange(p.path.len() as int + 1, path.len() as int),
                time,
            );
            let all = get_or_create(dir, path, time, blocks)->Ok_0;
            assert(fresh_dir(time).wf());
            assert forall|i: int| 0 <= i < all.path.len() implies (#[trigger] all.path[i]).0.wf() by {
                if i < p.path.len() {
                    assert(all.path[i] == p.path[i]);
                } else if i == p.path.len() {
                    assert(all.path[i] == (p.tail, name));
                } else {
                    assert(all.path[i] == created.path[i - p.path.len() - 1]);
                }
            }
        },
        _ => {},
    }
}

/// Writing a file into a well-formed tree gives a well-formed tree.
pub proof fn lemma_written_wf(dir: DirModel, path: Seq<Name>, content: Cid, time: i64, blocks: Blocks)
    requires
        dir.wf(),
        written(dir, path, content, time, blocks) is Ok,
    ensures
        written(dir, path, content, time, blocks)->Ok_0.wf(),
{
    lemma_get_or_create_wf(dir, path.drop_last(), time, blocks);
    let nodes = get_or_create(dir, path.drop_last(), time, blocks)->Ok_0;
    let before = lookup(nodes.tail, path.last(), blocks)->Ok_0;
    let file = written_file(before, content, time)->Ok_0;
    let link = LinkModel::Decoded(NodeModel::File(file));
    lemma_with_entry_wf(nodes.tail, path.last(), link);
    lemma_fix_up_wf(PathModel { path: nodes.path, tail: nodes.tail.with_entry(path.last(), link) });
}

/// Making directories in a well-formed tree gives a well-formed tree.
pub proof fn lemma_made_dir_wf(dir: DirModel, path: Seq<Name>, time: i64, blocks: Blocks)
    requires
        dir.wf(),
        made_dir(dir, path, time, blocks) is Ok,
    ensures
        made_dir(dir, path, time, blocks)->Ok_0.wf(),
{
    lemma_get_or_create_wf(dir, path, time, blocks);
    lemma_fix_up_wf(get_or_create(dir, path, time, blocks)->Ok_0);
}

/// Removing an entry from a well-formed tree gives a well-formed tree and
/// a well-formed node.
pub proof fn lemma_removed_wf(dir: DirModel, path: Seq<Name>, blocks: Blocks)
    requires
        dir.wf(),
        removed(dir, path, blocks) is Ok,
    ensures
        removed(dir, path, blocks)->Ok_0.0.wf(),
        node_wf(removed(dir, path, blocks)->Ok_0.1),
{
    lemma_walk_wf(dir, path.drop_last(), blocks);
    let p = walked(walk(dir, path.drop_last(), blocks)->Ok_0);
    lemma_lookup_wf(p.tail, path.last(), blocks);
    lemma_without_entry_wf(p.tail, path.last());
    lemma_fix_up_wf(PathModel { path: p.path, tail: p.tail.without_entry(path.last()) });
}

/// Moving a node within a well-formed tree gives a well-formed tree.
pub proof fn lemma_moved_wf(dir: DirModel, from: Seq<Name>, to: Seq<Name>, time: i64, blocks: Blocks)
    requires
        dir.wf(),
        moved(dir, from, to, time, blocks) is Ok,
    ensures
        moved(dir, from, to, time, blocks)->Ok_0.wf(),
{
    lemma_removed_wf(dir, from, blocks);
    let (root, node) = removed(dir, from, blocks)->Ok_0;
    lemma_walk_wf(root, to.drop_last(), blocks);
    let p = walked(walk(root, to.drop_last(), blocks)->Ok_0);
    let link = LinkModel::Decoded(node.with_mtime(time));
    lemma_with_entry_wf(p.tail, to.last(), link);
    lemma_fix_up_wf(PathModel { path: p.path, tail: p.tail.with_entry(to.last(), link) });
}

/// What is listed has the names of the entries, in their order.
pub proof fn lemma_list_entries_names(entries: Seq<(Name, LinkModel)>, blocks: Blocks)
    requires
        list_entries(entries, blocks) is Ok,
    ensures
        names(list_entries(entries, blocks)->Ok_0) == names(entries),
    decreases entries.len(),
{
    if entries.len() == 0 {
        assert(names(list_entries(entries, blocks)->Ok_0) =~= names(entries));
    } else {
        lemma_list_entries_names(entries.drop_last(), blocks);
        let rest = list_entries(entries.drop_last(), blocks)->Ok_0;
        assert(names(rest) == names(entries.drop_last()));
        assert(rest.len() == names(rest).len());
        let out = list_entries(entries, blocks)->Ok_0;
        assert forall|i: int| 0 <= i < out.len() implies names(out)[i] == names(entries)[i] by {
            if i < rest.len() {
                assert(names(rest)[i] == names(entries.drop_last())[i]);
            }
        }
        assert(names(out) =~= names(entries));
    }
}

/// The listing of a directory in a well-formed tree is in the order of
/// the names.
pub proof fn lemma_listing_in_order(dir: DirModel, path: Seq<Name>, blocks: Blocks)
    requires
        dir.wf(),
        listing(dir, path, blocks) is Ok,
    ensures
        sorted(listing(dir, path, blocks)->Ok_0),
{
    lemma_walk_wf(dir, path, blocks);
    let p = walked(walk(dir, path, blocks)->Ok_0);
    lemma_list_entries_names(p.tail.userland, blocks);
    lemma_sorted_by_names(listing(dir, path, blocks)->Ok_0, p.tail.userland);
}

/// Whether every directory that the entries hold is well formed.
pub open spec fn links_wf(s: Seq<(Name, LinkModel)>) -> bool {
    forall|i: int| 0 <= i < s.len() ==> (#[trigger] s[i]).1.wf()
}

/// Whether entries are in the order of their names and hold well-formed
/// directories only.
pub open spec fn entries_wf(s: Seq<(Name, LinkModel)>) -> bool {
    sorted(s) && links_wf(s)
}

/// The entries after the first hold well-formed directories only where
/// all of them do.
pub proof fn lemma_links_rest(s: Seq<(Name, LinkModel)>)
    requires
        links_wf(s),
        s.len() > 0,
    ensures
        links_wf(s.subrange(1, s.len() as int)),
        s[0].1.wf(),
{
    let rest = s.subrange(1, s.len() as int);
    assert forall|i: int| 0 <= i < rest.len() implies (#[trigger] rest[i]).1.wf() by {
        assert(rest[i] == s[i + 1]);
    }
}

/// Binding a name to a well-formed link keeps entries well formed.
pub proof fn lemma_put_wf(s: Seq<(Name, LinkModel)>, name: Name, link: LinkModel)
    requires
        entries_wf(s),
        link.wf(),
    ensures
        entries_wf(put(s, name, link)),
{
    let dir = DirModel { userland: s, ..fresh_dir(0) };
    assert(dir.wf()) by {
        assert forall|i: int| 0 <= i < s.len() implies match (#[trigger] dir.userland[i]).1 {
            LinkModel::Decoded(NodeModel::Dir(d)) => d.wf(),
            _ => true,
        } by {
            assert(s[i].1.wf());
        }
    }
    lemma_with_entry_wf(dir, name, link);
    let r = dir.with_entry(name, link).userland;
    assert forall|i: int| 0 <= i < r.len() implies (#[trigger] r[i]).1.wf() by {}
}

/// The link that a merge keeps of two well-formed links is well formed.
pub proof fn lemma_merged_link_wf(left: LinkModel, right: LinkModel, blocks: Blocks, fuel: nat)
    requires
        left.wf(),
        right.wf(),
        merged_link(left, right, blocks, fuel).0 is Ok,
    ensures
        merged_link(left, right, blocks, fuel).0->Ok_0.wf(),
    decreases fuel, 0nat, 0nat,
{
    if fuel > 0 {
        let (same, b1) = deep_equal(left, right, blocks);
        if same == Ok::<bool, FsError>(false) && resolve(left, b1) is Ok && resolve(right, b1) is Ok {
            lemma_resolve_wf(left, b1);
            lemma_resolve_wf(right, b1);
            match (resolve(left, b1)->Ok_0, resolve(right, b1)->Ok_0) {
                (NodeModel::Dir(l), NodeModel::Dir(r)) => {
                    lemma_merged_entries_wf(
                        l.userland,
                        r.userland,
                        Seq::empty(),
                        b1,
                        (fuel - 1) as nat,
                    );
                },
                _ => {},
            }
        }
    }
}

/// The entries that a merge adds to well-formed entries, from two sides
/// that hold well-formed directories only, are well formed: in the order
/// of their names, whatever the order of either side.
pub proof fn lemma_merged_entries_wf(
    left: Seq<(Name, LinkModel)>,
    right: Seq<(Name, LinkModel)>,
    done: Seq<(Name, LinkModel)>,
    blocks: Blocks,
    fuel: nat,
)
    requires
        links_wf(left),
        links_wf(right),
        entries_wf(done),
        merged_entries(left, right, done, blocks, fuel).0 is Ok,
    ensures
        entries_wf(merged_entries(left, right, done, blocks, fuel).0->Ok_0),
    decreases fuel, 1nat, left.len() + right.len(),
{
    let left_rest = left.subrange(1, left.len() as int);
    let right_rest = right.subrange(1, right.len() as int);
    if left.len() == 0 && right.len() == 0 {
    } else if right.len() == 0 || (left.len() > 0 && name_lt(left[0].0, right[0].0)) {
        lemma_links_rest(left);
        lemma_put_wf(done, left[0].0, left[0].1);
        lemma_merged_entries_wf(left_rest, right, put(done, left[0].0, left[0].1), blocks, fuel);
    } else if left.len() == 0 || name_lt(right[0].0, left[0].0) {
        lemma_links_rest(right);
        lemma_put_wf(done, right[0].0, right[0].1);
        lemma_merged_entries_wf(left, right_rest, put(done, right[0].0, right[0].1), blocks, fuel);
    } else {
        lemma_links_rest(left);
        lemma_links_rest(right);
        lemma_merged_link_wf(left[0].1, right[0].1, blocks, fuel);
        let (link, after) = merged_link(left[0].1, right[0].1, blocks, fuel);
        lemma_put_wf(done, left[0].0, link->Ok_0);
        lemma_merged_entries_wf(
            left_rest,
            right_rest,
            put(done, left[0].0, link->Ok_0),
            after,
            fuel,
        );
    }
}

/// The merge of two well-formed directories is well formed.
pub proof fn lemma_merged_dir_wf(left: DirModel, right: DirModel, blocks: Blocks, fuel: nat)
    requires
        left.wf(),
        right.wf(),
        merged_dir(left, right, blocks, fuel).0 is Ok,
    ensures
        merged_dir(left, right, blocks, fuel).0->Ok_0.wf(),
{
    lemma_dir_entries_wf(left);
    lemma_dir_entries_wf(right);
    lemma_merged_entries_wf(left.userland, right.userland, Seq::empty(), blocks, fuel);
    lemma_entries_dir_wf(merged_dir(left, right, blocks, fuel).0->Ok_0);
}

/// The entries of a well-formed directory are well formed.
pub proof fn lemma_dir_entries_wf(dir: DirModel)
    requires
        dir.wf(),
    ensures
        entries_wf(dir.userland),
{
    assert forall|i: int| 0 <= i < dir.userland.len() implies (#[trigger] dir.userland[i]).1.wf() by {}
}

/// A directory whose entries are well formed is well formed.
pub proof fn lemma_entries_dir_wf(dir: DirModel)
    requires
        entries_wf(dir.userland),
    ensures
        dir.wf(),
{
    assert forall|i: int| 0 <= i < dir.userland.len() implies match (#[trigger] dir.userland[i]).1 {
        LinkModel::Decoded(NodeModel::Dir(d)) => d.wf(),
        _ => true,
    } by {
        assert(dir.userland[i].1.wf());
    }
}

/// The link that takes the place of a well-formed link, over a
/// well-formed link of the earlier tree, is well formed.
pub proof fn lemma_rebased_link_wf(link: LinkModel, base: LinkModel, blocks: Blocks, fuel: nat)
    requires
        link.wf(),
        base.wf(),
        rebased_link(link, base, blocks, fuel).0 matches Ok(Some(_)),
    ensures
        rebased_link(link, base, blocks, fuel).0->Ok_0->0.wf(),
    decreases fuel, 0nat, 0nat,
{
    if fuel > 0 {
        let (same, b1) = deep_equal(link, base, blocks);
        if same == Ok::<bool, FsError>(false) && resolve(link, b1) is Ok && resolve(base, b1) is Ok {
            lemma_resolve_wf(link, b1);
            lemma_resolve_wf(base, b1);
            match (resolve(link, b1)->Ok_0, resolve(base, b1)->Ok_0) {
                (NodeModel::Dir(dir), NodeModel::Dir(base_dir)) => {
                    let (cid, b2) = stored_link(base, b1);
                    lemma_dir_entries_wf(dir);
                    lemma_dir_entries_wf(base_dir);
                    lemma_rebased_entries_wf(
                        dir.userland,
                        dir.userland,
                        base_dir.userland,
                        b2,
                        (fuel - 1) as nat,
                    );
                    let userland = rebased_entries(
                        dir.userland,
                        dir.userland,
                        base_dir.userland,
                        b2,
                        (fuel - 1) as nat,
                    ).0->Ok_0;
                    lemma_entries_dir_wf(
                        DirModel { metadata: dir.metadata, userland, previous: Some(cid->Ok_0) },
                    );
                },
                _ => {},
            }
        }
    }
}

/// Well-formed entries stay well formed where entries of theirs are
/// replaced over the entries of the earlier tree.
pub proof fn lemma_rebased_entries_wf(
    todo: Seq<(Name, LinkModel)>,
    userland: Seq<(Name, LinkModel)>,
    base: Seq<(Name, LinkModel)>,
    blocks: Blocks,
    fuel: nat,
)
    requires
        links_wf(todo),
        entries_wf(userland),
        links_wf(base),
        rebased_entries(todo, userland, base, blocks, fuel).0 is Ok,
    ensures
        entries_wf(rebased_entries(todo, userland, base, blocks, fuel).0->Ok_0),
    decreases fuel, 1nat, todo.len(),
{
    if todo.len() > 0 {
        let rest = todo.subrange(1, todo.len() as int);
        lemma_links_rest(todo);
        match find(base, todo[0].0) {
            None => {
                lemma_rebased_entries_wf(rest, userland, base, blocks, fuel);
            },
            Some(base_link) => {
                let i = lemma_find_is_entry(base, todo[0].0);
                assert(base[i].1.wf());
                let (link, after) = rebased_link(todo[0].1, base_link, blocks, fuel);
                match link {
                    Ok(None) => {
                        lemma_rebased_entries_wf(rest, userland, base, after, fuel);
                    },
                    Ok(Some(l)) => {
                        lemma_rebased_link_wf(todo[0].1, base_link, blocks, fuel);
                        lemma_put_wf(userland, todo[0].0, l);
                        lemma_rebased_entries_wf(
                            rest,
                            put(userland, todo[0].0, l),
                            base,
                            after,
                            fuel,
                        );
                    },
                    Err(_) => {},
                }
            },
        }
    }
}

/// A well-formed directory based on a well-formed earlier one is well
/// formed.
pub proof fn lemma_based_on_wf(dir: DirModel, base: DirModel, blocks: Blocks, fuel: nat)
    requires
        dir.wf(),
        base.wf(),
        based_on(dir, base, blocks, fuel).0 is Ok,
    ensures
        based_on(dir, base, blocks, fuel).0->Ok_0.wf(),
{
    let b1 = crate::public::history::stored_dir(base, blocks).1;
    lemma_dir_entries_wf(dir);
    lemma_dir_entries_wf(base);
    lemma_rebased_entries_wf(dir.userland, dir.userland, base.userland, b1, fuel);
    lemma_entries_dir_wf(based_on(dir, base, blocks, fuel).0->Ok_0);
}

} // verus!
