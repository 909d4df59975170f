//! The entries of a directory are kept in the order of their names: what
//! the operations of a private directory give is in that order where the
//! root they start from is.

use vstd::prelude::*;
use crate::assoc::{
    lemma_delete_sorted, lemma_put_sorted, lemma_sorted_by_names, names, sorted, Name,
};
use crate::error::FsError;
use crate::metadata::Metadata;
use crate::private::ancestry::{rebased, World};
use crate::private::directory::{
    listed, listing, made_dir, removed, stored_file, with_child, without_child, written,
};
use crate::private::entropy::Entropy;
use crate::private::forest::{forest_get, ForestMap};
use crate::private::latest::{latest, lemma_latest_is_held};
use crate::private::lineage::lemma_created_below;
use crate::private::movement::{forgotten, moved};
use crate::private::node::{private_ref_of, PrivateDirModel, PrivateNodeModel, PrivateRef};
use crate::private::path::{
    child, created_from, fix_up, get_or_create, resolved, walk, walk_from, PrivatePathModel,
    PrivateWalkModel,
};
use crate::private::round_trip::{in_order, lemma_found_in_order};
use crate::store::Blocks;

verus! {

/// The path nodes that a walk came to.
pub open spec fn walked(w: PrivateWalkModel) -> PrivatePathModel {
    match w {
        PrivateWalkModel::Complete(p) => p,
        PrivateWalkModel::MissingLink(p, _) => p,
        PrivateWalkModel::NotADirectory(p, _) => p,
    }
}

/// The directory at the head of path nodes: the one that becomes the root
/// when the tree is built anew along them.
pub open spec fn first_dir(p: PrivatePathModel) -> PrivateDirModel {
    if p.path.len() == 0 {
        p.tail
    } else {
        p.path[0].0
    }
}

/// A child that a directory leads to has its entries in order.
pub proof fn lemma_child_in_order(
    dir: PrivateDirModel,
    name: Name,
    forest: ForestMap,
    blocks: Blocks,
    node: PrivateNodeModel,
)
    requires
        child(dir, name, forest, blocks) == Ok::<Option<PrivateNodeModel>, FsError>(Some(node)),
    ensures
        in_order(node),
{
    let private_ref = crate::assoc::find(dir.entries, name)->0;
    lemma_resolved_in_order(private_ref, forest, blocks, node);
}

/// A node that a capability leads to has its entries in order.
pub proof fn lemma_resolved_in_order(
    private_ref: PrivateRef,
    forest: ForestMap,
    blocks: Blocks,
    node: PrivateNodeModel,
)
    requires
        resolved(private_ref, forest, blocks) == Ok::<Option<PrivateNodeModel>, FsError>(
            Some(node),
        ),
    ensures
        in_order(node),
{
    let held = forest_get(forest, private_ref, blocks)->Ok_0->0;
    lemma_found_in_order(private_ref, forest, blocks, held);
    lemma_latest_is_held(held, forest, blocks, usize::MAX as nat, node);
    if node != held {
        let ratchet = choose|ratchet: skip_ratchet::Ratchet|
            forest_get(
                forest,
                private_ref_of(
                    #[trigger] crate::private::latest::header_at(held.header(), ratchet),
                ),
                blocks,
            ) == Ok::<Option<PrivateNodeModel>, FsError>(Some(node));
        lemma_found_in_order(
            private_ref_of(crate::private::latest::header_at(held.header(), ratchet)),
            forest,
            blocks,
            node,
        );
    }
}

/// A walk from a directory whose entries are in order comes to a
/// directory whose entries are in order; the steps it went through before
/// stay at the head of its path nodes, and the directory it started from
/// stands first where there were none.
pub proof fn lemma_walk_in_order(
    done: Seq<(PrivateDirModel, Name)>,
    dir: PrivateDirModel,
    rest: Seq<Name>,
    forest: ForestMap,
    blocks: Blocks,
)
    requires
        sorted(dir.entries),
        walk_from(done, dir, rest, forest, blocks) is Ok,
    ensures
        ({
            let p = walked(walk_from(done, dir, rest, forest, blocks)->Ok_0);
            &&& sorted(p.tail.entries)
            &&& p.path.len() >= done.len()
            &&& forall|i: int| 0 <= i < done.len() ==> p.path[i] == done[i]
            &&& done.len() == 0 ==> first_dir(p) == dir
        }),
    decreases rest.len(),
{
    if rest.len() > 0 {
        match child(dir, rest[0], forest, blocks) {
            Ok(Some(PrivateNodeModel::Dir(next))) => {
                lemma_child_in_order(dir, rest[0], forest, blocks, PrivateNodeModel::Dir(next));
                let further = done.push((dir, rest[0]));
                lemma_walk_in_order(further, next, rest.drop_first(), forest, blocks);
                let p = walked(walk_from(done, dir, rest, forest, blocks)->Ok_0);
                assert forall|i: int| 0 <= i < done.len() implies p.path[i] == done[i] by {
                    assert(p.path[i] == further[i]);
                }
                if done.len() == 0 {
                    assert(p.path[0] == further[0]);
                }
            },
            _ => {},
        }
    }
}

/// Building the tree anew along path nodes whose first directory has its
/// entries in order gives a root whose entries are in order.
pub proof fn lemma_fix_up_in_order(p: PrivatePathModel, time: Option<i64>, world: World)
    requires
        sorted(first_dir(p).entries),
        fix_up(p, time, world) is Ok,
    ensures
        sorted(fix_up(p, time, world)->Ok_0.0.entries),
    decreases p.path.len(),
{
    if p.path.len() > 0 {
        let tail = crate::private::path::touched(p.tail, time);
        let after = crate::private::ancestry::committed(PrivateNodeModel::Dir(tail), world)->Ok_0;
        let (dir, name) = p.path.last();
        let above = PrivateDirModel {
            entries: crate::assoc::put(dir.entries, name, private_ref_of(tail.header)),
            ..dir
        };
        let next = PrivatePathModel { path: p.path.drop_last(), tail: above };
        if p.path.len() == 1 {
            lemma_put_sorted(dir.entries, name, private_ref_of(tail.header));
        } else {
            assert(next.path[0] == p.path[0]);
        }
        lemma_fix_up_in_order(next, time, after);
    }
}

/// The path nodes that are found or made from a root whose entries are in
/// order have a first directory whose entries are in order.
pub proof fn lemma_get_or_create_in_order(
    root: PrivateDirModel,
    path: Seq<Name>,
    time: i64,
    forest: ForestMap,
    blocks: Blocks,
    entropy: Entropy,
)
    requires
        sorted(root.entries),
        get_or_create(root, path, time, forest, blocks, entropy) is Ok,
    ensures
        ({
            let p = get_or_create(root, path, time, forest, blocks, entropy)->Ok_0.0;
            sorted(first_dir(p).entries) && (p.path.len() == 0 ==> sorted(p.tail.entries))
        }),
{
    lemma_walk_in_order(Seq::empty(), root, path, forest, blocks);
    match walk(root, path, forest, blocks) {
        Ok(PrivateWalkModel::MissingLink(so_far, name)) => {
            let done = so_far.path.push((so_far.tail, name));
            let rest = path.subrange(so_far.path.len() as int + 1, path.len() as int);
            lemma_created_below(done, rest, so_far.tail.header.bare_name, time, entropy);
            let p = created_from(done, rest, so_far.tail.header.bare_name, time, entropy).0;
            assert(p.path[0] == done[0]);
            if so_far.path.len() > 0 {
                assert(done[0] == so_far.path[0]);
            }
        },
        _ => {},
    }
}

/// Writing a file into a tree whose root has its entries in order gives a
/// root whose entries are in order.
pub proof fn lemma_written_in_order(
    root: PrivateDirModel,
    path: Seq<Name>,
    content: Seq<u8>,
    time: i64,
    world: World,
)
    requires
        sorted(root.entries),
        written(root, path, content, time, world) is Ok,
    ensures
        sorted(written(root, path, content, time, world)->Ok_0.0.entries),
{
    lemma_get_or_create_in_order(
        root,
        path.drop_last(),
        time,
        world.forest,
        world.blocks,
        world.entropy,
    );
    let (p, entropy) = get_or_create(
        root,
        path.drop_last(),
        time,
        world.forest,
        world.blocks,
        world.entropy,
    )->Ok_0;
    match child(p.tail, path.last(), world.forest, world.blocks) {
        Ok(Some(PrivateNodeModel::File(file))) => {
            let next = crate::private::directory::rewritten(file, content, time);
            lemma_stored_file_in_order(p, path.last(), next, time, World { entropy, ..world });
        },
        Ok(None) => {
            let next = crate::private::directory::fresh_file(
                p.tail.header.bare_name,
                time,
                content,
                entropy,
            );
            lemma_stored_file_in_order(
                p,
                path.last(),
                next,
                time,
                World { entropy: entropy.advanced().advanced(), ..world },
            );
        },
        _ => {},
    }
}

/// Binding a stored file at the end of path nodes whose first directory
/// has its entries in order gives a root whose entries are in order.
pub proof fn lemma_stored_file_in_order(
    p: PrivatePathModel,
    name: Name,
    file: crate::private::node::PrivateFileModel,
    time: i64,
    world: World,
)
    requires
        sorted(first_dir(p).entries),
        p.path.len() == 0 ==> sorted(p.tail.entries),
        stored_file(p, name, file, time, world) is Ok,
    ensures
        sorted(stored_file(p, name, file, time, world)->Ok_0.0.entries),
{
    let after = crate::private::ancestry::committed(PrivateNodeModel::File(file), world)->Ok_0;
    let bound = with_child(p, name, private_ref_of(file.header));
    if p.path.len() == 0 {
        lemma_put_sorted(p.tail.entries, name, private_ref_of(file.header));
    } else {
        assert(bound.path[0] == p.path[0]);
    }
    lemma_fix_up_in_order(bound, Some(time), after);
}

/// Making directories in a tree whose root has its entries in order gives
/// a root whose entries are in order.
pub proof fn lemma_made_dir_in_order(root: PrivateDirModel, path: Seq<Name>, time: i64, world: World)
    requires
        sorted(root.entries),
        made_dir(root, path, time, world) is Ok,
    ensures
        sorted(made_dir(root, path, time, world)->Ok_0.0.entries),
{
    lemma_get_or_create_in_order(root, path, time, world.forest, world.blocks, world.entropy);
    let (p, entropy) = get_or_create(
        root,
        path,
        time,
        world.forest,
        world.blocks,
        world.entropy,
    )->Ok_0;
    lemma_fix_up_in_order(p, Some(time), World { entropy, ..world });
}

/// Removing an entry from a tree whose root has its entries in order
/// gives a root whose entries are in order, and a node whose entries are.
pub proof fn lemma_removed_in_order(root: PrivateDirModel, path: Seq<Name>, world: World)
    requires
        sorted(root.entries),
        removed(root, path, world) is Ok,
    ensures
        sorted(removed(root, path, world)->Ok_0.0.entries),
        in_order(removed(root, path, world)->Ok_0.1),
{
    lemma_walk_in_order(Seq::empty(), root, path.drop_last(), world.forest, world.blocks);
    let p = walked(walk(root, path.drop_last(), world.forest, world.blocks)->Ok_0);
    let node = child(p.tail, path.last(), world.forest, world.blocks)->Ok_0->0;
    lemma_child_in_order(p.tail, path.last(), world.forest, world.blocks, node);
    let cut = without_child(p, path.last());
    if p.path.len() == 0 {
        lemma_delete_sorted(p.tail.entries, path.last());
    } else {
        assert(cut.path[0] == p.path[0]);
    }
    lemma_fix_up_in_order(cut, None, world);
}

/// Moving a node within a tree whose root has its entries in order gives
/// a root whose entries are in order.
pub proof fn lemma_moved_in_order(
    root: PrivateDirModel,
    from: Seq<Name>,
    to: Seq<Name>,
    time: i64,
    world: World,
)
    requires
        sorted(root.entries),
        moved(root, from, to, time, world) is Ok,
    ensures
        sorted(moved(root, from, to, time, world)->Ok_0.0.entries),
{
    lemma_removed_in_order(root, from, world);
    let (without, node, taken) = removed(root, from, world)->Ok_0;
    lemma_walk_in_order(Seq::empty(), without, to.drop_last(), taken.forest, taken.blocks);
    let p = walked(walk(without, to.drop_last(), taken.forest, taken.blocks)->Ok_0);
    let (arrived, stored) = rebased(
        node.with_mtime(time),
        p.tail.header.bare_name,
        taken,
        usize::MAX as nat,
    )->Ok_0;
    let forest = forgotten(node, stored.forest, stored.blocks, usize::MAX as nat)->Ok_0;
    let bound = with_child(p, to.last(), private_ref_of(arrived.header()));
    if p.path.len() == 0 {
        lemma_put_sorted(p.tail.entries, to.last(), private_ref_of(arrived.header()));
    } else {
        assert(bound.path[0] == p.path[0]);
    }
    lemma_fix_up_in_order(bound, Some(time), World { forest, ..stored });
}

/// What is listed has the names of the entries that were to be listed,
/// after the names that were listed before, in their order.
pub proof fn lemma_listed_names(
    todo: Seq<(Name, PrivateRef)>,
    done: Seq<(Name, Metadata)>,
    forest: ForestMap,
    blocks: Blocks,
)
    requires
        listed(todo, done, forest, blocks) is Ok,
    ensures
        names(listed(todo, done, forest, blocks)->Ok_0) == names(done) + names(todo),
    decreases todo.len(),
{
    if todo.len() == 0 {
        assert(names(done) + names(todo) =~= names(done));
    } else {
        let node = resolved(todo[0].1, forest, blocks)->Ok_0->0;
        let next = done.push((todo[0].0, node.metadata()));
        lemma_listed_names(todo.drop_first(), next, forest, blocks);
        assert(names(next) + names(todo.drop_first()) =~= names(done) + names(todo));
    }
}

/// The listing of a directory in a tree whose root has its entries in
/// order is in the order of the names.
pub proof fn lemma_listing_in_order(
    root: PrivateDirModel,
    path: Seq<Name>,
    forest: ForestMap,
    blocks: Blocks,
)
    requires
        sorted(root.entries),
        listing(root, path, forest, blocks) is Ok,
    ensures
        sorted(listing(root, path, forest, blocks)->Ok_0),
{
    lemma_walk_in_order(Seq::empty(), root, path, forest, blocks);
    let p = walked(walk(root, path, forest, blocks)->Ok_0);
    lemma_listed_names(p.tail.entries, Seq::empty(), forest, blocks);
    let out = listing(root, path, forest, blocks)->Ok_0;
    assert(names(Seq::<(Name, Metadata)>::empty()) + names(p.tail.entries) =~= names(
        p.tail.entries,
    ));
    lemma_sorted_by_names(out, p.tail.entries);
}

} // verus!
