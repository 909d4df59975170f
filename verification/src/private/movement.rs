//! Moving a node of the private tree: the node leaves its directory, the
//! subtree below it gets a new ancestry, the index entries of its old
//! versions are dropped, and the node is bound in its new directory.

use vstd::prelude::*;
use std::rc::Rc;
use crate::assoc::{find, sorted, Name};
use crate::private::in_order::lemma_moved_in_order;
use crate::entries::{entries_view, insert_entry};
use crate::error::{store_failed, FsError};
use crate::private::ancestry::{rebased, world_of, World};
use crate::private::directory::{removed, with_child, PrivateOpResult};
use crate::private::entropy::Entropy;
use crate::private::forest::{forest_get, ForestMap, PrivateForest};
use crate::private::node::{
    private_ref_of, refs_view, PrivateDirModel, PrivateDirectory, PrivateNode, PrivateNodeModel,
    PrivateRef,
};
use crate::private::path::{
    first_is_held, fix_up, walk, PrivatePathNodes, PrivatePathNodesResult, PrivateWalkModel,
};
use crate::public::directory::{lemma_path_view_drop_last, split_last};
use crate::public::node::path_view;
use crate::store::{BlockStore, Blocks};

verus! {

/// The forest without the index entries of a node and of every node below
/// it. `fuel` bounds how many directories deep the subtree is followed.
pub open spec fn forgotten(node: PrivateNodeModel, forest: ForestMap, blocks: Blocks, fuel: nat)
    -> Result<ForestMap, FsError>
    decreases fuel, 0nat, 0nat,
{
    if fuel == 0 {
        Err(FsError::UnexpectedNodeType)
    } else {
        match node {
            PrivateNodeModel::File(file) => Ok(
                forest.remove(private_ref_of(file.header).saturated_name_hash),
            ),
            PrivateNodeModel::Dir(dir) => match forgotten_entries(
                dir.entries,
                forest,
                blocks,
                (fuel - 1) as nat,
            ) {
                Err(e) => Err(e),
                Ok(below) => Ok(below.remove(private_ref_of(dir.header).saturated_name_hash)),
            },
        }
    }
}

/// The forest without the index entries of the nodes that the entries
/// `todo` lead to and of every node below them. An entry whose node the
/// forest does not hold is passed over.
pub open spec fn forgotten_entries(
    todo: Seq<(Name, PrivateRef)>,
    forest: ForestMap,
    blocks: Blocks,
    fuel: nat,
) -> Result<ForestMap, FsError>
    decreases fuel, 1nat, todo.len(),
{
    if todo.len() == 0 {
        Ok(forest)
    } else {
        match forest_get(forest, todo[0].1, blocks) {
            Err(e) => Err(e),
            Ok(None) => forgotten_entries(todo.subrange(1, todo.len() as int), forest, blocks, fuel),
            Ok(Some(child)) => match forgotten(child, forest, blocks, fuel) {
                Err(e) => Err(e),
                Ok(after) => forgotten_entries(
                    todo.subrange(1, todo.len() as int),
                    after,
                    blocks,
                    fuel,
                ),
            },
        }
    }
}

/// The tree and the world after the node at `from` is moved to `to`: the
/// node leaves its directory; with its modification time set, it and every
/// node below it get their ancestry from the directory that `to` names
/// and are stored anew; the index entries of the subtree as it was are
/// dropped; and the node is bound to the last segment of `to`.
pub open spec fn moved(
    root: PrivateDirModel,
    from: Seq<Name>,
    to: Seq<Name>,
    time: i64,
    world: World,
) -> Result<(PrivateDirModel, World), FsError> {
    if to.len() == 0 {
        Err(FsError::InvalidPath)
    } else {
        match removed(root, from, world) {
            Err(e) => Err(e),
            Ok((without, node, taken)) => match walk(
                without,
                to.drop_last(),
                taken.forest,
                taken.blocks,
            ) {
                Err(e) => Err(e),
                Ok(PrivateWalkModel::MissingLink(_, _)) => Err(FsError::NotFound),
                Ok(PrivateWalkModel::NotADirectory(_, _)) => Err(FsError::NotADirectory),
                Ok(PrivateWalkModel::Complete(p)) => if find(p.tail.entries, to.last()) is Some {
                    Err(FsError::FileAlreadyExists)
                } else {
                    match rebased(
                        node.with_mtime(time),
                        p.tail.header.bare_name,
                        taken,
                        usize::MAX as nat,
                    ) {
                        Err(e) => Err(e),
                        Ok((arrived, stored)) => match forgotten(
                            node,
                            stored.forest,
                            stored.blocks,
                            usize::MAX as nat,
                        ) {
                            Err(e) => Err(e),
                            Ok(forest) => fix_up(
                                with_child(p, to.last(), private_ref_of(arrived.header())),
                                Some(time),
                                World { forest, ..stored },
                            ),
                        },
                    }
                },
            },
        }
    }
}

/// A forest result as contracts see it.
pub open spec fn forest_result(r: Result<Rc<PrivateForest>, FsError>) -> Result<
    ForestMap,
    FsError,
> {
    match r {
        Ok(forest) => Ok(forest@),
        Err(e) => Err(e),
    }
}

/// Drops the index entries of a node and of every node below it from the
/// forest. The blocks stay in the store. `fuel` bounds how many
/// directories deep the subtree is followed.
pub fn forget<B: BlockStore>(node: &PrivateNode, forest: Rc<PrivateForest>, store: &mut B, fuel: usize)
    -> (r: Result<Rc<PrivateForest>, FsError>)
    requires
        forest.wf(),
    ensures
        final(store).reliable() == old(store).reliable(),
        final(store).blocks() == old(store).blocks(),
        r matches Ok(after) ==> after.wf(),
        forest_result(r) == forgotten(node.model(), forest@, old(store).blocks(), fuel as nat) || (
        store_failed(r) && !old(store).reliable()),
    decreases fuel, 0nat, 0nat,
{
    if fuel == 0 {
        return Err(FsError::UnexpectedNodeType);
    }
    let below = match node {
        PrivateNode::File(_) => forest,
        PrivateNode::Dir(dir) => forget_children(&dir.entries, forest, store, fuel - 1)?,
    };
    let private_ref = node.get_header().get_private_ref()?;
    let (after, _) = below.remove_encrypted(&private_ref.saturated_name_hash, store)?;
    Ok(after)
}

/// Drops the index entries of the nodes that the entries lead to and of
/// every node below them.
fn forget_children<B: BlockStore>(
    todo: &Vec<(String, PrivateRef)>,
    forest: Rc<PrivateForest>,
    store: &mut B,
    fuel: usize,
) -> (r: Result<Rc<PrivateForest>, FsError>)
    requires
        forest.wf(),
    ensures
        final(store).reliable() == old(store).reliable(),
        final(store).blocks() == old(store).blocks(),
        r matches Ok(after) ==> after.wf(),
        forest_result(r) == forgotten_entries(
            refs_view(todo@),
            forest@,
            old(store).blocks(),
            fuel as nat,
        ) || (store_failed(r) && !old(store).reliable()),
    decreases fuel, 1nat, todo.len(),
{
    let ghost all = refs_view(todo@);
    let ghost goal = forgotten_entries(all, forest@, store.blocks(), fuel as nat);
    let mut working = forest;
    let mut i: usize = 0;
    proof {
        assert(all.subrange(0, all.len() as int) =~= all);
    }
    while i < todo.len()
        invariant
            i <= todo.len(),
            all == refs_view(todo@),
            working.wf(),
            store.reliable() == old(store).reliable(),
            store.blocks() == old(store).blocks(),
            goal == forgotten_entries(all, forest@, old(store).blocks(), fuel as nat),
            goal == forgotten_entries(
                all.subrange(i as int, all.len() as int),
                working@,
                store.blocks(),
                fuel as nat,
            ),
        decreases todo.len() - i,
    {
        let ghost rest = all.subrange(i as int, all.len() as int);
        proof {
            assert(rest[0] == all[i as int]);
            assert(rest.subrange(1, rest.len() as int) =~= all.subrange(i + 1, all.len() as int));
        }
        match working.get(&todo[i].1, store)? {
            Some(node) => {
                working = forget(&node, working, store, fuel)?;
            },
            None => {},
        }
        i += 1;
    }
    Ok(working)
}

impl PrivateDirectory {
    /// Moves the node at `path_segments_from` to `path_segments_to`, with
    /// random values drawn from `entropy`.
    pub fn basic_mv<B: BlockStore>(
        self: Rc<Self>,
        path_segments_from: &[String],
        path_segments_to: &[String],
        time: i64,
        forest: Rc<PrivateForest>,
        store: &mut B,
        entropy: &mut Entropy,
    ) -> (r: Result<PrivateOpResult<()>, FsError>)
        requires
            forest.wf(),
        ensures
            final(store).reliable() == old(store).reliable(),
            sorted(self.model().entries) && r is Ok ==> sorted(r->Ok_0.root_dir.model().entries),
            store_failed(r) && !old(store).reliable() && first_is_held(
                self.model(),
                path_view(path_segments_from@),
                forest@,
            ) && path_segments_to@.len() > 0 || match r {
                Ok(op) => op.forest.wf() && moved(
                    self.model(),
                    path_view(path_segments_from@),
                    path_view(path_segments_to@),
                    time,
                    world_of(&forest, old(store), *old(entropy)),
                ) == Ok::<(PrivateDirModel, World), FsError>(
                    (op.root_dir.model(), world_of(&op.forest, final(store), *final(entropy))),
                ),
                Err(e) => moved(
                    self.model(),
                    path_view(path_segments_from@),
                    path_view(path_segments_to@),
                    time,
                    world_of(&forest, old(store), *old(entropy)),
                ) == Err::<(PrivateDirModel, World), FsError>(e),
            },
    {
        let ghost start = world_of(&forest, store, *entropy);
        let (directory_path, name) = split_last(path_segments_to)?;
        proof {
            lemma_path_view_drop_last(path_segments_to@);
        }
        let taken = self.rm(path_segments_from, forest, store, entropy)?;
        let PrivateOpResult { root_dir, forest, result: removed_node } = taken;
        let path_nodes = match root_dir.get_path_nodes(directory_path, &forest, store)? {
            PrivatePathNodesResult::Complete(path_nodes) => path_nodes,
            PrivatePathNodesResult::MissingLink(_, _) => {
                return Err(FsError::NotFound);
            },
            PrivatePathNodesResult::NotADirectory(_, _) => {
                return Err(FsError::NotADirectory);
            },
        };
        let ghost nodes_before = path_nodes.model();
        let PrivatePathNodes { path, tail } = path_nodes;
        if tail.lookup(name.as_str()).is_some() {
            return Err(FsError::FileAlreadyExists);
        }
        let mut arrived = removed_node.upsert_mtime(time);
        let forest = arrived.update_ancestry_within(
            tail.header.bare_name,
            forest,
            store,
            entropy,
            usize::MAX,
        )?;
        let forest = forget(&removed_node, forest, store, usize::MAX)?;
        let child_ref = arrived.get_header().get_private_ref()?;
        let mut directory = tail.copy();
        proof {
            assert(refs_view(directory.entries@) =~= entries_view(directory.entries@));
        }
        insert_entry(&mut directory.entries, name.clone(), child_ref);
        proof {
            assert(refs_view(directory.entries@) =~= entries_view(directory.entries@));
        }
        let nodes = PrivatePathNodes { path, tail: Rc::new(directory) };
        proof {
            assert(nodes.model() == with_child(nodes_before, name@, child_ref));
        }
        let (root_dir, forest) = Self::fix_up_path_nodes(nodes, Some(time), forest, store, entropy)?;
        proof {
            if sorted(self.model().entries) {
                lemma_moved_in_order(
                    self.model(),
                    path_view(path_segments_from@),
                    path_view(path_segments_to@),
                    time,
                    start,
                );
            }
        }
        Ok(PrivateOpResult { root_dir, forest, result: () })
    }
}

} // verus!
