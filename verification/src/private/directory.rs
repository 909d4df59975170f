//! The operations of a private directory: looking nodes up, reading,
//! listing, writing, making directories and removing. Each operation that
//! changes the tree gives a new root and a new forest and leaves the old
//! ones as they were.

use vstd::prelude::*;
use std::rc::Rc;
use crate::assoc::{delete, put, sorted, Name};
use crate::private::in_order::{
    lemma_listing_in_order, lemma_made_dir_in_order, lemma_removed_in_order,
    lemma_written_in_order,
};
use crate::entries::{entries_view, insert_entry, remove_entry};
use crate::error::{store_failed, FsError};
use crate::metadata::{Metadata, UnixFsNodeKind};
use crate::private::ancestry::{commit, committed, world_of, World};
use crate::private::entropy::Entropy;
use crate::private::forest::{ForestMap, PrivateForest};
use crate::private::latest::header_at;
use crate::private::namefilter::Namefilter;
use crate::private::node::{
    private_ref_of, private_version, refs_view, PrivateDirModel, PrivateDirectory, PrivateFile,
    PrivateFileModel, PrivateNode, PrivateNodeModel, PrivateRef,
};
use crate::private::path::{
    child, first_is_held, fix_up, fresh_header, get_or_create, lemma_fresh_header, resolve_ref,
    resolved, walk, PrivatePathModel, PrivatePathNodes, PrivatePathNodesResult, PrivateWalkModel,
};
use crate::private::ratchet::ratchet_next;
use crate::public::directory::{lemma_path_view_drop_last, listing_view, split_last};
use crate::public::node::path_view;
use crate::store::{BlockStore, Blocks};

verus! {

/// What an operation on a private directory gives: the root of the tree
/// and the forest after the operation, and the result of the operation.
#[derive(Debug, PartialEq)]
pub struct PrivateOpResult<T> {
    pub root_dir: Rc<PrivateDirectory>,
    pub forest: Rc<PrivateForest>,
    pub result: T,
}

impl PrivateNodeModel {
    /// The metadata of the node.
    pub open spec fn metadata(self) -> Metadata {
        match self {
            PrivateNodeModel::File(f) => f.metadata,
            PrivateNodeModel::Dir(d) => d.metadata,
        }
    }
}

/// A node that may be there, as contracts see it.
pub open spec fn option_node_model(node: Option<PrivateNode>) -> Option<PrivateNodeModel> {
    match node {
        Some(node) => Some(node.model()),
        None => None,
    }
}

/// The node at the end of `path`: the root for the empty path, else the
/// child that the last segment names in the directory that the segments
/// before it lead to.
pub open spec fn node_at(root: PrivateDirModel, path: Seq<Name>, forest: ForestMap, blocks: Blocks)
    -> Result<Option<PrivateNodeModel>, FsError> {
    if path.len() == 0 {
        Ok(Some(PrivateNodeModel::Dir(root)))
    } else {
        match walk(root, path.drop_last(), forest, blocks) {
            Err(e) => Err(e),
            Ok(PrivateWalkModel::MissingLink(_, _)) => Err(FsError::NotFound),
            Ok(PrivateWalkModel::NotADirectory(_, _)) => Err(FsError::NotADirectory),
            Ok(PrivateWalkModel::Complete(p)) => child(p.tail, path.last(), forest, blocks),
        }
    }
}

/// The content of the file at the end of `path`.
pub open spec fn content_at(
    root: PrivateDirModel,
    path: Seq<Name>,
    forest: ForestMap,
    blocks: Blocks,
) -> Result<Seq<u8>, FsError> {
    if path.len() == 0 {
        Err(FsError::InvalidPath)
    } else {
        match node_at(root, path, forest, blocks) {
            Err(e) => Err(e),
            Ok(None) => Err(FsError::NotFound),
            Ok(Some(PrivateNodeModel::Dir(_))) => Err(FsError::NotAFile),
            Ok(Some(PrivateNodeModel::File(file))) => Ok(file.content),
        }
    }
}

/// The names in `done`, then the name of each entry of `todo` with the
/// metadata of the latest version of its node.
pub open spec fn listed(
    todo: Seq<(Name, PrivateRef)>,
    done: Seq<(Name, Metadata)>,
    forest: ForestMap,
    blocks: Blocks,
) -> Result<Seq<(Name, Metadata)>, FsError>
    decreases todo.len(),
{
    if todo.len() == 0 {
        Ok(done)
    } else {
        match resolved(todo[0].1, forest, blocks) {
            Err(e) => Err(e),
            Ok(None) => Err(FsError::NotFound),
            Ok(Some(node)) => listed(
                todo.drop_first(),
                done.push((todo[0].0, node.metadata())),
                forest,
                blocks,
            ),
        }
    }
}

/// The names in the directory at the end of `path`, each with the
/// metadata of the latest version of its node.
pub open spec fn listing(root: PrivateDirModel, path: Seq<Name>, forest: ForestMap, blocks: Blocks)
    -> Result<Seq<(Name, Metadata)>, FsError> {
    match walk(root, path, forest, blocks) {
        Err(e) => Err(e),
        Ok(PrivateWalkModel::MissingLink(_, _)) => Err(FsError::NotFound),
        Ok(PrivateWalkModel::NotADirectory(_, _)) => Err(FsError::NotADirectory),
        Ok(PrivateWalkModel::Complete(p)) => listed(p.tail.entries, Seq::empty(), forest, blocks),
    }
}

/// A new file below a parent with the bare name `parent`.
pub open spec fn fresh_file(parent: Namefilter, time: i64, content: Seq<u8>, entropy: Entropy)
    -> PrivateFileModel {
    PrivateFileModel {
        version: private_version(),
        header: fresh_header(parent, entropy),
        metadata: Metadata::created_at(time, UnixFsNodeKind::File),
        content,
    }
}

/// The next version of a file, with new content.
pub open spec fn rewritten(file: PrivateFileModel, content: Seq<u8>, time: i64)
    -> PrivateFileModel {
    PrivateFileModel {
        header: header_at(file.header, ratchet_next(file.header.ratchet)),
        metadata: file.metadata.with_mtime(time),
        content,
        ..file
    }
}

/// The path nodes with `private_ref` bound to `name` in the tail.
pub open spec fn with_child(p: PrivatePathModel, name: Name, private_ref: PrivateRef)
    -> PrivatePathModel {
    PrivatePathModel {
        path: p.path,
        tail: PrivateDirModel { entries: put(p.tail.entries, name, private_ref), ..p.tail },
    }
}

/// The path nodes without an entry for `name` in the tail.
pub open spec fn without_child(p: PrivatePathModel, name: Name) -> PrivatePathModel {
    PrivatePathModel {
        path: p.path,
        tail: PrivateDirModel { entries: delete(p.tail.entries, name), ..p.tail },
    }
}

/// The tree and the world after a file is stored and bound to `name` at
/// the end of the path nodes.
pub open spec fn stored_file(
    p: PrivatePathModel,
    name: Name,
    file: PrivateFileModel,
    time: i64,
    world: World,
) -> Result<(PrivateDirModel, World), FsError> {
    match committed(PrivateNodeModel::File(file), world) {
        Err(e) => Err(e),
        Ok(after) => fix_up(with_child(p, name, private_ref_of(file.header)), Some(time), after),
    }
}

/// The tree and the world after `content` is written to the file at the
/// end of `path`: directories that are missing on the way are made, a file
/// that is there gets its next version, and one that is not is made.
pub open spec fn written(
    root: PrivateDirModel,
    path: Seq<Name>,
    content: Seq<u8>,
    time: i64,
    world: World,
) -> Result<(PrivateDirModel, World), FsError> {
    if path.len() == 0 {
        Err(FsError::InvalidPath)
    } else {
        match get_or_create(
            root,
            path.drop_last(),
            time,
            world.forest,
            world.blocks,
            world.entropy,
        ) {
            Err(e) => Err(e),
            Ok((p, entropy)) => match child(p.tail, path.last(), world.forest, world.blocks) {
                Err(e) => Err(e),
                Ok(Some(PrivateNodeModel::Dir(_))) => Err(FsError::DirectoryAlreadyExists),
                Ok(Some(PrivateNodeModel::File(file))) => stored_file(
                    p,
                    path.last(),
                    rewritten(file, content, time),
                    time,
                    World { entropy, ..world },
                ),
                Ok(None) => stored_file(
                    p,
                    path.last(),
                    fresh_file(p.tail.header.bare_name, time, content, entropy),
                    time,
                    World { entropy: entropy.advanced().advanced(), ..world },
                ),
            },
        }
    }
}

/// The tree and the world after the directories along `path` that are
/// missing are made.
pub open spec fn made_dir(root: PrivateDirModel, path: Seq<Name>, time: i64, world: World)
    -> Result<(PrivateDirModel, World), FsError> {
    match get_or_create(root, path, time, world.forest, world.blocks, world.entropy) {
        Err(e) => Err(e),
        Ok((p, entropy)) => fix_up(p, Some(time), World { entropy, ..world }),
    }
}

/// The tree, the node that was taken out and the world after the entry at
/// the end of `path` is removed from its directory. The forest keeps the
/// node.
pub open spec fn removed(root: PrivateDirModel, path: Seq<Name>, world: World) -> Result<
    (PrivateDirModel, PrivateNodeModel, World),
    FsError,
> {
    if path.len() == 0 {
        Err(FsError::InvalidPath)
    } else {
        match walk(root, path.drop_last(), world.forest, world.blocks) {
            Err(e) => Err(e),
            Ok(PrivateWalkModel::MissingLink(_, _)) => Err(FsError::NotFound),
            Ok(PrivateWalkModel::NotADirectory(_, _)) => Err(FsError::NotADirectory),
            Ok(PrivateWalkModel::Complete(p)) => match child(
                p.tail,
                path.last(),
                world.forest,
                world.blocks,
            ) {
                Err(e) => Err(e),
                Ok(None) => Err(FsError::NotFound),
                Ok(Some(node)) => match fix_up(without_child(p, path.last()), None, world) {
                    Err(e) => Err(e),
                    Ok((root, after)) => Ok((root, node, after)),
                },
            },
        }
    }
}

impl PrivateNode {
    /// Gets the metadata of the node.
    pub fn get_metadata(&self) -> (r: Metadata)
        ensures
            r == self.model().metadata(),
    {
        match self {
            PrivateNode::File(file) => file.metadata,
            PrivateNode::Dir(dir) => dir.metadata,
        }
    }
}

/// Whether the forest holds a block for one of the children of a
/// directory.
pub open spec fn holds_child(dir: PrivateDirModel, forest: ForestMap) -> bool {
    exists|i: int|
        0 <= i < dir.entries.len() && forest.contains_key(
            (#[trigger] dir.entries[i]).1.saturated_name_hash,
        )
}

/// Whether listing the directory at `path` has a block to read: the
/// forest holds one for the child that the first segment names, or, for
/// the directory itself, one for any of its children.
pub open spec fn listing_reads(dir: PrivateDirModel, path: Seq<Name>, forest: ForestMap) -> bool {
    if path.len() == 0 {
        holds_child(dir, forest)
    } else {
        first_is_held(dir, path, forest)
    }
}

impl PrivateDirectory {
    /// Follows `path_segments` and gets the latest version of the node at
    /// their end.
    pub fn get_node<B: BlockStore>(
        self: Rc<Self>,
        path_segments: &[String],
        forest: Rc<PrivateForest>,
        store: &B,
    ) -> (r: Result<PrivateOpResult<Option<PrivateNode>>, FsError>)
        ensures
            store_failed(r) && !store.reliable() && first_is_held(
                self.model(),
                path_view(path_segments@),
                forest@,
            ) || match r {
                Ok(op) => op.root_dir.model() == self.model() && op.forest@ == forest@ && node_at(
                    self.model(),
                    path_view(path_segments@),
                    forest@,
                    store.blocks(),
                ) == Ok::<Option<PrivateNodeModel>, FsError>(option_node_model(op.result)),
                Err(e) => node_at(self.model(), path_view(path_segments@), forest@, store.blocks())
                    == Err::<Option<PrivateNodeModel>, FsError>(e),
            },
    {
        let root_dir = Rc::clone(&self);
        if path_segments.len() == 0 {
            proof {
                assert(path_view(path_segments@).len() == 0);
            }
            return Ok(PrivateOpResult { root_dir, forest, result: Some(PrivateNode::Dir(self)) });
        }
        let (parent_path, path_segment) = split_last(path_segments)?;
        proof {
            lemma_path_view_drop_last(path_segments@);
        }
        match self.get_path_nodes(parent_path, &forest, store)? {
            PrivatePathNodesResult::Complete(parent_path_nodes) => {
                let result = parent_path_nodes.tail.lookup_node(
                    path_segment.as_str(),
                    &forest,
                    store,
                )?;
                Ok(PrivateOpResult { root_dir, forest, result })
            },
            PrivatePathNodesResult::MissingLink(_, _) => Err(FsError::NotFound),
            PrivatePathNodesResult::NotADirectory(_, _) => Err(FsError::NotADirectory),
        }
    }

    /// Reads the content of the file at `path_segments`.
    pub fn read<B: BlockStore>(
        self: Rc<Self>,
        path_segments: &[String],
        forest: Rc<PrivateForest>,
        store: &B,
    ) -> (r: Result<PrivateOpResult<Vec<u8>>, FsError>)
        ensures
            store_failed(r) && !store.reliable() && first_is_held(
                self.model(),
                path_view(path_segments@),
                forest@,
            ) || match r {
                Ok(op) => op.root_dir.model() == self.model() && op.forest@ == forest@
                    && content_at(self.model(), path_view(path_segments@), forest@, store.blocks())
                    == Ok::<Seq<u8>, FsError>(op.result@),
                Err(e) => content_at(
                    self.model(),
                    path_view(path_segments@),
                    forest@,
                    store.blocks(),
                ) == Err::<Seq<u8>, FsError>(e),
            },
    {
        if path_segments.len() == 0 {
            proof {
                assert(path_view(path_segments@).len() == 0);
            }
            return Err(FsError::InvalidPath);
        }
        let found = self.get_node(path_segments, forest, store)?;
        let PrivateOpResult { root_dir, forest, result } = found;
        match result {
            Some(PrivateNode::File(file)) => Ok(
                PrivateOpResult { root_dir, forest, result: file.content.clone() },
            ),
            Some(PrivateNode::Dir(_)) => Err(FsError::NotAFile),
            None => Err(FsError::NotFound),
        }
    }

    /// Lists the names in the directory at `path_segments`, each with the
    /// metadata of the latest version of its node.
    pub fn ls<B: BlockStore>(
        self: Rc<Self>,
        path_segments: &[String],
        forest: Rc<PrivateForest>,
        store: &B,
    ) -> (r: Result<PrivateOpResult<Vec<(String, Metadata)>>, FsError>)
        ensures
            sorted(self.model().entries) && r is Ok ==> sorted(listing_view(r->Ok_0.result@)),
            store_failed(r) && !store.reliable() && listing_reads(
                self.model(),
                path_view(path_segments@),
                forest@,
            ) || match r {
                Ok(op) => op.root_dir.model() == self.model() && op.forest@ == forest@ && listing(
                    self.model(),
                    path_view(path_segments@),
                    forest@,
                    store.blocks(),
                ) == Ok::<Seq<(Name, Metadata)>, FsError>(listing_view(op.result@)),
                Err(e) => listing(self.model(), path_view(path_segments@), forest@, store.blocks())
                    == Err::<Seq<(Name, Metadata)>, FsError>(e),
            },
    {
        let root_dir = Rc::clone(&self);
        let tail = match self.get_path_nodes(path_segments, &forest, store)? {
            PrivatePathNodesResult::Complete(path_nodes) => path_nodes.tail,
            PrivatePathNodesResult::MissingLink(_, _) => {
                return Err(FsError::NotFound);
            },
            PrivatePathNodesResult::NotADirectory(_, _) => {
                return Err(FsError::NotADirectory);
            },
        };
        let ghost all = tail.model().entries;
        let ghost goal = listed(all, Seq::empty(), forest@, store.blocks());
        let ghost reads = listing_reads(self.model(), path_view(path_segments@), forest@);
        let mut result: Vec<(String, Metadata)> = Vec::new();
        let mut i: usize = 0;
        proof {
            assert(all.subrange(0, all.len() as int) =~= all);
            assert(listing_view(result@) =~= Seq::empty());
        }
        while i < tail.entries.len()
            invariant
                i <= tail.entries.len(),
                all == tail.model().entries,
                reads == listing_reads(self.model(), path_view(path_segments@), forest@),
                reads || !holds_child(tail.model(), forest@),
                goal == listing(self.model(), path_view(path_segments@), forest@, store.blocks()),
                goal == listed(
                    all.subrange(i as int, all.len() as int),
                    listing_view(result@),
                    forest@,
                    store.blocks(),
                ),
            decreases tail.entries.len() - i,
        {
            let ghost rest = all.subrange(i as int, all.len() as int);
            let ghost done = listing_view(result@);
            proof {
                assert(rest[0] == all[i as int]);
                assert(rest.drop_first() =~= all.subrange(i + 1, all.len() as int));
            }
            let node = match resolve_ref(&tail.entries[i].1, &forest, store)? {
                Some(node) => node,
                None => {
                    return Err(FsError::NotFound);
                },
            };
            result.push((tail.entries[i].0.clone(), node.get_metadata()));
            proof {
                assert(listing_view(result@) =~= done.push((rest[0].0, node.model().metadata())));
            }
            i += 1;
        }
        proof {
            if sorted(self.model().entries) {
                lemma_listing_in_order(
                    self.model(),
                    path_view(path_segments@),
                    forest@,
                    store.blocks(),
                );
            }
        }
        Ok(PrivateOpResult { root_dir, forest, result })
    }

    /// Writes `content` to the file at `path_segments`, with random values
    /// drawn from `entropy`. Directories that are missing on the way are
    /// made; a file that is there gets its next version.
    pub fn write<B: BlockStore>(
        self: Rc<Self>,
        path_segments: &[String],
        time: i64,
        content: Vec<u8>,
        forest: Rc<PrivateForest>,
        store: &mut B,
        entropy: &mut Entropy,
    ) -> (r: Result<PrivateOpResult<()>, FsError>)
        requires
            forest.wf(),
        ensures
            final(store).reliable() == old(store).reliable(),
            sorted(self.model().entries) && r is Ok ==> sorted(r->Ok_0.root_dir.model().entries),
            store_failed(r) && !old(store).reliable() && path_segments@.len() > 0 || match r {
                Ok(op) => op.forest.wf() && written(
                    self.model(),
                    path_view(path_segments@),
                    content@,
                    time,
                    world_of(&forest, old(store), *old(entropy)),
                ) == Ok::<(PrivateDirModel, World), FsError>(
                    (op.root_dir.model(), world_of(&op.forest, final(store), *final(entropy))),
                ),
                Err(e) => written(
                    self.model(),
                    path_view(path_segments@),
                    content@,
                    time,
                    world_of(&forest, old(store), *old(entropy)),
                ) == Err::<(PrivateDirModel, World), FsError>(e),
            },
    {
        let ghost start = world_of(&forest, store, *entropy);
        let ghost bytes = content@;
        let (directory_path, filename) = split_last(path_segments)?;
        proof {
            lemma_path_view_drop_last(path_segments@);
        }
        let path_nodes = self.get_or_create_path_nodes(
            directory_path,
            time,
            &forest,
            store,
            entropy,
        )?;
        let ghost nodes_before = path_nodes.model();
        let ghost entropy_before = *entropy;
        let PrivatePathNodes { path, tail } = path_nodes;
        let file = match tail.lookup_node(filename.as_str(), &forest, store)? {
            Some(PrivateNode::File(file_before)) => {
                let mut file = file_before.copy();
                file.content = content;
                file.metadata.upsert_mtime(time);
                file.header.advance_ratchet();
                file
            },
            Some(PrivateNode::Dir(_)) => {
                return Err(FsError::DirectoryAlreadyExists);
            },
            None => {
                let file = PrivateFile::new(tail.header.bare_name, time, content, entropy);
                proof {
                    lemma_fresh_header(file.header, tail.header.bare_name, entropy_before);
                }
                file
            },
        };
        let child_ref = file.header.get_private_ref()?;
        let node = PrivateNode::File(Rc::new(file));
        let forest = commit(&node, forest, store, entropy)?;
        let mut directory = tail.copy();
        proof {
            assert(refs_view(directory.entries@) =~= entries_view(directory.entries@));
        }
        insert_entry(&mut directory.entries, filename.clone(), child_ref);
        proof {
            assert(refs_view(directory.entries@) =~= entries_view(directory.entries@));
        }
        let nodes = PrivatePathNodes { path, tail: Rc::new(directory) };
        proof {
            assert(nodes.model() == with_child(nodes_before, filename@, child_ref));
        }
        let (root_dir, forest) = Self::fix_up_path_nodes(nodes, Some(time), forest, store, entropy)?;
        proof {
            if sorted(self.model().entries) {
                lemma_written_in_order(
                    self.model(),
                    path_view(path_segments@),
                    bytes,
                    time,
                    start,
                );
            }
        }
        Ok(PrivateOpResult { root_dir, forest, result: () })
    }

    /// Makes a directory at `path_segments`, and the directories on the way
    /// that do not exist yet, with random values drawn from `entropy`.
    pub fn mkdir<B: BlockStore>(
        self: Rc<Self>,
        path_segments: &[String],
        time: i64,
        forest: Rc<PrivateForest>,
        store: &mut B,
        entropy: &mut Entropy,
    ) -> (r: Result<PrivateOpResult<()>, FsError>)
        requires
            forest.wf(),
        ensures
            final(store).reliable() == old(store).reliable(),
            sorted(self.model().entries) && r is Ok ==> sorted(r->Ok_0.root_dir.model().entries),
            store_failed(r) && !old(store).reliable() || match r {
                Ok(op) => op.forest.wf() && made_dir(
                    self.model(),
                    path_view(path_segments@),
                    time,
                    world_of(&forest, old(store), *old(entropy)),
                ) == Ok::<(PrivateDirModel, World), FsError>(
                    (op.root_dir.model(), world_of(&op.forest, final(store), *final(entropy))),
                ),
                Err(e) => made_dir(
                    self.model(),
                    path_view(path_segments@),
                    time,
                    world_of(&forest, old(store), *old(entropy)),
                ) == Err::<(PrivateDirModel, World), FsError>(e),
            },
    {
        let ghost start = world_of(&forest, store, *entropy);
        let path_nodes = self.get_or_create_path_nodes(path_segments, time, &forest, store, entropy)?;
        let (root_dir, forest) = Self::fix_up_path_nodes(
            path_nodes,
            Some(time),
            forest,
            store,
            entropy,
        )?;
        proof {
            if sorted(self.model().entries) {
                lemma_made_dir_in_order(self.model(), path_view(path_segments@), time, start);
            }
        }
        Ok(PrivateOpResult { root_dir, forest, result: () })
    }

    /// Removes the entry at `path_segments` from its directory and gives
    /// the node that it led to, with random values drawn from `entropy`.
    /// The forest keeps the node.
    pub fn rm<B: BlockStore>(
        self: Rc<Self>,
        path_segments: &[String],
        forest: Rc<PrivateForest>,
        store: &mut B,
        entropy: &mut Entropy,
    ) -> (r: Result<PrivateOpResult<PrivateNode>, FsError>)
        requires
            forest.wf(),
        ensures
            final(store).reliable() == old(store).reliable(),
            sorted(self.model().entries) && r is Ok ==> sorted(r->Ok_0.root_dir.model().entries),
            store_failed(r) && !old(store).reliable() && first_is_held(
                self.model(),
                path_view(path_segments@),
                forest@,
            ) || match r {
                Ok(op) => op.forest.wf() && removed(
                    self.model(),
                    path_view(path_segments@),
                    world_of(&forest, old(store), *old(entropy)),
                ) == Ok::<(PrivateDirModel, PrivateNodeModel, World), FsError>(
                    (
                        op.root_dir.model(),
                        op.result.model(),
                        world_of(&op.forest, final(store), *final(entropy)),
                    ),
                ),
                Err(e) => removed(
                    self.model(),
                    path_view(path_segments@),
                    world_of(&forest, old(store), *old(entropy)),
                ) == Err::<(PrivateDirModel, PrivateNodeModel, World), FsError>(e),
            },
    {
        let ghost start = world_of(&forest, store, *entropy);
        let (directory_path, node_name) = split_last(path_segments)?;
        proof {
            lemma_path_view_drop_last(path_segments@);
        }
        let path_nodes = match self.get_path_nodes(directory_path, &forest, store)? {
            PrivatePathNodesResult::Complete(path_nodes) => path_nodes,
            PrivatePathNodesResult::MissingLink(_, _) => {
                return Err(FsError::NotFound);
            },
            PrivatePathNodesResult::NotADirectory(_, _) => {
                return Err(FsError::NotADirectory);
            },
        };
        let ghost nodes_before = path_nodes.model();
        let PrivatePathNodes { path, tail } = path_nodes;
        let removed_node = match tail.lookup_node(node_name.as_str(), &forest, store)? {
            Some(node) => node,
            None => {
                return Err(FsError::NotFound);
            },
        };
        let mut directory = tail.copy();
        proof {
            assert(refs_view(directory.entries@) =~= entries_view(directory.entries@));
        }
        remove_entry(&mut directory.entries, node_name.as_str());
        proof {
            assert(refs_view(directory.entries@) =~= entries_view(directory.entries@));
        }
        let nodes = PrivatePathNodes { path, tail: Rc::new(directory) };
        proof {
            assert(nodes.model() == without_child(nodes_before, node_name@));
        }
        let (root_dir, forest) = Self::fix_up_path_nodes(nodes, None, forest, store, entropy)?;
        proof {
            if sorted(self.model().entries) {
                lemma_removed_in_order(self.model(), path_view(path_segments@), start);
            }
        }
        Ok(PrivateOpResult { root_dir, forest, result: removed_node })
    }
}

} // verus!
