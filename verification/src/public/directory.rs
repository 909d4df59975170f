//! Reading and changing the public tree by path.

use vstd::prelude::*;
use std::rc::Rc;
use crate::assoc::{delete, find, sorted, Name};
use crate::public::in_order::{
    lemma_listing_in_order, lemma_made_dir_wf, lemma_moved_wf, lemma_removed_wf,
    lemma_written_wf, node_wf,
};
use crate::cid::Cid;
use crate::entries::{entries_view, insert_entry, position, remove_entry};
use crate::error::{store_failed, FsError};
use crate::metadata::{Metadata, UnixFsNodeKind};
use crate::public::node::{
    fresh_file, path_view, userland_model, DirModel, LinkModel, NodeModel, PublicDirectory,
    PublicFile, PublicLink, PublicNode, PublicOpResult,
};
use crate::public::path::{
    fix_up, get_or_create, lemma_meets_none, lemma_userland_find, lemma_userland_put, lookup,
    meets_address, resolve, walk, PathNodes, PathNodesResult, WalkModel,
};
use crate::store::{BlockStore, Blocks};

verus! {

/// The node at `path` from `dir`; the directory itself for the empty path.
pub open spec fn node_at(dir: DirModel, path: Seq<Name>, blocks: Blocks) -> Result<
    Option<NodeModel>,
    FsError,
> {
    if path.len() == 0 {
        Ok(Some(NodeModel::Dir(dir)))
    } else {
        match walk(dir, path.drop_last(), blocks) {
            Err(e) => Err(e),
            Ok(WalkModel::Complete(p)) => lookup(p.tail, path.last(), blocks),
            Ok(_) => Err(FsError::NotFound),
        }
    }
}

/// The content address of the file at `path`.
pub open spec fn content_at(dir: DirModel, path: Seq<Name>, blocks: Blocks) -> Result<Cid, FsError> {
    if path.len() == 0 {
        Err(FsError::InvalidPath)
    } else {
        match walk(dir, path.drop_last(), blocks) {
            Err(e) => Err(e),
            Ok(WalkModel::Complete(p)) => match lookup(p.tail, path.last(), blocks) {
                Err(e) => Err(e),
                Ok(Some(NodeModel::File(file))) => Ok(file.userland),
                Ok(Some(NodeModel::Dir(_))) => Err(FsError::NotAFile),
                Ok(None) => Err(FsError::NotFound),
            },
            Ok(_) => Err(FsError::NotFound),
        }
    }
}

/// The file that a write at `time` leaves where `before` stood.
pub open spec fn written_file(before: Option<NodeModel>, content: Cid, time: i64) -> Result<
    PublicFile,
    FsError,
> {
    match before {
        Some(NodeModel::File(file)) => Ok(
            PublicFile {
                metadata: Metadata::created_at(time, UnixFsNodeKind::File),
                userland: content,
                previous: file.previous,
            },
        ),
        Some(NodeModel::Dir(_)) => Err(FsError::DirectoryAlreadyExists),
        None => Ok(fresh_file(time, content)),
    }
}

/// The tree after a file with the given content is written at `path`:
/// missing directories on the way are made, a file that is there is
/// replaced.
pub open spec fn written(dir: DirModel, path: Seq<Name>, content: Cid, time: i64, blocks: Blocks)
    -> Result<DirModel, FsError> {
    if path.len() == 0 {
        Err(FsError::InvalidPath)
    } else {
        match get_or_create(dir, path.drop_last(), time, blocks) {
            Err(e) => Err(e),
            Ok(nodes) => match lookup(nodes.tail, path.last(), blocks) {
                Err(e) => Err(e),
                Ok(before) => match written_file(before, content, time) {
                    Err(e) => Err(e),
                    Ok(file) => Ok(
                        fix_up(
                            crate::public::path::PathModel {
                                path: nodes.path,
                                tail: nodes.tail.with_entry(
                                    path.last(),
                                    LinkModel::Decoded(NodeModel::File(file)),
                                ),
                            },
                        ),
                    ),
                },
            },
        }
    }
}

/// The tree after directories are made along `path`.
pub open spec fn made_dir(dir: DirModel, path: Seq<Name>, time: i64, blocks: Blocks) -> Result<
    DirModel,
    FsError,
> {
    match get_or_create(dir, path, time, blocks) {
        Err(e) => Err(e),
        Ok(nodes) => Ok(fix_up(nodes)),
    }
}

/// The names of the entries with the metadata of the node behind each.
pub open spec fn list_entries(entries: Seq<(Name, LinkModel)>, blocks: Blocks) -> Result<
    Seq<(Name, Metadata)>,
    FsError,
>
    decreases entries.len(),
{
    if entries.len() == 0 {
        Ok(Seq::empty())
    } else {
        match list_entries(entries.drop_last(), blocks) {
            Err(e) => Err(e),
            Ok(rest) => match resolve(entries.last().1, blocks) {
                Err(e) => Err(e),
                Ok(node) => Ok(rest.push((entries.last().0, node.metadata()))),
            },
        }
    }
}

/// The listing of the directory at `path`.
pub open spec fn listing(dir: DirModel, path: Seq<Name>, blocks: Blocks) -> Result<
    Seq<(Name, Metadata)>,
    FsError,
> {
    match walk(dir, path, blocks) {
        Err(e) => Err(e),
        Ok(WalkModel::Complete(p)) => list_entries(p.tail.userland, blocks),
        Ok(_) => Err(FsError::NotFound),
    }
}

/// Whether a directory holds one of its entries by its address alone.
pub open spec fn holds_address(dir: DirModel) -> bool {
    exists|i: int| 0 <= i < dir.userland.len() && (#[trigger] dir.userland[i]).1 is Encoded
}

/// Whether listing the directory at `path` has a block to read: the walk
/// through what the tree holds in memory comes to an address, or the
/// directory at its end holds an entry by its address alone.
pub open spec fn listing_reads(dir: DirModel, path: Seq<Name>) -> bool
    decreases path.len(),
{
    if path.len() == 0 {
        holds_address(dir)
    } else {
        match find(dir.userland, path[0]) {
            Some(LinkModel::Encoded(_)) => true,
            Some(LinkModel::Decoded(NodeModel::Dir(next))) => listing_reads(next, path.drop_first()),
            _ => false,
        }
    }
}

/// A listing that has no block to read walks past no address and ends in
/// a directory that holds every entry in memory.
pub proof fn lemma_listing_reads_nothing(dir: DirModel, path: Seq<Name>, blocks: Blocks)
    requires
        !listing_reads(dir, path),
    ensures
        !meets_address(dir, path),
        walk(dir, path, blocks) matches Ok(WalkModel::Complete(p)) ==> !holds_address(p.tail),
    decreases path.len(),
{
    if path.len() > 0 {
        match find(dir.userland, path[0]) {
            Some(LinkModel::Decoded(NodeModel::Dir(next))) => {
                lemma_listing_reads_nothing(next, path.drop_first(), blocks);
            },
            _ => {},
        }
    }
}

/// The tree after the entry at `path` is taken out, and the node that was
/// there.
pub open spec fn removed(dir: DirModel, path: Seq<Name>, blocks: Blocks) -> Result<
    (DirModel, NodeModel),
    FsError,
> {
    if path.len() == 0 {
        Err(FsError::InvalidPath)
    } else {
        match walk(dir, path.drop_last(), blocks) {
            Err(e) => Err(e),
            Ok(WalkModel::Complete(p)) => match find(p.tail.userland, path.last()) {
                None => Err(FsError::NotFound),
                Some(link) => match resolve(link, blocks) {
                    Err(e) => Err(e),
                    Ok(node) => Ok(
                        (
                            fix_up(
                                crate::public::path::PathModel {
                                    path: p.path,
                                    tail: p.tail.without_entry(path.last()),
                                },
                            ),
                            node,
                        ),
                    ),
                },
            },
            Ok(_) => Err(FsError::NotFound),
        }
    }
}

/// Whether moving the node at `from` to `to` has a block to read: taking
/// the node out has one, or the walk to the new parent in the tree
/// without the node.
pub open spec fn move_reads(dir: DirModel, from: Seq<Name>, to: Seq<Name>, blocks: Blocks) -> bool {
    to.len() > 0 && (meets_address(dir, from) || match removed(dir, from, blocks) {
        Ok((root, _)) => meets_address(root, to.drop_last()),
        Err(_) => false,
    })
}

/// The tree after the node at `from` is moved to `to`, where the
/// directory that is to hold it exists and has no entry of that name.
pub open spec fn moved(dir: DirModel, from: Seq<Name>, to: Seq<Name>, time: i64, blocks: Blocks)
    -> Result<DirModel, FsError> {
    if to.len() == 0 {
        Err(FsError::InvalidPath)
    } else {
        match removed(dir, from, blocks) {
            Err(e) => Err(e),
            Ok((root, node)) => match walk(root, to.drop_last(), blocks) {
                Err(e) => Err(e),
                Ok(WalkModel::Complete(p)) => if find(p.tail.userland, to.last()) is Some {
                    Err(FsError::FileAlreadyExists)
                } else {
                    Ok(
                        fix_up(
                            crate::public::path::PathModel {
                                path: p.path,
                                tail: p.tail.with_entry(
                                    to.last(),
                                    LinkModel::Decoded(node.with_mtime(time)),
                                ),
                            },
                        ),
                    )
                },
                Ok(_) => Err(FsError::NotFound),
            },
        }
    }
}

/// The result of an operation that gives a new root, as contracts see it.
pub open spec fn root_result(r: Result<PublicOpResult<()>, FsError>) -> Result<DirModel, FsError> {
    match r {
        Ok(op) => Ok(op.root_dir.model()),
        Err(e) => Err(e),
    }
}

/// The listing that a vector of names and metadata holds.
pub open spec fn listing_view(v: Seq<(String, Metadata)>) -> Seq<(Name, Metadata)> {
    Seq::new(v.len(), |i: int| (v[i].0@, v[i].1))
}

/// Splits a path into the path of the parent and the last name.
pub fn split_last(path_segments: &[String]) -> (r: Result<(&[String], &String), FsError>)
    ensures
        match r {
            Ok((parent, name)) => path_segments@.len() > 0 && parent@
                == path_segments@.drop_last() && *name == path_segments@.last(),
            Err(e) => path_segments@.len() == 0 && e == FsError::InvalidPath,
        },
{
    if path_segments.len() == 0 {
        Err(FsError::InvalidPath)
    } else {
        let n = path_segments.len() - 1;
        Ok((vstd::slice::slice_subrange(path_segments, 0, n), &path_segments[n]))
    }
}

/// The names of a parent path are the names of the path without the last.
pub proof fn lemma_path_view_drop_last(path: Seq<String>)
    requires
        path.len() > 0,
    ensures
        path_view(path.drop_last()) == path_view(path).drop_last(),
        path_view(path).last() == path.last()@,
{
    assert(path_view(path.drop_last()) =~= path_view(path).drop_last());
}

/// Taking a name out of the entries in memory is taking it out of the model.
pub proof fn lemma_userland_delete(
    before: Seq<(String, PublicLink)>,
    name: Name,
    after: Seq<(String, PublicLink)>,
)
    requires
        entries_view(after) == delete(entries_view(before), name),
    ensures
        userland_model(after) == delete(userland_model(before), name),
    decreases before.len(),
{
    let a = entries_view(after);
    if before.len() == 0 {
        assert(after.len() == a.len());
        assert(userland_model(after) =~= userland_model(before));
    } else {
        let head = entries_view(before)[0];
        assert(userland_model(before)[0].0 == head.0);
        assert(userland_model(before).drop_first() =~= userland_model(before.drop_first()));
        assert(entries_view(before).drop_first() =~= entries_view(before.drop_first()));
        if head.0 == name {
            assert(after.len() == a.len());
            assert forall|i: int| 0 <= i < after.len() implies #[trigger] userland_model(after)[i]
                == userland_model(before).drop_first()[i] by {
                assert(a[i] == (after[i].0@, after[i].1));
                assert(a[i] == entries_view(before)[i + 1]);
            }
            assert(userland_model(after) =~= userland_model(before).drop_first());
        } else {
            let rest = delete(entries_view(before).drop_first(), name);
            assert(a =~= seq![head] + rest);
            assert(after.len() == a.len());
            assert(a[0] == (after[0].0@, after[0].1));
            assert(a.drop_first() =~= rest);
            assert(entries_view(after).drop_first() =~= entries_view(after.drop_first()));
            lemma_userland_delete(before.drop_first(), name, after.drop_first());
            assert(userland_model(after).drop_first() =~= userland_model(after.drop_first()));
            assert(userland_model(after)[0] == userland_model(before)[0]);
            assert(userland_model(after) =~= seq![userland_model(before)[0]] + delete(
                userland_model(before).drop_first(),
                name,
            ));
        }
    }
}

impl PublicDirectory {
    /// Follows `path_segments` and gets the node at their end.
    pub fn get_node<B: BlockStore>(self: Rc<Self>, path_segments: &[String], store: &B) -> (r:
        Result<PublicOpResult<Option<PublicNode>>, FsError>)
        ensures
            store_failed(r) && !store.reliable() && meets_address(
                self.model(),
                path_view(path_segments@),
            ) || match r {
                Ok(op) => op.root_dir.model() == self.model() && match op.result {
                    Some(node) => node_at(
                        self.model(),
                        path_view(path_segments@),
                        store.blocks(),
                    ) == Ok::<Option<NodeModel>, FsError>(Some(node.model())),
                    None => node_at(self.model(), path_view(path_segments@), store.blocks())
                        == Ok::<Option<NodeModel>, FsError>(None),
                },
                Err(e) => node_at(self.model(), path_view(path_segments@), store.blocks())
                    == Err::<Option<NodeModel>, FsError>(e),
            },
    {
        let root_dir = Rc::clone(&self);
        if path_segments.len() == 0 {
            proof {
                assert(path_view(path_segments@).len() == 0);
            }
            return Ok(PublicOpResult { root_dir, result: Some(PublicNode::Dir(self)) });
        }
        let (parent_path, path_segment) = split_last(path_segments)?;
        proof {
            lemma_path_view_drop_last(path_segments@);
            if !meets_address(self.model(), path_view(path_segments@)) {
                lemma_meets_none(self.model(), path_view(path_segments@), store.blocks());
            }
        }
        match self.get_path_nodes(parent_path, store)? {
            PathNodesResult::Complete(parent_path_nodes) => {
                let result = parent_path_nodes.tail.lookup_node(path_segment.as_str(), store)?;
                Ok(PublicOpResult { root_dir, result })
            },
            PathNodesResult::MissingLink(_, _) => Err(FsError::NotFound),
            PathNodesResult::NotADirectory(_, _) => Err(FsError::NotFound),
        }
    }

    /// Reads the content address of the file at `path_segments`.
    pub fn read<B: BlockStore>(self: Rc<Self>, path_segments: &[String], store: &B) -> (r: Result<
        PublicOpResult<Cid>,
        FsError,
    >)
        ensures
            store_failed(r) && !store.reliable() && meets_address(
                self.model(),
                path_view(path_segments@),
            ) || match r {
                Ok(op) => op.root_dir.model() == self.model() && content_at(
                    self.model(),
                    path_view(path_segments@),
                    store.blocks(),
                ) == Ok::<Cid, FsError>(op.result),
                Err(e) => content_at(self.model(), path_view(path_segments@), store.blocks())
                    == Err::<Cid, FsError>(e),
            },
    {
        let root_dir = Rc::clone(&self);
        let (path, filename) = split_last(path_segments)?;
        proof {
            lemma_path_view_drop_last(path_segments@);
            if path_segments@.len() > 0 && !meets_address(
                self.model(),
                path_view(path_segments@),
            ) {
                lemma_meets_none(self.model(), path_view(path_segments@), store.blocks());
            }
        }
        match self.get_path_nodes(path, store)? {
            PathNodesResult::Complete(node_path) => {
                match node_path.tail.lookup_node(filename.as_str(), store)? {
                    Some(PublicNode::File(file)) => Ok(
                        PublicOpResult { root_dir, result: file.userland },
                    ),
                    Some(PublicNode::Dir(_)) => Err(FsError::NotAFile),
                    None => Err(FsError::NotFound),
                }
            },
            _ => Err(FsError::NotFound),
        }
    }

    /// Writes a file with the given content address at `path_segments`,
    /// making the directories on the way that do not exist yet.
    pub fn write<B: BlockStore>(
        self: Rc<Self>,
        path_segments: &[String],
        content_cid: Cid,
        time: i64,
        store: &B,
    ) -> (r: Result<PublicOpResult<()>, FsError>)
        ensures
            self.model().wf() && r is Ok ==> r->Ok_0.root_dir.model().wf(),
            root_result(r) == written(
                self.model(),
                path_view(path_segments@),
                content_cid,
                time,
                store.blocks(),
            ) || (store_failed(r) && !store.reliable() && meets_address(
                self.model(),
                path_view(path_segments@),
            )),
    {
        let (directory_path, filename) = split_last(path_segments)?;
        proof {
            lemma_path_view_drop_last(path_segments@);
            if !meets_address(self.model(), path_view(path_segments@)) {
                lemma_meets_none(self.model(), path_view(path_segments@), store.blocks());
            }
        }
        let directory_path_nodes = self.get_or_create_path_nodes(directory_path, time, store)?;
        let PathNodes { path, tail } = directory_path_nodes;
        let mut directory = tail.copy();
        let file = match directory.lookup_node(filename.as_str(), store)? {
            Some(PublicNode::File(file_before)) => PublicFile {
                metadata: Metadata::new(time, UnixFsNodeKind::File),
                userland: content_cid,
                previous: file_before.previous,
            },
            Some(PublicNode::Dir(_)) => {
                return Err(FsError::DirectoryAlreadyExists);
            },
            None => PublicFile::new(time, content_cid),
        };
        let link = PublicLink::with_file(Rc::new(file));
        let ghost before_entries = directory.userland@;
        insert_entry(&mut directory.userland, filename.clone(), link);
        proof {
            lemma_userland_put(before_entries, filename@, link, directory.userland@);
        }
        let nodes = PathNodes { path, tail: Rc::new(directory) };
        let root_dir = Self::fix_up_path_nodes(nodes);
        proof {
            if self.model().wf() {
                lemma_written_wf(
                    self.model(),
                    path_view(path_segments@),
                    content_cid,
                    time,
                    store.blocks(),
                );
            }
        }
        Ok(PublicOpResult { root_dir, result: () })
    }

    /// Makes a directory at `path_segments`, and the directories on the way
    /// that do not exist yet.
    pub fn mkdir<B: BlockStore>(self: Rc<Self>, path_segments: &[String], time: i64, store: &B) -> (r:
        Result<PublicOpResult<()>, FsError>)
        ensures
            self.model().wf() && r is Ok ==> r->Ok_0.root_dir.model().wf(),
            root_result(r) == made_dir(
                self.model(),
                path_view(path_segments@),
                time,
                store.blocks(),
            ) || (store_failed(r) && !store.reliable() && meets_address(
                self.model(),
                path_view(path_segments@),
            )),
    {
        if path_segments.len() == 0 {
            proof {
                assert(path_view(path_segments@).len() == 0);
                reveal_with_fuel(walk, 2);
                reveal_with_fuel(fix_up, 2);
            }
            return Ok(PublicOpResult { root_dir: self, result: () });
        }
        let path_nodes = self.get_or_create_path_nodes(path_segments, time, store)?;
        let root_dir = Self::fix_up_path_nodes(path_nodes);
        proof {
            if self.model().wf() {
                lemma_made_dir_wf(self.model(), path_view(path_segments@), time, store.blocks());
            }
        }
        Ok(PublicOpResult { root_dir, result: () })
    }

    /// Lists the names of the directory at `path_segments`, in their order,
    /// with the metadata of the node behind each.
    pub fn ls<B: BlockStore>(self: Rc<Self>, path_segments: &[String], store: &B) -> (r: Result<
        PublicOpResult<Vec<(String, Metadata)>>,
        FsError,
    >)
        ensures
            self.model().wf() && r is Ok ==> sorted(listing_view(r->Ok_0.result@)),
            store_failed(r) && !store.reliable() && listing_reads(
                self.model(),
                path_view(path_segments@),
            ) || match r {
                Ok(op) => op.root_dir.model() == self.model() && listing(
                    self.model(),
                    path_view(path_segments@),
                    store.blocks(),
                ) == Ok::<Seq<(Name, Metadata)>, FsError>(listing_view(op.result@)),
                Err(e) => listing(self.model(), path_view(path_segments@), store.blocks())
                    == Err::<Seq<(Name, Metadata)>, FsError>(e),
            },
    {
        let root_dir = Rc::clone(&self);
        let ghost reads = listing_reads(self.model(), path_view(path_segments@));
        proof {
            if !reads {
                lemma_listing_reads_nothing(
                    self.model(),
                    path_view(path_segments@),
                    store.blocks(),
                );
            }
        }
        match self.get_path_nodes(path_segments, store)? {
            PathNodesResult::Complete(path_nodes) => {
                let tail = path_nodes.tail;
                let ghost entries = tail.model().userland;
                let ghost blocks = store.blocks();
                let mut result: Vec<(String, Metadata)> = Vec::new();
                let mut i: usize = 0;
                proof {
                    assert(entries.subrange(0, 0) =~= Seq::empty());
                    assert(listing_view(result@) =~= Seq::empty());
                }
                while i < tail.userland.len()
                    invariant
                        i <= tail.userland.len(),
                        entries == tail.model().userland,
                        blocks == store.blocks(),
                        root_dir.model() == self.model(),
                        reads == listing_reads(self.model(), path_view(path_segments@)),
                        reads || !holds_address(tail.model()),
                        listing(self.model(), path_view(path_segments@), blocks) == list_entries(
                            entries,
                            blocks,
                        ),
                        list_entries(entries.subrange(0, i as int), blocks) == Ok::<
                            Seq<(Name, Metadata)>,
                            FsError,
                        >(listing_view(result@)),
                    decreases tail.userland.len() - i,
                {
                    let ghost done = listing_view(result@);
                    let ghost next = entries.subrange(0, i + 1);
                    proof {
                        assert(next.drop_last() =~= entries.subrange(0, i as int));
                        assert(next.last() == entries[i as int]);
                    }
                    let resolved = tail.userland[i].1.resolve_value(store);
                    let node = match resolved {
                        Ok(node) => node,
                        Err(e) => {
                            proof {
                                if !(store_failed(resolved) && !store.reliable()) {
                                    lemma_list_entries_prefix(entries, i + 1, blocks);
                                } else {
                                    assert(tail.model().userland[i as int].1 is Encoded);
                                }
                            }
                            return Err(e);
                        },
                    };
                    result.push((tail.userland[i].0.clone(), node.get_metadata()));
                    proof {
                        assert(listing_view(result@) =~= done.push(
                            (entries[i as int].0, node.model().metadata()),
                        ));
                    }
                    i += 1;
                }
                proof {
                    assert(entries.subrange(0, i as int) =~= entries);
                    if self.model().wf() {
                        lemma_listing_in_order(
                            self.model(),
                            path_view(path_segments@),
                            store.blocks(),
                        );
                    }
                }
                Ok(PublicOpResult { root_dir, result })
            },
            _ => Err(FsError::NotFound),
        }
    }

    /// Takes the entry at `path_segments` out of its directory and returns
    /// the node that was there.
    pub fn rm<B: BlockStore>(self: Rc<Self>, path_segments: &[String], store: &B) -> (r: Result<
        PublicOpResult<PublicNode>,
        FsError,
    >)
        ensures
            self.model().wf() && r is Ok ==> r->Ok_0.root_dir.model().wf() && node_wf(
                r->Ok_0.result.model(),
            ),
            store_failed(r) && !store.reliable() && meets_address(
                self.model(),
                path_view(path_segments@),
            ) || match r {
                Ok(op) => removed(self.model(), path_view(path_segments@), store.blocks()) == Ok::<
                    (DirModel, NodeModel),
                    FsError,
                >((op.root_dir.model(), op.result.model())),
                Err(e) => removed(self.model(), path_view(path_segments@), store.blocks()) == Err::<
                    (DirModel, NodeModel),
                    FsError,
                >(e),
            },
    {
        let (directory_path, node_name) = split_last(path_segments)?;
        proof {
            lemma_path_view_drop_last(path_segments@);
            if !meets_address(self.model(), path_view(path_segments@)) {
                lemma_meets_none(self.model(), path_view(path_segments@), store.blocks());
            }
        }
        let directory_node_path = match self.get_path_nodes(directory_path, store)? {
            PathNodesResult::Complete(node_path) => node_path,
            _ => {
                return Err(FsError::NotFound);
            },
        };
        let PathNodes { path, tail } = directory_node_path;
        let mut directory = tail.copy();
        let ghost before_entries = directory.userland@;
        proof {
            lemma_userland_find(before_entries, node_name@);
        }
        let removed_link = remove_entry(&mut directory.userland, node_name.as_str());
        proof {
            lemma_userland_delete(before_entries, node_name@, directory.userland@);
        }
        let removed_node = match removed_link {
            Some(link) => link.get_owned_value(store)?,
            None => {
                return Err(FsError::NotFound);
            },
        };
        let nodes = PathNodes { path, tail: Rc::new(directory) };
        let root_dir = Self::fix_up_path_nodes(nodes);
        proof {
            if self.model().wf() {
                lemma_removed_wf(self.model(), path_view(path_segments@), store.blocks());
            }
        }
        Ok(PublicOpResult { root_dir, result: removed_node })
    }

    /// Moves the node at `path_segments_from` to `path_segments_to`, whose
    /// last name is the name that the node gets.
    pub fn basic_mv<B: BlockStore>(
        self: Rc<Self>,
        path_segments_from: &[String],
        path_segments_to: &[String],
        time: i64,
        store: &B,
    ) -> (r: Result<PublicOpResult<()>, FsError>)
        ensures
            self.model().wf() && r is Ok ==> r->Ok_0.root_dir.model().wf(),
            root_result(r) == moved(
                self.model(),
                path_view(path_segments_from@),
                path_view(path_segments_to@),
                time,
                store.blocks(),
            ) || (store_failed(r) && !store.reliable() && move_reads(
                self.model(),
                path_view(path_segments_from@),
                path_view(path_segments_to@),
                store.blocks(),
            )),
    {
        let (directory_path, filename) = split_last(path_segments_to)?;
        proof {
            lemma_path_view_drop_last(path_segments_to@);
        }
        let PublicOpResult { root_dir, result: removed_node } = self.rm(path_segments_from, store)?;
        let path_nodes = match root_dir.get_path_nodes(directory_path, store)? {
            PathNodesResult::Complete(node_path) => node_path,
            _ => {
                return Err(FsError::NotFound);
            },
        };
        let PathNodes { path, tail } = path_nodes;
        let mut directory = tail.copy();
        proof {
            lemma_userland_find(directory.userland@, filename@);
        }
        if position(&directory.userland, filename.as_str()).is_some() {
            return Err(FsError::FileAlreadyExists);
        }
        let removed_node = removed_node.update_mtime(time);
        let link = PublicLink::new(removed_node);
        let ghost before_entries = directory.userland@;
        insert_entry(&mut directory.userland, filename.clone(), link);
        proof {
            lemma_userland_put(before_entries, filename@, link, directory.userland@);
        }
        let nodes = PathNodes { path, tail: Rc::new(directory) };
        let root_dir = Self::fix_up_path_nodes(nodes);
        proof {
            if self.model().wf() {
                lemma_moved_wf(
                    self.model(),
                    path_view(path_segments_from@),
                    path_view(path_segments_to@),
                    time,
                    store.blocks(),
                );
            }
        }
        Ok(PublicOpResult { root_dir, result: () })
    }
}

/// Where listing a prefix of the entries fails, listing all of them fails
/// in the same way.
proof fn lemma_list_entries_prefix(entries: Seq<(Name, LinkModel)>, k: int, blocks: Blocks)
    requires
        0 <= k <= entries.len(),
        list_entries(entries.subrange(0, k), blocks) is Err,
    ensures
        list_entries(entries, blocks) == list_entries(entries.subrange(0, k), blocks),
    decreases entries.len() - k,
{
    if k < entries.len() {
        let next = entries.subrange(0, k + 1);
        assert(next.drop_last() =~= entries.subrange(0, k));
        lemma_list_entries_prefix(entries, k + 1, blocks);
    } else {
        assert(entries.subrange(0, k) =~= entries);
    }
}

} // verus!
