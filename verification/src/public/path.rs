//! Walking a path through the public tree, and building the tree anew
//! along a path that was walked.

use vstd::prelude::*;
use std::rc::Rc;
use crate::assoc::{find, put, Name};
use crate::entries::{entries_view, insert_entry, position};
use crate::error::{store_failed, FsError};
use crate::public::codec::{decode_block, decode_node};
use crate::public::node::{
    fresh_dir, path_view, userland_model, DirModel, LinkModel, NodeModel, PublicDirectory,
    PublicLink, PublicNode,
};
use crate::store::{fetch, BlockStore, Blocks};

verus! {

/// The directories along a path, each with the name under which the next
/// one hangs, and the directory at the end.
#[derive(Debug, PartialEq)]
pub struct PathNodes {
    pub path: Vec<(Rc<PublicDirectory>, String)>,
    pub tail: Rc<PublicDirectory>,
}

/// How far a walk along a path came.
#[derive(Debug, PartialEq)]
pub enum PathNodesResult {
    /// Every segment is a directory.
    Complete(PathNodes),
    /// The named segment does not exist in the directory at the end.
    MissingLink(PathNodes, String),
    /// The named segment is a file.
    NotADirectory(PathNodes, String),
}

pub type PublicPathNodes = PathNodes;

pub type PublicPathNodesResult = PathNodesResult;

/// Path nodes as contracts see them.
pub struct PathModel {
    pub path: Seq<(DirModel, Name)>,
    pub tail: DirModel,
}

/// The outcome of a walk as contracts see it.
pub enum WalkModel {
    Complete(PathModel),
    MissingLink(PathModel, Name),
    NotADirectory(PathModel, Name),
}

impl PathModel {
    /// The same nodes after the nodes `prefix`.
    pub open spec fn with_prefix(self, prefix: Seq<(DirModel, Name)>) -> PathModel {
        PathModel { path: prefix + self.path, tail: self.tail }
    }
}

impl WalkModel {
    /// The same outcome after the nodes `prefix`.
    pub open spec fn with_prefix(self, prefix: Seq<(DirModel, Name)>) -> WalkModel {
        match self {
            WalkModel::Complete(p) => WalkModel::Complete(p.with_prefix(prefix)),
            WalkModel::MissingLink(p, name) => WalkModel::MissingLink(p.with_prefix(prefix), name),
            WalkModel::NotADirectory(p, name) => WalkModel::NotADirectory(
                p.with_prefix(prefix),
                name,
            ),
        }
    }
}

/// The outcome of a walk that went through `prefix` first.
pub open spec fn after(prefix: Seq<(DirModel, Name)>, r: Result<WalkModel, FsError>) -> Result<
    WalkModel,
    FsError,
> {
    match r {
        Ok(w) => Ok(w.with_prefix(prefix)),
        Err(e) => Err(e),
    }
}

/// The node that a link leads to: the node it holds, or the node that the
/// block at its address decodes to.
pub open spec fn resolve(link: LinkModel, blocks: Blocks) -> Result<NodeModel, FsError> {
    match link {
        LinkModel::Decoded(node) => Ok(node),
        LinkModel::Encoded(cid) => match fetch(blocks, cid) {
            Ok(bytes) => decode_block(bytes),
            Err(e) => Err(e),
        },
    }
}

/// The node called `name` in a directory, if there is one.
pub open spec fn lookup(dir: DirModel, name: Name, blocks: Blocks) -> Result<
    Option<NodeModel>,
    FsError,
> {
    match find(dir.userland, name) {
        Some(link) => match resolve(link, blocks) {
            Ok(node) => Ok(Some(node)),
            Err(e) => Err(e),
        },
        None => Ok(None),
    }
}

/// Whether the directory holds the entry called `name` by its address
/// alone, so that its block has to be read.
pub open spec fn held_by_address(dir: DirModel, name: Name) -> bool {
    match find(dir.userland, name) {
        Some(LinkModel::Encoded(_)) => true,
        _ => false,
    }
}

/// Whether walking `path` from `dir` through what the tree holds in memory
/// comes to an entry that is held by its address alone: only then has a
/// block to be read.
pub open spec fn meets_address(dir: DirModel, path: Seq<Name>) -> bool
    decreases path.len(),
{
    path.len() > 0 && match find(dir.userland, path[0]) {
        Some(LinkModel::Encoded(_)) => true,
        Some(LinkModel::Decoded(NodeModel::Dir(next))) => meets_address(next, path.drop_first()),
        _ => false,
    }
}

/// The outcome of walking `path` from `dir`: the walk goes on while each
/// segment names a directory and stops at the first that does not.
pub open spec fn walk(dir: DirModel, path: Seq<Name>, blocks: Blocks) -> Result<WalkModel, FsError>
    decreases path.len(),
{
    let here = PathModel { path: Seq::empty(), tail: dir };
    if path.len() == 0 {
        Ok(WalkModel::Complete(here))
    } else {
        match lookup(dir, path[0], blocks) {
            Err(e) => Err(e),
            Ok(None) => Ok(WalkModel::MissingLink(here, path[0])),
            Ok(Some(NodeModel::File(_))) => Ok(WalkModel::NotADirectory(here, path[0])),
            Ok(Some(NodeModel::Dir(next))) => after(
                seq![(dir, path[0])],
                walk(next, path.drop_first(), blocks),
            ),
        }
    }
}

/// Fresh directories along `path`, none of them linked to the next yet.
pub open spec fn create_path(path: Seq<Name>, time: i64) -> PathModel {
    PathModel { path: Seq::new(path.len(), |i: int| (fresh_dir(time), path[i])), tail: fresh_dir(time) }
}

/// The nodes along `path`, with fresh directories from the first segment
/// that is missing.
pub open spec fn get_or_create(dir: DirModel, path: Seq<Name>, time: i64, blocks: Blocks)
    -> Result<PathModel, FsError> {
    match walk(dir, path, blocks) {
        Err(e) => Err(e),
        Ok(WalkModel::Complete(p)) => Ok(p),
        Ok(WalkModel::NotADirectory(_, _)) => Err(FsError::InvalidPath),
        Ok(WalkModel::MissingLink(p, name)) => {
            let created = create_path(
                path.subrange(p.path.len() as int + 1, path.len() as int),
                time,
            );
            Ok(PathModel { path: p.path + seq![(p.tail, name)] + created.path, tail: created.tail })
        },
    }
}

/// The root of the tree in which every directory along the path holds the
/// next one under its name, and the last holds the tail.
pub open spec fn fix_up(p: PathModel) -> DirModel
    decreases p.path.len(),
{
    if p.path.len() == 0 {
        p.tail
    } else {
        let (dir, name) = p.path.last();
        fix_up(
            PathModel {
                path: p.path.drop_last(),
                tail: dir.with_entry(name, LinkModel::Decoded(NodeModel::Dir(p.tail))),
            },
        )
    }
}

/// A node result as contracts see it.
pub open spec fn node_result(r: Result<PublicNode, FsError>) -> Result<NodeModel, FsError> {
    match r {
        Ok(node) => Ok(node.model()),
        Err(e) => Err(e),
    }
}

/// The result of a lookup as contracts see it.
pub open spec fn lookup_result(r: Result<Option<PublicNode>, FsError>) -> Result<
    Option<NodeModel>,
    FsError,
> {
    match r {
        Ok(Some(node)) => Ok(Some(node.model())),
        Ok(None) => Ok(None),
        Err(e) => Err(e),
    }
}

/// The path of path nodes as contracts see it.
pub open spec fn steps_model(path: Seq<(Rc<PublicDirectory>, String)>) -> Seq<(DirModel, Name)> {
    Seq::new(path.len(), |i: int| (path[i].0.model(), path[i].1@))
}

impl PathNodes {
    /// The path nodes that `self` holds.
    pub open spec fn model(&self) -> PathModel {
        PathModel { path: steps_model(self.path@), tail: self.tail.model() }
    }
}

impl PathNodesResult {
    /// The outcome that `self` holds.
    pub open spec fn model(&self) -> WalkModel {
        match self {
            PathNodesResult::Complete(p) => WalkModel::Complete(p.model()),
            PathNodesResult::MissingLink(p, name) => WalkModel::MissingLink(p.model(), name@),
            PathNodesResult::NotADirectory(p, name) => WalkModel::NotADirectory(p.model(), name@),
        }
    }
}

/// The result of a walk as contracts see it.
pub open spec fn walk_result(r: Result<PathNodesResult, FsError>) -> Result<WalkModel, FsError> {
    match r {
        Ok(w) => Ok(w.model()),
        Err(e) => Err(e),
    }
}

/// A result of path nodes as contracts see it.
pub open spec fn path_result(r: Result<PathNodes, FsError>) -> Result<PathModel, FsError> {
    match r {
        Ok(p) => Ok(p.model()),
        Err(e) => Err(e),
    }
}

impl PublicLink {
    /// Gets the node that the link leads to, reading its block from the
    /// store where the link holds an address.
    pub fn resolve_value<B: BlockStore>(&self, store: &B) -> (r: Result<PublicNode, FsError>)
        ensures
            node_result(r) == resolve(self.model(), store.blocks()) || (store_failed(r)
                && !store.reliable() && self.model() is Encoded),
    {
        match self {
            PublicLink::Decoded(node) => Ok(node.clone()),
            PublicLink::Encoded(cid) => {
                let bytes = store.get_block(cid)?;
                decode_node(bytes.as_slice())
            },
        }
    }

    /// Gets the node that the link leads to, as `resolve_value` does.
    pub fn get_owned_value<B: BlockStore>(&self, store: &B) -> (r: Result<PublicNode, FsError>)
        ensures
            node_result(r) == resolve(self.model(), store.blocks()) || (store_failed(r)
                && !store.reliable() && self.model() is Encoded),
    {
        self.resolve_value(store)
    }
}

impl PublicDirectory {
    /// Makes fresh path nodes along `path_segments`, none of them part of a
    /// tree yet.
    pub fn create_path_nodes(path_segments: &[String], time: i64) -> (r: PathNodes)
        ensures
            r.model() == create_path(path_view(path_segments@), time),
    {
        let mut path: Vec<(Rc<PublicDirectory>, String)> = Vec::new();
        let mut i: usize = 0;
        while i < path_segments.len()
            invariant
                i <= path_segments.len(),
                path.len() == i,
                forall|j: int|
                    0 <= j < i ==> (#[trigger] path[j]).0.model() == fresh_dir(time) && path[j].1@
                        == path_segments[j]@,
            decreases path_segments.len() - i,
        {
            path.push((Rc::new(PublicDirectory::new(time)), path_segments[i].clone()));
            i += 1;
        }
        let r = PathNodes { path, tail: Rc::new(PublicDirectory::new(time)) };
        proof {
            assert(r.model().path =~= create_path(path_view(path_segments@), time).path);
        }
        r
    }

    /// Looks up the node called `path_segment` in this directory.
    pub fn lookup_node<B: BlockStore>(&self, path_segment: &str, store: &B) -> (r: Result<
        Option<PublicNode>,
        FsError,
    >)
        ensures
            lookup_result(r) == lookup(self.model(), path_segment@, store.blocks()) || (
            store_failed(r) && !store.reliable() && held_by_address(
                self.model(),
                path_segment@,
            )),
    {
        proof {
            lemma_userland_find(self.userland@, path_segment@);
        }
        match position(&self.userland, path_segment) {
            Some(i) => {
                let node = self.userland[i].1.resolve_value(store)?;
                Ok(Some(node))
            },
            None => Ok(None),
        }
    }

    /// Walks `path_segments` from this directory, as far as they name
    /// directories.
    pub fn get_path_nodes<B: BlockStore>(self: Rc<Self>, path_segments: &[String], store: &B) -> (r:
        Result<PathNodesResult, FsError>)
        ensures
            walk_result(r) == walk(self.model(), path_view(path_segments@), store.blocks()) || (
            store_failed(r) && !store.reliable() && meets_address(
                self.model(),
                path_view(path_segments@),
            )),
    {
        let ghost names = path_view(path_segments@);
        let ghost blocks = store.blocks();
        let ghost goal = walk(self.model(), names, blocks);
        let mut working_node = self;
        let mut path_nodes: Vec<(Rc<PublicDirectory>, String)> = Vec::new();
        let mut i: usize = 0;
        proof {
            assert(names.subrange(0, names.len() as int) =~= names);
            lemma_after_nothing(goal);
            assert(steps_model(path_nodes@) =~= Seq::empty());
        }
        while i < path_segments.len()
            invariant
                i <= path_segments.len(),
                names == path_view(path_segments@),
                blocks == store.blocks(),
                goal == walk(self.model(), names, blocks),
                goal == after(
                    steps_model(path_nodes@),
                    walk(working_node.model(), names.subrange(i as int, names.len() as int), blocks),
                ),
                meets_address(self.model(), names) || !meets_address(
                    working_node.model(),
                    names.subrange(i as int, names.len() as int),
                ),
            decreases path_segments.len() - i,
        {
            let ghost rest = names.subrange(i as int, names.len() as int);
            let ghost done = steps_model(path_nodes@);
            let ghost here = working_node.model();
            proof {
                assert(rest[0] == path_segments[i as int]@);
                assert(rest.drop_first() =~= names.subrange(i + 1, names.len() as int));
            }
            let segment = &path_segments[i];
            let found = working_node.lookup_node(segment.as_str(), store)?;
            match found {
                Some(PublicNode::Dir(directory)) => {
                    path_nodes.push((Rc::clone(&working_node), segment.clone()));
                    proof {
                        let next = walk(directory.model(), rest.drop_first(), blocks);
                        lemma_after_after(done, (here, rest[0]), next);
                        assert(steps_model(path_nodes@) =~= done.push((here, rest[0])));
                    }
                    working_node = directory;
                },
                Some(PublicNode::File(_)) => {
                    let nodes = PathNodes { path: path_nodes, tail: working_node };
                    proof {
                        assert(nodes.model().path =~= done + Seq::empty());
                    }
                    return Ok(PathNodesResult::NotADirectory(nodes, segment.clone()));
                },
                None => {
                    let nodes = PathNodes { path: path_nodes, tail: working_node };
                    proof {
                        assert(nodes.model().path =~= done + Seq::empty());
                    }
                    return Ok(PathNodesResult::MissingLink(nodes, segment.clone()));
                },
            }
            i += 1;
        }
        let nodes = PathNodes { path: path_nodes, tail: working_node };
        proof {
            assert(nodes.model().path =~= steps_model(path_nodes@) + Seq::empty());
        }
        Ok(PathNodesResult::Complete(nodes))
    }

    /// Walks `path_segments` from this directory and makes fresh directories
    /// from the first segment that is missing.
    pub fn get_or_create_path_nodes<B: BlockStore>(
        self: Rc<Self>,
        path_segments: &[String],
        time: i64,
        store: &B,
    ) -> (r: Result<PathNodes, FsError>)
        ensures
            path_result(r) == get_or_create(
                self.model(),
                path_view(path_segments@),
                time,
                store.blocks(),
            ) || (store_failed(r) && !store.reliable() && meets_address(
                self.model(),
                path_view(path_segments@),
            )),
    {
        let ghost names = path_view(path_segments@);
        match self.get_path_nodes(path_segments, store)? {
            PathNodesResult::Complete(path_nodes) => Ok(path_nodes),
            PathNodesResult::NotADirectory(_, _) => Err(FsError::InvalidPath),
            PathNodesResult::MissingLink(path_so_far, missing_link) => {
                proof {
                    lemma_walk_length(self.model(), names, store.blocks());
                    assert(path_so_far.model().path.len() == path_so_far.path.len());
                    assert(names.len() == path_segments.len());
                }
                let start = path_so_far.path.len() + 1;
                let missing_path = vstd::slice::slice_subrange(
                    path_segments,
                    start,
                    path_segments.len(),
                );
                proof {
                    assert(path_view(missing_path@) =~= names.subrange(
                        start as int,
                        names.len() as int,
                    ));
                }
                let missing_path_nodes = Self::create_path_nodes(missing_path, time);
                let ghost so_far = path_so_far.model();
                let ghost created = missing_path_nodes.model();
                let PathNodes { path: mut path, tail } = path_so_far;
                path.push((tail, missing_link));
                proof {
                    assert(steps_model(path@) =~= so_far.path + seq![(so_far.tail, missing_link@)]);
                }
                let PathNodes { path: mut created_path, tail: created_tail } = missing_path_nodes;
                path.append(&mut created_path);
                let r = PathNodes { path, tail: created_tail };
                proof {
                    assert(r.model().path =~= so_far.path + seq![(so_far.tail, missing_link@)]
                        + created.path);
                }
                Ok(r)
            },
        }
    }

    /// Builds the tree anew along the path nodes, so that each directory
    /// holds the next one, and returns its root.
    pub fn fix_up_path_nodes(path_nodes: PathNodes) -> (r: Rc<PublicDirectory>)
        ensures
            r.model() == fix_up(path_nodes.model()),
    {
        let ghost goal = fix_up(path_nodes.model());
        let PathNodes { path, tail } = path_nodes;
        let mut working_dir = tail;
        let mut i: usize = path.len();
        proof {
            assert(steps_model(path@).subrange(0, i as int) =~= steps_model(path@));
        }
        while i > 0
            invariant
                i <= path.len(),
                goal == fix_up(
                    PathModel {
                        path: steps_model(path@).subrange(0, i as int),
                        tail: working_dir.model(),
                    },
                ),
            decreases i,
        {
            let ghost steps = steps_model(path@).subrange(0, i as int);
            i -= 1;
            let mut dir = path[i].0.copy();
            let link = PublicLink::with_dir(working_dir);
            let ghost before = dir.model();
            let ghost before_entries = dir.userland@;
            let ghost link_model = link.model();
            insert_entry(&mut dir.userland, path[i].1.clone(), link);
            proof {
                lemma_userland_put(before_entries, path[i as int].1@, link, dir.userland@);
                assert(steps.last() == (before, path[i as int].1@));
                assert(steps.drop_last() =~= steps_model(path@).subrange(0, i as int));
                assert(dir.model() == before.with_entry(path[i as int].1@, link_model));
            }
            working_dir = Rc::new(dir);
        }
        working_dir
    }
}

/// Looking a name up among the entries in memory is looking it up in the
/// model.
pub proof fn lemma_userland_find(entries: Seq<(String, PublicLink)>, name: Name)
    ensures
        match find(entries_view(entries), name) {
            Some(link) => find(userland_model(entries), name) == Some(link.model()),
            None => find(userland_model(entries), name) is None,
        },
    decreases entries.len(),
{
    if entries.len() > 0 {
        lemma_userland_find(entries.drop_first(), name);
        assert(entries_view(entries).drop_first() =~= entries_view(entries.drop_first()));
        assert(userland_model(entries).drop_first() =~= userland_model(entries.drop_first()));
    }
}

/// Binding a name among the entries in memory is binding it in the model.
pub proof fn lemma_userland_put(
    before: Seq<(String, PublicLink)>,
    name: Name,
    link: PublicLink,
    after: Seq<(String, PublicLink)>,
)
    requires
        entries_view(after) == put(entries_view(before), name, link),
    ensures
        userland_model(after) == put(userland_model(before), name, link.model()),
    decreases before.len(),
{
    let a = entries_view(after);
    if before.len() == 0 {
        assert(a.len() == 1 && a[0] == (name, link));
        assert(after.len() == 1);
        assert(userland_model(after) =~= seq![(name, link.model())]);
    } else {
        let head = entries_view(before)[0];
        assert(userland_model(before)[0].0 == head.0);
        assert(userland_model(before).drop_first() =~= userland_model(before.drop_first()));
        assert(entries_view(before).drop_first() =~= entries_view(before.drop_first()));
        if head.0 == name {
            assert(a =~= seq![(name, link)] + entries_view(before).drop_first());
            assert(after.len() == before.len());
            assert forall|i: int| 0 <= i < after.len() implies #[trigger] userland_model(after)[i] == (
            seq![(name, link.model())] + userland_model(before).drop_first())[i] by {
                assert(a[i] == (after[i].0@, after[i].1));
                if i > 0 {
                    assert(a[i] == entries_view(before)[i]);
                }
            }
            assert(userland_model(after) =~= seq![(name, link.model())] + userland_model(
                before,
            ).drop_first());
        } else if crate::order::name_lt(name, head.0) {
            assert(a =~= seq![(name, link)] + entries_view(before));
            assert(after.len() == before.len() + 1);
            assert forall|i: int| 0 <= i < after.len() implies #[trigger] userland_model(after)[i] == (
            seq![(name, link.model())] + userland_model(before))[i] by {
                assert(a[i] == (after[i].0@, after[i].1));
                if i > 0 {
                    assert(a[i] == entries_view(before)[i - 1]);
                }
            }
            assert(userland_model(after) =~= seq![(name, link.model())] + userland_model(before));
        } else {
            let rest = put(entries_view(before).drop_first(), name, link);
            assert(a =~= seq![head] + rest);
            assert(after.len() > 0);
            assert(a[0] == (after[0].0@, after[0].1));
            assert(a.drop_first() =~= rest);
            assert(entries_view(after).drop_first() =~= entries_view(after.drop_first()));
            assert(entries_view(after.drop_first()) =~= rest);
            lemma_userland_put(before.drop_first(), name, link, after.drop_first());
            assert(userland_model(after).drop_first() =~= userland_model(after.drop_first()));
            assert(userland_model(after)[0] == userland_model(before)[0]);
            assert(userland_model(after) =~= seq![userland_model(before)[0]] + put(
                userland_model(before).drop_first(),
                name,
                link.model(),
            ));
        }
    }
}

/// A walk that went through nothing first is the walk itself.
pub proof fn lemma_after_nothing(r: Result<WalkModel, FsError>)
    ensures
        after(Seq::empty(), r) == r,
{
    match r {
        Ok(WalkModel::Complete(p)) => {
            assert(Seq::<(DirModel, Name)>::empty() + p.path =~= p.path);
        },
        Ok(WalkModel::MissingLink(p, _)) => {
            assert(Seq::<(DirModel, Name)>::empty() + p.path =~= p.path);
        },
        Ok(WalkModel::NotADirectory(p, _)) => {
            assert(Seq::<(DirModel, Name)>::empty() + p.path =~= p.path);
        },
        Err(_) => {},
    }
}

/// Going through `done`, then through one more step, is going through both.
pub proof fn lemma_after_after(
    done: Seq<(DirModel, Name)>,
    step: (DirModel, Name),
    r: Result<WalkModel, FsError>,
)
    ensures
        after(done, after(seq![step], r)) == after(done.push(step), r),
{
    match r {
        Ok(WalkModel::Complete(p)) => {
            assert(done + (seq![step] + p.path) =~= done.push(step) + p.path);
        },
        Ok(WalkModel::MissingLink(p, _)) => {
            assert(done + (seq![step] + p.path) =~= done.push(step) + p.path);
        },
        Ok(WalkModel::NotADirectory(p, _)) => {
            assert(done + (seq![step] + p.path) =~= done.push(step) + p.path);
        },
        Err(_) => {},
    }
}

/// A walk that meets no address on `path` meets none on the way to the
/// last segment, and where it gets there, the directory it ends in holds
/// that segment in memory, if at all.
pub proof fn lemma_meets_none(dir: DirModel, path: Seq<Name>, blocks: Blocks)
    requires
        path.len() > 0,
        !meets_address(dir, path),
    ensures
        !meets_address(dir, path.drop_last()),
        walk(dir, path.drop_last(), blocks) matches Ok(WalkModel::Complete(p)) ==> !held_by_address(
            p.tail,
            path.last(),
        ),
    decreases path.len(),
{
    let front = path.drop_last();
    if path.len() > 1 {
        assert(front[0] == path[0]);
        assert(front.drop_first() =~= path.drop_first().drop_last());
        match find(dir.userland, path[0]) {
            Some(LinkModel::Decoded(NodeModel::Dir(next))) => {
                lemma_meets_none(next, path.drop_first(), blocks);
                assert(path.drop_first().last() == path.last());
            },
            _ => {},
        }
    }
}

/// A walk that stops at a segment has passed fewer directories than the
/// path has segments; one that completes has passed as many.
pub proof fn lemma_walk_length(dir: DirModel, path: Seq<Name>, blocks: Blocks)
    ensures
        match walk(dir, path, blocks) {
            Ok(WalkModel::Complete(p)) => p.path.len() == path.len(),
            Ok(WalkModel::MissingLink(p, name)) => p.path.len() < path.len() && name
                == path[p.path.len() as int],
            Ok(WalkModel::NotADirectory(p, name)) => p.path.len() < path.len() && name
                == path[p.path.len() as int],
            Err(_) => true,
        },
    decreases path.len(),
{
    if path.len() > 0 {
        match lookup(dir, path[0], blocks) {
            Ok(Some(NodeModel::Dir(next))) => {
                lemma_walk_length(next, path.drop_first(), blocks);
            },
            _ => {},
        }
    }
}

} // verus!
