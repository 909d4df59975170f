//! Walking a path through the private tree, and building the tree anew
//! along a path that was walked.

use vstd::prelude::*;
use std::rc::Rc;
use crate::assoc::{find, put, sorted, Name};
use crate::entries::{entries_view, insert_entry};
use crate::error::{store_failed, FsError};
use crate::metadata::{Metadata, UnixFsNodeKind};
use crate::private::ancestry::{
    bare_name_below, commit, committed, lemma_namefilter_of, world_of, World,
};
use crate::private::entropy::{draw, Entropy};
use crate::private::forest::{forest_get, option_node_result, ForestMap, PrivateForest};
use crate::private::latest::{header_at, latest};
use crate::private::namefilter::Namefilter;
use crate::private::node::{
    is_fresh_header, private_ref_of, private_version, refs_view, PrivateDirModel,
    PrivateDirectory, PrivateNode, PrivateNodeHeader, PrivateNodeModel, PrivateRef,
};
use crate::private::ratchet::{ratchet_next, ratchet_zero};
use crate::public::node::path_view;
use crate::store::{BlockStore, Blocks};

verus! {

/// The directories along a path, each with the name under which the next
/// one hangs, and the directory at the end.
#[derive(Debug, PartialEq)]
pub struct PrivatePathNodes {
    pub path: Vec<(Rc<PrivateDirectory>, String)>,
    pub tail: Rc<PrivateDirectory>,
}

/// How far a walk along a path came.
#[derive(Debug, PartialEq)]
pub enum PrivatePathNodesResult {
    /// Every segment is a directory.
    Complete(PrivatePathNodes),
    /// The named segment does not exist in the directory at the end.
    MissingLink(PrivatePathNodes, String),
    /// The named segment is a file.
    NotADirectory(PrivatePathNodes, String),
}

/// Path nodes as contracts see them.
pub struct PrivatePathModel {
    pub path: Seq<(PrivateDirModel, Name)>,
    pub tail: PrivateDirModel,
}

/// The outcome of a walk as contracts see it.
pub enum PrivateWalkModel {
    Complete(PrivatePathModel),
    MissingLink(PrivatePathModel, Name),
    NotADirectory(PrivatePathModel, Name),
}

/// The latest version that the forest holds of the node that a capability
/// leads to, if the forest holds that node.
pub open spec fn resolved(private_ref: PrivateRef, forest: ForestMap, blocks: Blocks) -> Result<
    Option<PrivateNodeModel>,
    FsError,
> {
    match forest_get(forest, private_ref, blocks) {
        Err(e) => Err(e),
        Ok(None) => Ok(None),
        Ok(Some(node)) => match latest(node, forest, blocks, usize::MAX as nat) {
            Err(e) => Err(e),
            Ok(node) => Ok(Some(node)),
        },
    }
}

/// The latest version of the child called `name` that the forest holds,
/// if the directory has such a child and the forest holds it.
pub open spec fn child(dir: PrivateDirModel, name: Name, forest: ForestMap, blocks: Blocks)
    -> Result<Option<PrivateNodeModel>, FsError> {
    match find(dir.entries, name) {
        None => Ok(None),
        Some(private_ref) => resolved(private_ref, forest, blocks),
    }
}

/// Whether the directory has a child called `name` whose capability the
/// forest holds a block for.
pub open spec fn child_is_held(dir: PrivateDirModel, name: Name, forest: ForestMap) -> bool {
    match find(dir.entries, name) {
        None => false,
        Some(private_ref) => forest.contains_key(private_ref.saturated_name_hash),
    }
}

/// Whether a walk along `path` from `dir` has a block to read: the forest
/// holds one for the child that the first segment names.
pub open spec fn first_is_held(dir: PrivateDirModel, path: Seq<Name>, forest: ForestMap) -> bool {
    path.len() > 0 && child_is_held(dir, path[0], forest)
}

/// The outcome of walking `rest` from `dir`, after the steps `done`: the
/// walk goes on while each segment names a directory and stops at the
/// first that does not.
pub open spec fn walk_from(
    done: Seq<(PrivateDirModel, Name)>,
    dir: PrivateDirModel,
    rest: Seq<Name>,
    forest: ForestMap,
    blocks: Blocks,
) -> Result<PrivateWalkModel, FsError>
    decreases rest.len(),
{
    let here = PrivatePathModel { path: done, tail: dir };
    if rest.len() == 0 {
        Ok(PrivateWalkModel::Complete(here))
    } else {
        match child(dir, rest[0], forest, blocks) {
            Err(e) => Err(e),
            Ok(None) => Ok(PrivateWalkModel::MissingLink(here, rest[0])),
            Ok(Some(PrivateNodeModel::File(_))) => Ok(
                PrivateWalkModel::NotADirectory(here, rest[0]),
            ),
            Ok(Some(PrivateNodeModel::Dir(next))) => walk_from(
                done.push((dir, rest[0])),
                next,
                rest.drop_first(),
                forest,
                blocks,
            ),
        }
    }
}

/// The outcome of walking `path` from `dir`.
pub open spec fn walk(dir: PrivateDirModel, path: Seq<Name>, forest: ForestMap, blocks: Blocks)
    -> Result<PrivateWalkModel, FsError> {
    walk_from(Seq::empty(), dir, path, forest, blocks)
}

/// The header of a new node below a parent with the bare name `parent`,
/// made of the next two values of `entropy`.
pub open spec fn fresh_header(parent: Namefilter, entropy: Entropy) -> PrivateNodeHeader {
    let inumber = draw(entropy.seed, entropy.counter);
    PrivateNodeHeader {
        inumber,
        ratchet: ratchet_zero(draw(entropy.advanced().seed, entropy.advanced().counter)@),
        bare_name: bare_name_below(parent, inumber),
    }
}

/// A new, empty directory below a parent with the bare name `parent`.
pub open spec fn fresh_dir(parent: Namefilter, time: i64, entropy: Entropy) -> PrivateDirModel {
    PrivateDirModel {
        version: private_version(),
        header: fresh_header(parent, entropy),
        metadata: Metadata::created_at(time, UnixFsNodeKind::Dir),
        entries: Seq::empty(),
    }
}

/// The steps `done`, then a new directory for each segment of `rest` and
/// one more at the end, each below the one before it and the first below
/// a parent with the bare name `parent`; with the source of random values
/// as the directories leave it.
pub open spec fn created_from(
    done: Seq<(PrivateDirModel, Name)>,
    rest: Seq<Name>,
    parent: Namefilter,
    time: i64,
    entropy: Entropy,
) -> (PrivatePathModel, Entropy)
    decreases rest.len(),
{
    let dir = fresh_dir(parent, time, entropy);
    let left = entropy.advanced().advanced();
    if rest.len() == 0 {
        (PrivatePathModel { path: done, tail: dir }, left)
    } else {
        created_from(done.push((dir, rest[0])), rest.drop_first(), dir.header.bare_name, time, left)
    }
}

/// The nodes along `path`, with new directories from the first segment
/// that is missing.
pub open spec fn get_or_create(
    dir: PrivateDirModel,
    path: Seq<Name>,
    time: i64,
    forest: ForestMap,
    blocks: Blocks,
    entropy: Entropy,
) -> Result<(PrivatePathModel, Entropy), FsError> {
    match walk(dir, path, forest, blocks) {
        Err(e) => Err(e),
        Ok(PrivateWalkModel::Complete(p)) => Ok((p, entropy)),
        Ok(PrivateWalkModel::NotADirectory(_, _)) => Err(FsError::NotADirectory),
        Ok(PrivateWalkModel::MissingLink(p, name)) => Ok(
            created_from(
                p.path.push((p.tail, name)),
                path.subrange(p.path.len() as int + 1, path.len() as int),
                p.tail.header.bare_name,
                time,
                entropy,
            ),
        ),
    }
}

/// The next version of a directory: its ratchet advanced by one step and,
/// where a time is given, its modification time set.
pub open spec fn touched(dir: PrivateDirModel, time: Option<i64>) -> PrivateDirModel {
    PrivateDirModel {
        header: header_at(dir.header, ratchet_next(dir.header.ratchet)),
        metadata: match time {
            Some(t) => dir.metadata.with_mtime(t),
            None => dir.metadata,
        },
        ..dir
    }
}

/// The root of the tree built anew along the path nodes, and the world
/// after it: from the tail upwards the next version of each directory is
/// stored in the forest, and its capability bound in the directory above.
pub open spec fn fix_up(p: PrivatePathModel, time: Option<i64>, world: World) -> Result<
    (PrivateDirModel, World),
    FsError,
>
    decreases p.path.len(),
{
    let tail = touched(p.tail, time);
    match committed(PrivateNodeModel::Dir(tail), world) {
        Err(e) => Err(e),
        Ok(after) => if p.path.len() == 0 {
            Ok((tail, after))
        } else {
            let (dir, name) = p.path.last();
            fix_up(
                PrivatePathModel {
                    path: p.path.drop_last(),
                    tail: PrivateDirModel {
                        entries: put(dir.entries, name, private_ref_of(tail.header)),
                        ..dir
                    },
                },
                time,
                after,
            )
        },
    }
}

/// The path of path nodes as contracts see it.
pub open spec fn steps_model(path: Seq<(Rc<PrivateDirectory>, String)>) -> Seq<
    (PrivateDirModel, Name),
> {
    Seq::new(path.len(), |i: int| (path[i].0.model(), path[i].1@))
}

impl PrivatePathNodes {
    /// The path nodes that `self` holds.
    pub open spec fn model(&self) -> PrivatePathModel {
        PrivatePathModel { path: steps_model(self.path@), tail: self.tail.model() }
    }
}

impl PrivatePathNodesResult {
    /// The outcome that `self` holds.
    pub open spec fn model(&self) -> PrivateWalkModel {
        match self {
            PrivatePathNodesResult::Complete(p) => PrivateWalkModel::Complete(p.model()),
            PrivatePathNodesResult::MissingLink(p, name) => PrivateWalkModel::MissingLink(
                p.model(),
                name@,
            ),
            PrivatePathNodesResult::NotADirectory(p, name) => PrivateWalkModel::NotADirectory(
                p.model(),
                name@,
            ),
        }
    }

    /// The number of directories that the walk went through.
    pub open spec fn passed(&self) -> int {
        match self {
            PrivatePathNodesResult::Complete(p) => p.path@.len() as int,
            PrivatePathNodesResult::MissingLink(p, _) => p.path@.len() as int,
            PrivatePathNodesResult::NotADirectory(p, _) => p.path@.len() as int,
        }
    }
}

/// The result of a walk as contracts see it.
pub open spec fn walk_result(r: Result<PrivatePathNodesResult, FsError>) -> Result<
    PrivateWalkModel,
    FsError,
> {
    match r {
        Ok(w) => Ok(w.model()),
        Err(e) => Err(e),
    }
}

/// A header made of the next two values of a source is the fresh header
/// that the source gives.
pub proof fn lemma_fresh_header(header: PrivateNodeHeader, parent: Namefilter, entropy: Entropy)
    requires
        is_fresh_header(header, parent, entropy),
    ensures
        header == fresh_header(parent, entropy),
{
    lemma_namefilter_of(header.bare_name);
}

/// Gets the latest version that the forest holds of the node that a
/// capability leads to.
pub fn resolve_ref<B: BlockStore>(private_ref: &PrivateRef, forest: &PrivateForest, store: &B) -> (r:
    Result<Option<PrivateNode>, FsError>)
    ensures
        option_node_result(r) == resolved(*private_ref, forest@, store.blocks()) || (store_failed(r)
            && !store.reliable() && forest@.contains_key(private_ref.saturated_name_hash)),
        r matches Ok(Some(PrivateNode::Dir(dir))) ==> sorted(dir.model().entries),
{
    match forest.get(private_ref, store)? {
        None => Ok(None),
        Some(node) => {
            let newest = node.search_latest(forest, store)?;
            Ok(Some(newest))
        },
    }
}

impl PrivateDirectory {
    /// The next version of the directory: a copy with its ratchet advanced
    /// by one step and, where a time is given, its modification time set.
    pub fn touch(&self, time: Option<i64>) -> (r: PrivateDirectory)
        ensures
            r.model() == touched(self.model(), time),
    {
        let mut dir = self.copy();
        dir.header.advance_ratchet();
        match time {
            Some(t) => {
                dir.metadata.upsert_mtime(t);
            },
            None => {},
        }
        dir
    }

    /// Looks up the latest version of the child called `path_segment` that
    /// the forest holds.
    pub fn lookup_node<B: BlockStore>(
        &self,
        path_segment: &str,
        forest: &PrivateForest,
        store: &B,
    ) -> (r: Result<Option<PrivateNode>, FsError>)
        ensures
            option_node_result(r) == child(self.model(), path_segment@, forest@, store.blocks())
                || (store_failed(r) && !store.reliable() && child_is_held(
                self.model(),
                path_segment@,
                forest@,
            )),
            r matches Ok(Some(PrivateNode::Dir(dir))) ==> sorted(dir.model().entries),
    {
        match self.lookup(path_segment) {
            None => Ok(None),
            Some(private_ref) => resolve_ref(&private_ref, forest, store),
        }
    }

    /// Walks `path_segments` from this directory, as far as they name
    /// directories.
    pub fn get_path_nodes<B: BlockStore>(
        self: Rc<Self>,
        path_segments: &[String],
        forest: &PrivateForest,
        store: &B,
    ) -> (r: Result<PrivatePathNodesResult, FsError>)
        ensures
            walk_result(r) == walk(
                self.model(),
                path_view(path_segments@),
                forest@,
                store.blocks(),
            ) || (store_failed(r) && !store.reliable() && first_is_held(
                self.model(),
                path_view(path_segments@),
                forest@,
            )),
            r matches Ok(w) ==> w.passed() <= path_segments@.len() && (w is Complete <==> w.passed()
                == path_segments@.len()),
    {
        let ghost names = path_view(path_segments@);
        let ghost goal = walk(self.model(), names, forest@, store.blocks());
        let mut working_node = self;
        let mut path_nodes: Vec<(Rc<PrivateDirectory>, String)> = Vec::new();
        let mut i: usize = 0;
        proof {
            assert(names.subrange(0, names.len() as int) =~= names);
            assert(steps_model(path_nodes@) =~= Seq::empty());
        }
        while i < path_segments.len()
            invariant
                i <= path_segments.len(),
                path_nodes.len() == i,
                names == path_view(path_segments@),
                goal == walk(self.model(), names, forest@, store.blocks()),
                goal == walk_from(
                    steps_model(path_nodes@),
                    working_node.model(),
                    names.subrange(i as int, names.len() as int),
                    forest@,
                    store.blocks(),
                ),
                i == 0 ==> working_node.model() == self.model(),
                i > 0 ==> first_is_held(self.model(), names, forest@),
            decreases path_segments.len() - i,
        {
            let ghost rest = names.subrange(i as int, names.len() as int);
            let ghost done = steps_model(path_nodes@);
            let ghost here = working_node.model();
            proof {
                assert(rest[0] == path_segments[i as int]@);
                assert(rest.drop_first() =~= names.subrange(i + 1, names.len() as int));
            }
            let segment = &path_segments[i];
            let found = working_node.lookup_node(segment.as_str(), forest, store)?;
            match found {
                Some(PrivateNode::Dir(directory)) => {
                    path_nodes.push((Rc::clone(&working_node), segment.clone()));
                    proof {
                        assert(steps_model(path_nodes@) =~= done.push((here, rest[0])));
                    }
                    working_node = directory;
                },
                Some(PrivateNode::File(_)) => {
                    let nodes = PrivatePathNodes { path: path_nodes, tail: working_node };
                    return Ok(PrivatePathNodesResult::NotADirectory(nodes, segment.clone()));
                },
                None => {
                    let nodes = PrivatePathNodes { path: path_nodes, tail: working_node };
                    return Ok(PrivatePathNodesResult::MissingLink(nodes, segment.clone()));
                },
            }
            i += 1;
        }
        let nodes = PrivatePathNodes { path: path_nodes, tail: working_node };
        Ok(PrivatePathNodesResult::Complete(nodes))
    }

    /// Makes a new directory for each segment of `path_segments` and one
    /// more at the end, each below the one before it and the first below a
    /// parent with the bare name `parent_bare_name`. None of them holds the
    /// next yet.
    pub fn create_path_nodes(
        path_segments: &[String],
        time: i64,
        parent_bare_name: Namefilter,
        entropy: &mut Entropy,
    ) -> (r: PrivatePathNodes)
        ensures
            (r.model(), *final(entropy)) == created_from(
                Seq::empty(),
                path_view(path_segments@),
                parent_bare_name,
                time,
                *old(entropy),
            ),
    {
        proof {
            assert(steps_model(Seq::empty()) =~= Seq::empty());
        }
        Self::create_path_nodes_from(Vec::new(), path_segments, time, parent_bare_name, entropy)
    }

    /// Goes on from the steps `path` with a new directory for each segment
    /// of `path_segments` and one more at the end.
    pub fn create_path_nodes_from(
        path: Vec<(Rc<PrivateDirectory>, String)>,
        path_segments: &[String],
        time: i64,
        parent_bare_name: Namefilter,
        entropy: &mut Entropy,
    ) -> (r: PrivatePathNodes)
        ensures
            (r.model(), *final(entropy)) == created_from(
                steps_model(path@),
                path_view(path_segments@),
                parent_bare_name,
                time,
                *old(entropy),
            ),
    {
        let ghost names = path_view(path_segments@);
        let ghost goal = created_from(
            steps_model(path@),
            names,
            parent_bare_name,
            time,
            *entropy,
        );
        let mut path = path;
        let mut parent = parent_bare_name;
        let mut i: usize = 0;
        proof {
            assert(names.subrange(0, names.len() as int) =~= names);
        }
        while i < path_segments.len()
            invariant
                i <= path_segments.len(),
                names == path_view(path_segments@),
                goal == created_from(
                    steps_model(path@),
                    names.subrange(i as int, names.len() as int),
                    parent,
                    time,
                    *entropy,
                ),
            decreases path_segments.len() - i,
        {
            let ghost rest = names.subrange(i as int, names.len() as int);
            let ghost done = steps_model(path@);
            let ghost before = *entropy;
            proof {
                assert(rest[0] == path_segments[i as int]@);
                assert(rest.drop_first() =~= names.subrange(i + 1, names.len() as int));
            }
            let dir = PrivateDirectory::new(parent, time, entropy);
            proof {
                lemma_fresh_header(dir.header, parent, before);
                assert(dir.model().entries =~= Seq::empty());
                assert(dir.model() == fresh_dir(parent, time, before));
            }
            parent = dir.header.bare_name;
            let ghost made = dir.model();
            path.push((Rc::new(dir), path_segments[i].clone()));
            proof {
                assert(steps_model(path@) =~= done.push((made, rest[0])));
            }
            i += 1;
        }
        let ghost before = *entropy;
        let tail = PrivateDirectory::new(parent, time, entropy);
        proof {
            lemma_fresh_header(tail.header, parent, before);
            assert(tail.model().entries =~= Seq::empty());
            assert(tail.model() == fresh_dir(parent, time, before));
        }
        PrivatePathNodes { path, tail: Rc::new(tail) }
    }

    /// Walks `path_segments` from this directory and makes new directories
    /// from the first segment that is missing.
    pub fn get_or_create_path_nodes<B: BlockStore>(
        self: Rc<Self>,
        path_segments: &[String],
        time: i64,
        forest: &PrivateForest,
        store: &B,
        entropy: &mut Entropy,
    ) -> (r: Result<PrivatePathNodes, FsError>)
        ensures
            store_failed(r) && !store.reliable() && first_is_held(
                self.model(),
                path_view(path_segments@),
                forest@,
            ) || match r {
                Ok(p) => get_or_create(
                    self.model(),
                    path_view(path_segments@),
                    time,
                    forest@,
                    store.blocks(),
                    *old(entropy),
                ) == Ok::<(PrivatePathModel, Entropy), FsError>((p.model(), *final(entropy))),
                Err(e) => get_or_create(
                    self.model(),
                    path_view(path_segments@),
                    time,
                    forest@,
                    store.blocks(),
                    *old(entropy),
                ) == Err::<(PrivatePathModel, Entropy), FsError>(e),
            },
    {
        let ghost names = path_view(path_segments@);
        let walked = self.get_path_nodes(path_segments, forest, store)?;
        proof {
            assert(!(walked is Complete) ==> walked.passed() < path_segments@.len());
        }
        match walked {
            PrivatePathNodesResult::Complete(path_nodes) => Ok(path_nodes),
            PrivatePathNodesResult::NotADirectory(_, _) => Err(FsError::NotADirectory),
            PrivatePathNodesResult::MissingLink(path_so_far, missing_link) => {
                let total = path_segments.len();
                proof {
                    assert(path_so_far.path@.len() < total);
                }
                let start = path_so_far.path.len() + 1;
                let missing_path = vstd::slice::slice_subrange(path_segments, start, total);
                proof {
                    assert(path_view(missing_path@) =~= names.subrange(
                        start as int,
                        names.len() as int,
                    ));
                }
                let ghost so_far = path_so_far.model();
                let PrivatePathNodes { path: mut path, tail } = path_so_far;
                let parent = tail.header.bare_name;
                path.push((tail, missing_link));
                proof {
                    assert(steps_model(path@) =~= so_far.path.push((so_far.tail, missing_link@)));
                }
                Ok(Self::create_path_nodes_from(path, missing_path, time, parent, entropy))
            },
        }
    }

    /// Builds the tree anew along the path nodes: from the tail upwards
    /// the next version of each directory is stored in the forest, and its
    /// capability bound in the directory above. Gives the new root and the
    /// new forest.
    pub fn fix_up_path_nodes<B: BlockStore>(
        path_nodes: PrivatePathNodes,
        time: Option<i64>,
        forest: Rc<PrivateForest>,
        store: &mut B,
        entropy: &mut Entropy,
    ) -> (r: Result<(Rc<PrivateDirectory>, Rc<PrivateForest>), FsError>)
        requires
            forest.wf(),
        ensures
            final(store).reliable() == old(store).reliable(),
            store_failed(r) && !old(store).reliable() || match r {
                Ok((root, after)) => after.wf() && fix_up(
                    path_nodes.model(),
                    time,
                    world_of(&forest, old(store), *old(entropy)),
                ) == Ok::<(PrivateDirModel, World), FsError>(
                    (root.model(), world_of(&after, final(store), *final(entropy))),
                ),
                Err(e) => fix_up(
                    path_nodes.model(),
                    time,
                    world_of(&forest, old(store), *old(entropy)),
                ) == Err::<(PrivateDirModel, World), FsError>(e),
            },
    {
        let ghost goal = fix_up(path_nodes.model(), time, world_of(&forest, store, *entropy));
        let PrivatePathNodes { path, tail } = path_nodes;
        let mut working_forest = forest;
        let mut working_dir = tail.copy();
        let mut i: usize = path.len();
        proof {
            assert(steps_model(path@).subrange(0, i as int) =~= steps_model(path@));
        }
        while i > 0
            invariant
                i <= path.len(),
                working_forest.wf(),
                store.reliable() == old(store).reliable(),
                goal == fix_up(
                    path_nodes.model(),
                    time,
                    world_of(&forest, old(store), *old(entropy)),
                ),
                goal == fix_up(
                    PrivatePathModel {
                        path: steps_model(path@).subrange(0, i as int),
                        tail: working_dir.model(),
                    },
                    time,
                    world_of(&working_forest, store, *entropy),
                ),
            decreases i,
        {
            let ghost steps = steps_model(path@).subrange(0, i as int);
            let next = working_dir.touch(time);
            let child_ref = next.header.get_private_ref()?;
            let node = PrivateNode::Dir(Rc::new(next));
            working_forest = commit(&node, working_forest, store, entropy)?;
            i -= 1;
            let parent = &path[i].0;
            let mut entries = parent.copy().entries;
            let ghost before = parent.model();
            proof {
                assert(refs_view(entries@) =~= entries_view(entries@));
            }
            insert_entry(&mut entries, path[i].1.clone(), child_ref);
            let above = PrivateDirectory {
                version: parent.version,
                header: parent.header.copy(),
                metadata: parent.metadata,
                entries,
            };
            proof {
                assert(refs_view(above.entries@) =~= entries_view(above.entries@));
                assert(steps.last() == (before, path[i as int].1@));
                assert(steps.drop_last() =~= steps_model(path@).subrange(0, i as int));
                assert(above.model() == PrivateDirModel {
                    entries: put(before.entries, path[i as int].1@, child_ref),
                    ..before
                });
            }
            working_dir = above;
        }
        let root = Rc::new(working_dir.touch(time));
        let node = PrivateNode::Dir(Rc::clone(&root));
        let after = commit(&node, working_forest, store, entropy)?;
        Ok((root, after))
    }
}

} // verus!
