//! Files, directories and the links between them.

use vstd::prelude::*;
use std::rc::Rc;
use crate::assoc::{find, sorted, Name};
use crate::cid::Cid;
use crate::metadata::{Metadata, UnixFsNodeKind};

verus! {

/// A file of the public tree: its metadata, the address of its content and
/// the address of the version that it replaces.
#[derive(Clone, Copy, Debug, PartialEq, Eq)]
pub struct PublicFile {
    pub metadata: Metadata,
    pub userland: Cid,
    pub previous: Option<Cid>,
}

/// A file or a directory of the public tree.
#[derive(Debug, PartialEq)]
pub enum PublicNode {
    File(Rc<PublicFile>),
    Dir(Rc<PublicDirectory>),
}

/// A link to a node: the node itself, or the address of its block.
#[derive(Debug, PartialEq)]
pub enum PublicLink {
    Encoded(Cid),
    Decoded(PublicNode),
}

/// A directory of the public tree. Its entries are kept in the order of
/// their names.
#[derive(Debug, PartialEq)]
pub struct PublicDirectory {
    pub metadata: Metadata,
    pub userland: Vec<(String, PublicLink)>,
    pub previous: Option<Cid>,
}

/// What an operation on a directory gives back: the root of the tree after
/// it, and the operation's own result.
#[derive(Debug, PartialEq)]
pub struct PublicOpResult<T> {
    /// The root directory.
    pub root_dir: Rc<PublicDirectory>,
    /// The operation's result.
    pub result: T,
}

/// A link as contracts see it.
pub enum LinkModel {
    Encoded(Cid),
    Decoded(NodeModel),
}

/// A node as contracts see it.
pub enum NodeModel {
    File(PublicFile),
    Dir(DirModel),
}

/// A directory as contracts see it.
pub struct DirModel {
    pub metadata: Metadata,
    pub userland: Seq<(Name, LinkModel)>,
    pub previous: Option<Cid>,
}

/// A directory made at `time`, with no entries and no earlier version.
pub open spec fn fresh_dir(time: i64) -> DirModel {
    DirModel {
        metadata: Metadata::created_at(time, UnixFsNodeKind::Dir),
        userland: Seq::empty(),
        previous: None,
    }
}

/// A file made at `time` with the given content.
pub open spec fn fresh_file(time: i64, content: Cid) -> PublicFile {
    PublicFile {
        metadata: Metadata::created_at(time, UnixFsNodeKind::File),
        userland: content,
        previous: None,
    }
}

impl NodeModel {
    /// The node's metadata.
    pub open spec fn metadata(self) -> Metadata {
        match self {
            NodeModel::File(f) => f.metadata,
            NodeModel::Dir(d) => d.metadata,
        }
    }

    /// The address of the version that this node replaces.
    pub open spec fn previous(self) -> Option<Cid> {
        match self {
            NodeModel::File(f) => f.previous,
            NodeModel::Dir(d) => d.previous,
        }
    }

    /// The node with its modification time set to `time`.
    pub open spec fn with_mtime(self, time: i64) -> NodeModel {
        match self {
            NodeModel::File(f) => NodeModel::File(
                PublicFile { metadata: f.metadata.with_mtime(time), ..f },
            ),
            NodeModel::Dir(d) => NodeModel::Dir(
                DirModel { metadata: d.metadata.with_mtime(time), ..d },
            ),
        }
    }
}

impl DirModel {
    /// The names of the entries grow strictly, here and in every directory
    /// that is held below.
    pub open spec fn wf(self) -> bool
        decreases self,
    {
        &&& sorted(self.userland)
        &&& forall|i: int|
            0 <= i < self.userland.len() ==> match (#[trigger] self.userland[i]).1 {
                LinkModel::Decoded(NodeModel::Dir(d)) => d.wf(),
                _ => true,
            }
    }

    /// The directory with `name` bound to `link`.
    pub open spec fn with_entry(self, name: Name, link: LinkModel) -> DirModel {
        DirModel { userland: crate::assoc::put(self.userland, name, link), ..self }
    }

    /// The directory without the entry `name`.
    pub open spec fn without_entry(self, name: Name) -> DirModel {
        DirModel { userland: crate::assoc::delete(self.userland, name), ..self }
    }

    /// The link that `name` is bound to.
    pub open spec fn entry(self, name: Name) -> Option<LinkModel> {
        find(self.userland, name)
    }
}

impl LinkModel {
    /// Every directory that the link holds is well formed.
    pub open spec fn wf(self) -> bool {
        match self {
            LinkModel::Decoded(NodeModel::Dir(d)) => d.wf(),
            _ => true,
        }
    }
}

/// The entries of a directory as contracts see them.
pub open spec fn userland_model(entries: Seq<(String, PublicLink)>) -> Seq<(Name, LinkModel)>
    decreases entries,
{
    Seq::new(
        entries.len(),
        |i: int|
            if 0 <= i < entries.len() {
                (entries[i].0@, entries[i].1.model())
            } else {
                (Seq::empty(), LinkModel::Encoded(Cid::zero()))
            },
    )
}

impl PublicLink {
    /// The link that `self` holds.
    pub open spec fn model(&self) -> LinkModel
        decreases self,
    {
        match self {
            PublicLink::Encoded(c) => LinkModel::Encoded(*c),
            PublicLink::Decoded(n) => LinkModel::Decoded(n.model()),
        }
    }

    /// A link to a directory held in memory.
    pub fn with_dir(dir: Rc<PublicDirectory>) -> (r: PublicLink)
        ensures
            r.model() == LinkModel::Decoded(NodeModel::Dir(dir.model())),
    {
        PublicLink::Decoded(PublicNode::Dir(dir))
    }

    /// A link to a file held in memory.
    pub fn with_file(file: Rc<PublicFile>) -> (r: PublicLink)
        ensures
            r.model() == LinkModel::Decoded(NodeModel::File(*file)),
    {
        PublicLink::Decoded(PublicNode::File(file))
    }

    /// A link to a node held in memory.
    pub fn new(node: PublicNode) -> (r: PublicLink)
        ensures
            r.model() == LinkModel::Decoded(node.model()),
    {
        PublicLink::Decoded(node)
    }

    /// A link to the block at `cid`.
    pub fn from_cid(cid: Cid) -> (r: PublicLink)
        ensures
            r.model() == LinkModel::Encoded(cid),
    {
        PublicLink::Encoded(cid)
    }
}

impl PublicNode {
    /// The node that `self` holds.
    pub open spec fn model(&self) -> NodeModel
        decreases self,
    {
        match self {
            PublicNode::File(f) => NodeModel::File(**f),
            PublicNode::Dir(d) => NodeModel::Dir(d.model()),
        }
    }

    /// Tells whether the node is a directory.
    pub fn is_dir(&self) -> (r: bool)
        ensures
            r == (self.model() is Dir),
    {
        matches!(self, PublicNode::Dir(_))
    }

    /// Tells whether the node is a file.
    pub fn is_file(&self) -> (r: bool)
        ensures
            r == (self.model() is File),
    {
        matches!(self, PublicNode::File(_))
    }

    /// The address of the version that this node replaces.
    pub fn get_previous(&self) -> (r: Option<Cid>)
        ensures
            r == self.model().previous(),
    {
        match self {
            PublicNode::File(f) => f.previous,
            PublicNode::Dir(d) => d.previous,
        }
    }

    /// The node's metadata.
    pub fn get_metadata(&self) -> (r: Metadata)
        ensures
            r == self.model().metadata(),
    {
        match self {
            PublicNode::File(f) => f.metadata,
            PublicNode::Dir(d) => d.metadata,
        }
    }

    /// A copy of the node with its modification time set to `time`.
    pub fn update_mtime(&self, time: i64) -> (r: PublicNode)
        ensures
            r.model() == self.model().with_mtime(time),
    {
        match self {
            PublicNode::File(f) => {
                let mut file: PublicFile = **f;
                file.metadata.upsert_mtime(time);
                PublicNode::File(Rc::new(file))
            },
            PublicNode::Dir(d) => {
                let mut dir = d.copy();
                dir.metadata.upsert_mtime(time);
                PublicNode::Dir(Rc::new(dir))
            },
        }
    }
}

impl PublicFile {
    /// Makes a file at `time` with the given content.
    pub fn new(time: i64, content: Cid) -> (r: PublicFile)
        ensures
            r == fresh_file(time, content),
    {
        PublicFile {
            metadata: Metadata::new(time, UnixFsNodeKind::File),
            userland: content,
            previous: None,
        }
    }

    /// The address of the version that this file replaces.
    pub fn get_previous(&self) -> (r: Option<Cid>)
        ensures
            r == self.previous,
    {
        self.previous
    }
}

impl PublicDirectory {
    /// The directory that `self` holds.
    pub open spec fn model(&self) -> DirModel
        decreases self,
    {
        DirModel {
            metadata: self.metadata,
            userland: userland_model(self.userland@),
            previous: self.previous,
        }
    }

    /// The names of the entries grow strictly, here and below.
    pub open spec fn wf(&self) -> bool {
        self.model().wf()
    }

    /// Makes a directory at `time`, with no entries.
    pub fn new(time: i64) -> (r: PublicDirectory)
        ensures
            r.model() == fresh_dir(time),
            r.wf(),
    {
        let r = PublicDirectory {
            metadata: Metadata::new(time, UnixFsNodeKind::Dir),
            userland: Vec::new(),
            previous: None,
        };
        proof {
            assert(r.model().userland =~= Seq::empty());
        }
        r
    }

    /// The address of the version that this directory replaces.
    pub fn get_previous(&self) -> (r: Option<Cid>)
        ensures
            r == self.model().previous,
    {
        self.previous
    }

    /// The directory's metadata.
    pub fn get_metadata(&self) -> (r: &Metadata)
        ensures
            *r == self.model().metadata,
    {
        &self.metadata
    }

    /// A copy of the directory that shares the nodes below it.
    pub fn copy(&self) -> (r: PublicDirectory)
        ensures
            r.model() == self.model(),
    {
        let mut userland: Vec<(String, PublicLink)> = Vec::new();
        let mut i: usize = 0;
        while i < self.userland.len()
            invariant
                i <= self.userland.len(),
                userland.len() == i,
                forall|j: int|
                    0 <= j < i ==> (#[trigger] userland[j]).0@ == self.userland[j].0@
                        && userland[j].1.model() == self.userland[j].1.model(),
            decreases self.userland.len() - i,
        {
            let name = self.userland[i].0.clone();
            let link = self.userland[i].1.clone();
            userland.push((name, link));
            i += 1;
        }
        let r = PublicDirectory { metadata: self.metadata, userland, previous: self.previous };
        proof {
            assert(r.model().userland =~= self.model().userland);
        }
        r
    }
}

impl Clone for PublicLink {
    fn clone(&self) -> (r: Self)
        ensures
            r.model() == self.model(),
    {
        match self {
            PublicLink::Encoded(c) => PublicLink::Encoded(*c),
            PublicLink::Decoded(n) => PublicLink::Decoded(n.clone()),
        }
    }
}

impl Clone for PublicNode {
    fn clone(&self) -> (r: Self)
        ensures
            r.model() == self.model(),
    {
        match self {
            PublicNode::File(f) => PublicNode::File(Rc::clone(f)),
            PublicNode::Dir(d) => PublicNode::Dir(Rc::clone(d)),
        }
    }
}

impl Clone for PublicDirectory {
    fn clone(&self) -> (r: Self)
        ensures
            r.model() == self.model(),
    {
        self.copy()
    }
}

/// The names of a path as contracts see them.
pub open spec fn path_view(path: Seq<String>) -> Seq<Name> {
    Seq::new(path.len(), |i: int| path[i]@)
}

} // verus!
