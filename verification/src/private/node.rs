//! The nodes of the private tree, their headers and the capabilities that
//! are derived from the headers.

use vstd::prelude::*;
use skip_ratchet::Ratchet;
use std::rc::Rc;
use crate::assoc::Name;
use crate::cid::HashOutput;
use crate::error::FsError;
use crate::hash::{hash, sha3_256_digest};
use crate::metadata::{Metadata, UnixFsNodeKind, Version};
use crate::private::entropy::{draw, Entropy};
use crate::private::key::Key;
use crate::private::namefilter::{added, packed, saturated, Namefilter};
use crate::private::ratchet::{
    derive_key, duplicate, inc, ratchet_key, ratchet_next, ratchet_zero, zero,
};

verus! {

/// The identity of a node: 32 random bytes that stay with the node for its
/// lifetime.
pub type INumber = HashOutput;

/// The key that the content of a node is encrypted with.
#[derive(Clone, Copy, Debug, PartialEq, Eq)]
pub struct ContentKey(pub Key);

/// The key that the header of a node is encrypted with.
#[derive(Clone, Copy, Debug, PartialEq, Eq)]
pub struct RatchetKey(pub Key);

/// The header of a private node: what is secret about the node.
#[derive(Debug, PartialEq, Eq)]
pub struct PrivateNodeHeader {
    /// The identity of the node.
    pub inumber: INumber,
    /// The chain of keys of the node's versions.
    pub ratchet: Ratchet,
    /// The bare name of the parent with the node's identity added.
    pub bare_name: Namefilter,
}

/// The capability for one version of one node: where the node is found
/// and how it is decrypted.
#[derive(Clone, Copy, Debug, PartialEq, Eq)]
pub struct PrivateRef {
    /// The hash of the saturated name.
    pub saturated_name_hash: HashOutput,
    /// The hash of the ratchet key.
    pub content_key: ContentKey,
    /// The key that the ratchet gives.
    pub ratchet_key: RatchetKey,
}

/// A file of the private tree.
#[derive(Debug, PartialEq)]
pub struct PrivateFile {
    pub version: Version,
    pub header: PrivateNodeHeader,
    pub metadata: Metadata,
    pub content: Vec<u8>,
}

/// A directory of the private tree. Its entries, kept in the order of their
/// names, hold the capability of each child.
#[derive(Debug, PartialEq)]
pub struct PrivateDirectory {
    pub version: Version,
    pub header: PrivateNodeHeader,
    pub metadata: Metadata,
    pub entries: Vec<(String, PrivateRef)>,
}

/// A file or a directory of the private tree.
#[derive(Debug, PartialEq)]
pub enum PrivateNode {
    File(Rc<PrivateFile>),
    Dir(Rc<PrivateDirectory>),
}

/// A private file as contracts see it.
pub struct PrivateFileModel {
    pub version: Version,
    pub header: PrivateNodeHeader,
    pub metadata: Metadata,
    pub content: Seq<u8>,
}

/// A private directory as contracts see it.
pub struct PrivateDirModel {
    pub version: Version,
    pub header: PrivateNodeHeader,
    pub metadata: Metadata,
    pub entries: Seq<(Name, PrivateRef)>,
}

/// A private node as contracts see it.
pub enum PrivateNodeModel {
    File(PrivateFileModel),
    Dir(PrivateDirModel),
}

/// The saturated name of a node: its bare name with the ratchet key added,
/// saturated.
pub open spec fn saturated_name(bare_name: Namefilter, key: HashOutput) -> Seq<bool> {
    saturated(added(bare_name.bits@, key@))
}

/// The capability that a header gives.
pub open spec fn private_ref_of(header: PrivateNodeHeader) -> PrivateRef {
    let key = ratchet_key(header.ratchet);
    PrivateRef {
        saturated_name_hash: sha3_256_digest(packed(saturated_name(header.bare_name, key))),
        content_key: ContentKey(Key(sha3_256_digest(key@))),
        ratchet_key: RatchetKey(Key(key)),
    }
}

/// Whether `header` is the header of a node with the identity `inumber`
/// below a parent with the bare name `parent`, with a ratchet that starts
/// at `seed`.
pub open spec fn is_header_below(
    header: PrivateNodeHeader,
    parent: Namefilter,
    inumber: INumber,
    seed: HashOutput,
) -> bool {
    &&& header.inumber == inumber
    &&& header.ratchet == ratchet_zero(seed@)
    &&& header.bare_name.bits@ == added(parent.bits@, inumber@)
}

/// Whether `header` is a fresh header below `parent`, made of the next two
/// values of `entropy`.
pub open spec fn is_fresh_header(header: PrivateNodeHeader, parent: Namefilter, entropy: Entropy)
    -> bool {
    is_header_below(
        header,
        parent,
        draw(entropy.seed, entropy.counter),
        draw(entropy.advanced().seed, entropy.advanced().counter),
    )
}

/// The version number that private nodes are written with.
pub open spec fn private_version() -> Version {
    Version { major: 0, minor: 2, patch: 0 }
}

impl PrivateNodeHeader {

    /// Makes the header of a new node below a parent with the bare name
    /// `parent_bare_name`, with an identity and a ratchet seed drawn from
    /// `entropy`.
    pub fn new(parent_bare_name: Namefilter, entropy: &mut Entropy) -> (r:
        PrivateNodeHeader)
        ensures
            is_fresh_header(r, parent_bare_name, *old(entropy)),
            *final(entropy) == old(entropy).advanced().advanced(),
    {
        let (inumber, ratchet_seed) = PrivateNode::generate_double_random(entropy);
        let mut bare_name = parent_bare_name;
        bare_name.add(inumber.as_slice());
        PrivateNodeHeader { inumber, ratchet: zero(ratchet_seed), bare_name }
    }

    /// A copy of the header.
    pub fn copy(&self) -> (r: PrivateNodeHeader)
        ensures
            r == *self,
    {
        PrivateNodeHeader {
            inumber: self.inumber,
            ratchet: duplicate(&self.ratchet),
            bare_name: self.bare_name,
        }
    }

    /// Advances the ratchet by one step.
    pub fn advance_ratchet(&mut self)
        ensures
            final(self).ratchet == ratchet_next(old(self).ratchet),
            final(self).inumber == old(self).inumber,
            final(self).bare_name == old(self).bare_name,
    {
        inc(&mut self.ratchet);
    }

    /// Gets the capability of the node at the present step of its ratchet.
    pub fn get_private_ref(&self) -> (r: Result<PrivateRef, FsError>)
        ensures
            r == Ok::<PrivateRef, FsError>(private_ref_of(*self)),
    {
        let ratchet_key = Key::new(derive_key(&self.ratchet));
        let saturated_name_hash = hash(
            self.get_saturated_name_with_key(&ratchet_key).to_bytes().as_slice(),
        );
        Ok(
            PrivateRef {
                saturated_name_hash,
                content_key: ContentKey(Key::new(hash(ratchet_key.as_bytes().as_slice()))),
                ratchet_key: RatchetKey(ratchet_key),
            },
        )
    }

    /// Gets the saturated name of the node for a ratchet key.
    pub fn get_saturated_name_with_key(&self, ratchet_key: &Key) -> (r: Namefilter)
        ensures
            r.bits@ == saturated_name(self.bare_name, ratchet_key.0),
    {
        let mut name = self.bare_name;
        name.add(ratchet_key.as_bytes().as_slice());
        name.saturate();
        name
    }

    /// Gets the saturated name of the node at the present step of its
    /// ratchet.
    pub fn get_saturated_name(&self) -> (r: Namefilter)
        ensures
            r.bits@ == saturated_name(self.bare_name, ratchet_key(self.ratchet)),
    {
        let ratchet_key = Key::new(derive_key(&self.ratchet));
        self.get_saturated_name_with_key(&ratchet_key)
    }

    /// Sets the bare name to the bare name of a new parent with the node's
    /// identity added.
    pub fn update_bare_name(&mut self, parent_bare_name: Namefilter)
        ensures
            final(self).bare_name.bits@ == added(parent_bare_name.bits@, old(self).inumber@),
            final(self).inumber == old(self).inumber,
            final(self).ratchet == old(self).ratchet,
    {
        let mut namefilter = parent_bare_name;
        namefilter.add(self.inumber.as_slice());
        self.bare_name = namefilter;
    }

    /// Starts the ratchet anew from a seed drawn from `entropy`.
    pub fn reset_ratchet(&mut self, entropy: &mut Entropy)
        ensures
            final(self).ratchet == ratchet_zero(draw(old(entropy).seed, old(entropy).counter)@),
            final(self).inumber == old(self).inumber,
            final(self).bare_name == old(self).bare_name,
            *final(entropy) == old(entropy).advanced(),
    {
        self.ratchet = zero(entropy.next());
    }
}

impl Clone for PrivateNodeHeader {
    fn clone(&self) -> (r: Self)
        ensures
            r == *self,
    {
        self.copy()
    }
}

/// The entries of a private directory as contracts see them.
pub open spec fn refs_view(entries: Seq<(String, PrivateRef)>) -> Seq<(Name, PrivateRef)> {
    Seq::new(entries.len(), |i: int| (entries[i].0@, entries[i].1))
}

impl PrivateFile {
    /// The file that `self` holds.
    pub open spec fn model(&self) -> PrivateFileModel {
        PrivateFileModel {
            version: self.version,
            header: self.header,
            metadata: self.metadata,
            content: self.content@,
        }
    }

    /// Makes a file below a parent with the bare name `parent_bare_name`,
    /// with an identity and a ratchet seed drawn from `entropy`.
    pub fn new(
        parent_bare_name: Namefilter,
        time: i64,
        content: Vec<u8>,
        entropy: &mut Entropy,
    ) -> (r: PrivateFile)
        ensures
            r.version == private_version(),
            r.metadata == Metadata::created_at(time, UnixFsNodeKind::File),
            r.content@ == content@,
            is_fresh_header(r.header, parent_bare_name, *old(entropy)),
            *final(entropy) == old(entropy).advanced().advanced(),
    {
        PrivateFile {
            version: Version::new(0, 2, 0),
            header: PrivateNodeHeader::new(parent_bare_name, entropy),
            metadata: Metadata::new(time, UnixFsNodeKind::File),
            content,
        }
    }

    /// A copy of the file.
    pub fn copy(&self) -> (r: PrivateFile)
        ensures
            r.model() == self.model(),
    {
        PrivateFile {
            version: self.version,
            header: self.header.copy(),
            metadata: self.metadata,
            content: self.content.clone(),
        }
    }
}

impl PrivateDirectory {
    /// The directory that `self` holds.
    pub open spec fn model(&self) -> PrivateDirModel {
        PrivateDirModel {
            version: self.version,
            header: self.header,
            metadata: self.metadata,
            entries: refs_view(self.entries@),
        }
    }

    /// Makes a directory below a parent with the bare name
    /// `parent_bare_name`, with an identity and a ratchet seed drawn from
    /// `entropy`.
    pub fn new(parent_bare_name: Namefilter, time: i64, entropy: &mut Entropy) -> (r:
        PrivateDirectory)
        ensures
            r.version == private_version(),
            r.metadata == Metadata::created_at(time, UnixFsNodeKind::Dir),
            r.entries@.len() == 0,
            is_fresh_header(r.header, parent_bare_name, *old(entropy)),
            *final(entropy) == old(entropy).advanced().advanced(),
    {
        PrivateDirectory {
            version: Version::new(0, 2, 0),
            header: PrivateNodeHeader::new(parent_bare_name, entropy),
            metadata: Metadata::new(time, UnixFsNodeKind::Dir),
            entries: Vec::new(),
        }
    }

    /// A copy of the directory.
    pub fn copy(&self) -> (r: PrivateDirectory)
        ensures
            r.model() == self.model(),
    {
        let mut entries: Vec<(String, PrivateRef)> = Vec::new();
        let mut i: usize = 0;
        while i < self.entries.len()
            invariant
                i <= self.entries.len(),
                entries.len() == i,
                forall|j: int|
                    0 <= j < i ==> (#[trigger] entries[j]).0@ == self.entries[j].0@ && entries[j].1
                        == self.entries[j].1,
            decreases self.entries.len() - i,
        {
            entries.push((self.entries[i].0.clone(), self.entries[i].1));
            i += 1;
        }
        let r = PrivateDirectory {
            version: self.version,
            header: self.header.copy(),
            metadata: self.metadata,
            entries,
        };
        proof {
            assert(r.model().entries =~= self.model().entries);
        }
        r
    }

    /// Looks up the capability of the child called `name`.
    pub fn lookup(&self, name: &str) -> (r: Option<PrivateRef>)
        ensures
            r == crate::assoc::find(self.model().entries, name@),
    {
        proof {
            assert(crate::entries::entries_view(self.entries@) =~= self.model().entries);
        }
        match crate::entries::position(&self.entries, name) {
            Some(i) => Some(self.entries[i].1),
            None => None,
        }
    }
}

impl PrivateNodeModel {
    /// The header of the node.
    pub open spec fn header(self) -> PrivateNodeHeader {
        match self {
            PrivateNodeModel::File(f) => f.header,
            PrivateNodeModel::Dir(d) => d.header,
        }
    }

    /// The node with its modification time set to `time`.
    pub open spec fn with_mtime(self, time: i64) -> PrivateNodeModel {
        match self {
            PrivateNodeModel::File(f) => PrivateNodeModel::File(
                PrivateFileModel { metadata: f.metadata.with_mtime(time), ..f },
            ),
            PrivateNodeModel::Dir(d) => PrivateNodeModel::Dir(
                PrivateDirModel { metadata: d.metadata.with_mtime(time), ..d },
            ),
        }
    }
}

impl PrivateNode {
    /// The node that `self` holds.
    pub open spec fn model(&self) -> PrivateNodeModel {
        match self {
            PrivateNode::File(f) => PrivateNodeModel::File(f.model()),
            PrivateNode::Dir(d) => PrivateNodeModel::Dir(d.model()),
        }
    }

    /// A copy of the node with its modification time set to `time`.
    pub fn upsert_mtime(&self, time: i64) -> (r: PrivateNode)
        ensures
            r.model() == self.model().with_mtime(time),
    {
        match self {
            PrivateNode::File(file) => {
                let mut file = file.copy();
                file.metadata.upsert_mtime(time);
                PrivateNode::File(Rc::new(file))
            },
            PrivateNode::Dir(dir) => {
                let mut dir = dir.copy();
                dir.metadata.upsert_mtime(time);
                PrivateNode::Dir(Rc::new(dir))
            },
        }
    }

    /// Draws two values: an identity and a ratchet seed.
    pub fn generate_double_random(entropy: &mut Entropy) -> (r: (HashOutput, HashOutput))
        ensures
            r.0 == draw(old(entropy).seed, old(entropy).counter),
            r.1 == draw(old(entropy).advanced().seed, old(entropy).advanced().counter),
            *final(entropy) == old(entropy).advanced().advanced(),
    {
        let first = entropy.next();
        let second = entropy.next();
        (first, second)
    }

    /// Gets the header of the node.
    pub fn get_header(&self) -> (r: &PrivateNodeHeader)
        ensures
            *r == self.model().header(),
    {
        match self {
            PrivateNode::File(file) => &file.header,
            PrivateNode::Dir(dir) => &dir.header,
        }
    }

    /// Takes the node as a directory.
    pub fn as_dir(&self) -> (r: Result<Rc<PrivateDirectory>, FsError>)
        ensures
            match r {
                Ok(dir) => self.model() == PrivateNodeModel::Dir(dir.model()),
                Err(e) => self.model() is File && e == FsError::NotADirectory,
            },
    {
        match self {
            PrivateNode::Dir(dir) => Ok(Rc::clone(dir)),
            _ => Err(FsError::NotADirectory),
        }
    }

    /// Takes the node as a file.
    pub fn as_file(&self) -> (r: Result<Rc<PrivateFile>, FsError>)
        ensures
            match r {
                Ok(file) => self.model() == PrivateNodeModel::File(file.model()),
                Err(e) => self.model() is Dir && e == FsError::NotAFile,
            },
    {
        match self {
            PrivateNode::File(file) => Ok(Rc::clone(file)),
            _ => Err(FsError::NotAFile),
        }
    }

    /// Tells whether the node is a directory.
    pub fn is_dir(&self) -> (r: bool)
        ensures
            r == (self.model() is Dir),
    {
        matches!(self, PrivateNode::Dir(_))
    }

    /// Tells whether the node is a file.
    pub fn is_file(&self) -> (r: bool)
        ensures
            r == (self.model() is File),
    {
        matches!(self, PrivateNode::File(_))
    }
}

impl Clone for PrivateNode {
    fn clone(&self) -> (r: Self)
        ensures
            r.model() == self.model(),
    {
        match self {
            PrivateNode::File(f) => PrivateNode::File(Rc::clone(f)),
            PrivateNode::Dir(d) => PrivateNode::Dir(Rc::clone(d)),
        }
    }
}

} // verus!
