//! What every node records about itself besides its content.

use vstd::prelude::*;

verus! {

/// The kind of a node, as UnixFS names it.
#[derive(Clone, Copy, Debug, PartialEq, Eq, Structural)]
pub enum UnixFsNodeKind {
    Raw,
    File,
    Dir,
    Metadata,
    SymLink,
    HAMTShard,
}

/// A semantic version number.
#[derive(Clone, Copy, Debug, PartialEq, Eq, Structural)]
pub struct Version {
    pub major: u64,
    pub minor: u64,
    pub patch: u64,
}

impl Version {
    /// The version with the three given parts.
    pub fn new(major: u64, minor: u64, patch: u64) -> (r: Version)
        ensures
            r == (Version { major, minor, patch }),
    {
        Version { major, minor, patch }
    }
}

/// The UnixFS part of a node's metadata. Times are seconds since the epoch.
#[derive(Clone, Copy, Debug, PartialEq, Eq, Structural)]
pub struct UnixFsMetadata {
    pub created: i64,
    pub modified: i64,
    pub mode: u32,
    pub kind: UnixFsNodeKind,
}

/// The metadata of a file or a directory.
#[derive(Clone, Copy, Debug, PartialEq, Eq, Structural)]
pub struct Metadata {
    pub unix_fs: UnixFsMetadata,
    pub version: Version,
}

/// Permissions that a new node of the given kind gets.
pub open spec fn default_mode(kind: UnixFsNodeKind) -> u32 {
    match kind {
        UnixFsNodeKind::Dir | UnixFsNodeKind::HAMTShard => 755,
        _ => 644,
    }
}

impl Metadata {
    /// The metadata of a node of the given kind made at `time`.
    pub open spec fn created_at(time: i64, kind: UnixFsNodeKind) -> Metadata {
        Metadata {
            unix_fs: UnixFsMetadata {
                created: time,
                modified: time,
                mode: default_mode(kind),
                kind,
            },
            version: Version { major: 1, minor: 0, patch: 0 },
        }
    }

    /// `self` with its modification time set to `time`.
    pub open spec fn with_mtime(self, time: i64) -> Metadata {
        Metadata {
            unix_fs: UnixFsMetadata { modified: time, ..self.unix_fs },
            version: self.version,
        }
    }

    /// Makes the metadata of a node of the given kind, created and last
    /// modified at `time`.
    pub fn new(time: i64, kind: UnixFsNodeKind) -> (r: Metadata)
        ensures
            r == Metadata::created_at(time, kind),
    {
        let mode: u32 = match kind {
            UnixFsNodeKind::Dir | UnixFsNodeKind::HAMTShard => 755,
            _ => 644,
        };
        Metadata {
            unix_fs: UnixFsMetadata { created: time, modified: time, mode, kind },
            version: Version::new(1, 0, 0),
        }
    }

    /// Sets the modification time and leaves the rest as it is.
    pub fn upsert_mtime(&mut self, time: i64)
        ensures
            *final(self) == old(self).with_mtime(time),
    {
        self.unix_fs.modified = time;
    }

    /// The time of creation.
    pub fn get_created(&self) -> (r: i64)
        ensures
            r == self.unix_fs.created,
    {
        self.unix_fs.created
    }

    /// The time of the last modification.
    pub fn get_modified(&self) -> (r: i64)
        ensures
            r == self.unix_fs.modified,
    {
        self.unix_fs.modified
    }
}

} // verus!
