//! How the nodes of the public tree are written as values and read back.

use vstd::prelude::*;
use std::rc::Rc;
use crate::assoc::{find, sorted, Name};
use crate::cid::Cid;
use crate::error::FsError;
use crate::ipld::{
    dag_cbor_value, decode, entries_model, items_model, map_get, Value, ValueModel,
};
use crate::metadata::{Metadata, UnixFsMetadata, UnixFsNodeKind, Version};
use crate::public::in_order::{lemma_read_node_wf, node_wf};
use crate::public::node::{
    userland_model, DirModel, LinkModel, NodeModel, PublicDirectory, PublicFile, PublicLink,
    PublicNode,
};

verus! {

/// The number that stands for a kind of node.
pub open spec fn kind_code(kind: UnixFsNodeKind) -> int {
    match kind {
        UnixFsNodeKind::Raw => 0,
        UnixFsNodeKind::File => 1,
        UnixFsNodeKind::Dir => 2,
        UnixFsNodeKind::Metadata => 3,
        UnixFsNodeKind::SymLink => 4,
        UnixFsNodeKind::HAMTShard => 5,
    }
}

/// The kind of node that a number stands for.
pub open spec fn kind_of_code(code: int) -> Option<UnixFsNodeKind> {
    if code == 0 {
        Some(UnixFsNodeKind::Raw)
    } else if code == 1 {
        Some(UnixFsNodeKind::File)
    } else if code == 2 {
        Some(UnixFsNodeKind::Dir)
    } else if code == 3 {
        Some(UnixFsNodeKind::Metadata)
    } else if code == 4 {
        Some(UnixFsNodeKind::SymLink)
    } else if code == 5 {
        Some(UnixFsNodeKind::HAMTShard)
    } else {
        None
    }
}

/// The value that metadata is written as.
pub open spec fn metadata_value(m: Metadata) -> ValueModel {
    ValueModel::StringMap(
        seq![
            (
                "unix_fs"@,
                ValueModel::StringMap(
                    seq![
                        ("created"@, ValueModel::Integer(m.unix_fs.created as int)),
                        ("kind"@, ValueModel::Integer(kind_code(m.unix_fs.kind))),
                        ("mode"@, ValueModel::Integer(m.unix_fs.mode as int)),
                        ("modified"@, ValueModel::Integer(m.unix_fs.modified as int)),
                    ],
                ),
            ),
            (
                "version"@,
                ValueModel::List(
                    seq![
                        ValueModel::Integer(m.version.major as int),
                        ValueModel::Integer(m.version.minor as int),
                        ValueModel::Integer(m.version.patch as int),
                    ],
                ),
            ),
        ],
    )
}

/// The integer bound to `key`, where it lies from `low` to `high`.
pub open spec fn int_field(entries: Seq<(Name, ValueModel)>, key: Name, low: int, high: int)
    -> Option<int> {
    match find(entries, key) {
        Some(ValueModel::Integer(i)) => if low <= i <= high {
            Some(i)
        } else {
            None
        },
        _ => None,
    }
}

/// The integer at `index` of a list, where it fits 64 bits without sign.
pub open spec fn u64_item(items: Seq<ValueModel>, index: int) -> Option<u64> {
    if 0 <= index < items.len() {
        match items[index] {
            ValueModel::Integer(i) => if 0 <= i <= u64::MAX {
                Some(i as u64)
            } else {
                None
            },
            _ => None,
        }
    } else {
        None
    }
}

/// The version that a value holds: a list of three numbers.
pub open spec fn version_of_value(v: ValueModel) -> Option<Version> {
    match v {
        ValueModel::List(items) => if items.len() == 3 {
            match (u64_item(items, 0), u64_item(items, 1), u64_item(items, 2)) {
                (Some(major), Some(minor), Some(patch)) => Some(Version { major, minor, patch }),
                _ => None,
            }
        } else {
            None
        },
        _ => None,
    }
}

/// The UnixFS metadata that a value holds.
pub open spec fn unix_fs_of_value(v: ValueModel) -> Option<UnixFsMetadata> {
    match v {
        ValueModel::StringMap(entries) => match (
            int_field(entries, "created"@, i64::MIN as int, i64::MAX as int),
            int_field(entries, "modified"@, i64::MIN as int, i64::MAX as int),
            int_field(entries, "mode"@, 0, u32::MAX as int),
            int_field(entries, "kind"@, 0, 5),
        ) {
            (Some(created), Some(modified), Some(mode), Some(kind)) => Some(
                UnixFsMetadata {
                    created: created as i64,
                    modified: modified as i64,
                    mode: mode as u32,
                    kind: kind_of_code(kind)->0,
                },
            ),
            _ => None,
        },
        _ => None,
    }
}

/// The metadata that a value holds.
pub open spec fn metadata_of_value(v: ValueModel) -> Option<Metadata> {
    match v {
        ValueModel::StringMap(entries) => match (
            find(entries, "unix_fs"@),
            find(entries, "version"@),
        ) {
            (Some(u), Some(ver)) => match (unix_fs_of_value(u), version_of_value(ver)) {
                (Some(unix_fs), Some(version)) => Some(Metadata { unix_fs, version }),
                _ => None,
            },
            _ => None,
        },
        _ => None,
    }
}

/// The value that the address of an earlier version is written as.
pub open spec fn previous_value(previous: Option<Cid>) -> ValueModel {
    match previous {
        Some(cid) => ValueModel::Link(cid),
        None => ValueModel::Null,
    }
}

/// The address of an earlier version that the entries of a node hold.
pub open spec fn previous_of_entries(entries: Seq<(Name, ValueModel)>) -> Option<Option<Cid>> {
    match find(entries, "previous"@) {
        Some(ValueModel::Link(cid)) => Some(Some(cid)),
        Some(ValueModel::Null) => Some(None),
        None => Some(None),
        _ => None,
    }
}

/// The value that a file is written as.
pub open spec fn file_value(f: PublicFile) -> ValueModel {
    ValueModel::StringMap(
        seq![
            ("metadata"@, metadata_value(f.metadata)),
            ("previous"@, previous_value(f.previous)),
            ("userland"@, ValueModel::Link(f.userland)),
        ],
    )
}

/// The entries of a directory with the address of each node.
pub open spec fn links_value(links: Seq<(Name, Cid)>) -> Seq<(Name, ValueModel)> {
    Seq::new(links.len(), |i: int| (links[i].0, ValueModel::Link(links[i].1)))
}

/// The value that a directory is written as, given the address of each entry.
pub open spec fn dir_value(metadata: Metadata, links: Seq<(Name, Cid)>, previous: Option<Cid>)
    -> ValueModel {
    ValueModel::StringMap(
        seq![
            ("metadata"@, metadata_value(metadata)),
            ("previous"@, previous_value(previous)),
            ("userland"@, ValueModel::StringMap(links_value(links))),
        ],
    )
}

/// The entries of a directory that a map of links holds: `None` where a
/// value of the map is no link.
pub open spec fn userland_of_entries(entries: Seq<(Name, ValueModel)>) -> Option<
    Seq<(Name, LinkModel)>,
>
    decreases entries.len(),
{
    if entries.len() == 0 {
        Some(Seq::empty())
    } else {
        match (userland_of_entries(entries.drop_last()), entries.last().1) {
            (Some(rest), ValueModel::Link(cid)) => Some(
                rest.push((entries.last().0, LinkModel::Encoded(cid))),
            ),
            _ => None,
        }
    }
}

/// The node that a value holds. Its kind is the kind that its metadata
/// names; the entries of a directory are links by address.
pub open spec fn node_of_value(v: ValueModel) -> Option<NodeModel> {
    match v {
        ValueModel::StringMap(entries) => match (
            find(entries, "metadata"@),
            previous_of_entries(entries),
            find(entries, "userland"@),
        ) {
            (Some(m), Some(previous), Some(userland)) => match metadata_of_value(m) {
                Some(metadata) => match (metadata.unix_fs.kind, userland) {
                    (UnixFsNodeKind::File, ValueModel::Link(cid)) => Some(
                        NodeModel::File(PublicFile { metadata, userland: cid, previous }),
                    ),
                    (UnixFsNodeKind::Dir, ValueModel::StringMap(links)) => match userland_of_entries(
                        links,
                    ) {
                        Some(userland) => if sorted(userland) {
                            Some(NodeModel::Dir(DirModel { metadata, userland, previous }))
                        } else {
                            None
                        },
                        None => None,
                    },
                    _ => None,
                },
                None => None,
            },
            _ => None,
        },
        _ => None,
    }
}

/// What reading a node from the bytes of a block gives.
pub open spec fn decode_block(bytes: Seq<u8>) -> Result<NodeModel, FsError> {
    match dag_cbor_value(bytes) {
        Some(v) => match node_of_value(v) {
            Some(node) => Ok(node),
            None => Err(FsError::UnexpectedNodeType),
        },
        None => Err(FsError::UnexpectedNodeType),
    }
}

/// The number that stands for a kind of node.
fn kind_to_code(kind: UnixFsNodeKind) -> (r: i128)
    ensures
        r == kind_code(kind),
{
    match kind {
        UnixFsNodeKind::Raw => 0,
        UnixFsNodeKind::File => 1,
        UnixFsNodeKind::Dir => 2,
        UnixFsNodeKind::Metadata => 3,
        UnixFsNodeKind::SymLink => 4,
        UnixFsNodeKind::HAMTShard => 5,
    }
}

/// Writes metadata as a value.
pub fn metadata_to_value(m: &Metadata) -> (v: Value)
    ensures
        v.model() == metadata_value(*m),
{
    let mut unix_fs: Vec<(String, Value)> = Vec::new();
    unix_fs.push(("created".to_string(), Value::Integer(m.unix_fs.created as i128)));
    unix_fs.push(("kind".to_string(), Value::Integer(kind_to_code(m.unix_fs.kind))));
    unix_fs.push(("mode".to_string(), Value::Integer(m.unix_fs.mode as i128)));
    unix_fs.push(("modified".to_string(), Value::Integer(m.unix_fs.modified as i128)));
    let mut version: Vec<Value> = Vec::new();
    version.push(Value::Integer(m.version.major as i128));
    version.push(Value::Integer(m.version.minor as i128));
    version.push(Value::Integer(m.version.patch as i128));
    let ghost unix_fs_model = entries_model(unix_fs@);
    let ghost version_model = items_model(version@);
    proof {
        assert(unix_fs_model =~= seq![
            ("created"@, ValueModel::Integer(m.unix_fs.created as int)),
            ("kind"@, ValueModel::Integer(kind_code(m.unix_fs.kind))),
            ("mode"@, ValueModel::Integer(m.unix_fs.mode as int)),
            ("modified"@, ValueModel::Integer(m.unix_fs.modified as int)),
        ]);
        assert(version_model =~= seq![
            ValueModel::Integer(m.version.major as int),
            ValueModel::Integer(m.version.minor as int),
            ValueModel::Integer(m.version.patch as int),
        ]);
    }
    let mut entries: Vec<(String, Value)> = Vec::new();
    entries.push(("unix_fs".to_string(), Value::StringMap(unix_fs)));
    entries.push(("version".to_string(), Value::List(version)));
    proof {
        assert(entries_model(entries@) =~= seq![
            ("unix_fs"@, ValueModel::StringMap(unix_fs_model)),
            ("version"@, ValueModel::List(version_model)),
        ]);
    }
    Value::StringMap(entries)
}

/// Writes the address of an earlier version as a value.
fn previous_to_value(previous: &Option<Cid>) -> (v: Value)
    ensures
        v.model() == previous_value(*previous),
{
    match previous {
        Some(cid) => Value::Link(*cid),
        None => Value::Null,
    }
}

/// Writes a file as a value.
pub fn file_to_value(f: &PublicFile) -> (v: Value)
    ensures
        v.model() == file_value(*f),
{
    let mut entries: Vec<(String, Value)> = Vec::new();
    entries.push(("metadata".to_string(), metadata_to_value(&f.metadata)));
    entries.push(("previous".to_string(), previous_to_value(&f.previous)));
    entries.push(("userland".to_string(), Value::Link(f.userland)));
    proof {
        assert(entries_model(entries@) =~= seq![
            ("metadata"@, metadata_value(f.metadata)),
            ("previous"@, previous_value(f.previous)),
            ("userland"@, ValueModel::Link(f.userland)),
        ]);
    }
    Value::StringMap(entries)
}

/// The names and addresses of a list of links as contracts see them.
pub open spec fn links_view(links: Seq<(String, Cid)>) -> Seq<(Name, Cid)> {
    Seq::new(links.len(), |i: int| (links[i].0@, links[i].1))
}

/// Writes a directory as a value, given the address of each entry.
pub fn dir_to_value(metadata: &Metadata, links: Vec<(String, Cid)>, previous: &Option<Cid>) -> (v:
    Value)
    ensures
        v.model() == dir_value(*metadata, links_view(links@), *previous),
{
    let mut userland: Vec<(String, Value)> = Vec::new();
    let mut i: usize = 0;
    while i < links.len()
        invariant
            i <= links.len(),
            userland.len() == i,
            forall|j: int|
                0 <= j < i ==> (#[trigger] userland[j]).0@ == links[j].0@ && userland[j].1
                    == Value::Link(links[j].1),
        decreases links.len() - i,
    {
        userland.push((links[i].0.clone(), Value::Link(links[i].1)));
        i += 1;
    }
    let ghost userland_values = entries_model(userland@);
    proof {
        assert(userland_values =~= links_value(links_view(links@)));
    }
    let mut entries: Vec<(String, Value)> = Vec::new();
    entries.push(("metadata".to_string(), metadata_to_value(metadata)));
    entries.push(("previous".to_string(), previous_to_value(previous)));
    entries.push(("userland".to_string(), Value::StringMap(userland)));
    proof {
        assert(entries_model(entries@) =~= seq![
            ("metadata"@, metadata_value(*metadata)),
            ("previous"@, previous_value(*previous)),
            ("userland"@, ValueModel::StringMap(userland_values)),
        ]);
    }
    Value::StringMap(entries)
}

/// Reads the integer bound to `key`, where it lies from `low` to `high`.
pub fn read_int(entries: &Vec<(String, Value)>, key: &str, low: i128, high: i128) -> (r: Option<
    i128,
>)
    ensures
        match r {
            Some(i) => int_field(entries_model(entries@), key@, low as int, high as int) == Some(
                i as int,
            ),
            None => int_field(entries_model(entries@), key@, low as int, high as int) is None,
        },
{
    match map_get(entries, key) {
        Some(Value::Integer(i)) => {
            if low <= *i && *i <= high {
                Some(*i)
            } else {
                None
            }
        },
        _ => None,
    }
}

/// Reads the integer at `index` of a list, where it fits 64 bits without
/// sign.
pub fn read_u64(items: &Vec<Value>, index: usize) -> (r: Option<u64>)
    ensures
        r == u64_item(items_model(items@), index as int),
{
    if index < items.len() {
        match &items[index] {
            Value::Integer(i) => {
                if 0 <= *i && *i <= 0xffff_ffff_ffff_ffff {
                    Some(*i as u64)
                } else {
                    None
                }
            },
            _ => None,
        }
    } else {
        None
    }
}

/// Reads the kind of node that a number stands for.
fn kind_from_code(code: i128) -> (r: UnixFsNodeKind)
    requires
        0 <= code <= 5,
    ensures
        Some(r) == kind_of_code(code as int),
{
    if code == 0 {
        UnixFsNodeKind::Raw
    } else if code == 1 {
        UnixFsNodeKind::File
    } else if code == 2 {
        UnixFsNodeKind::Dir
    } else if code == 3 {
        UnixFsNodeKind::Metadata
    } else if code == 4 {
        UnixFsNodeKind::SymLink
    } else {
        UnixFsNodeKind::HAMTShard
    }
}

/// Reads metadata from a value.
pub fn metadata_from_value(v: &Value) -> (r: Option<Metadata>)
    ensures
        r == metadata_of_value(v.model()),
{
    let entries = match v {
        Value::StringMap(entries) => entries,
        _ => {
            return None;
        },
    };
    let unix_fs = match map_get(entries, "unix_fs") {
        Some(Value::StringMap(fields)) => {
            let created = read_int(fields, "created", -0x8000_0000_0000_0000, 0x7fff_ffff_ffff_ffff);
            let modified = read_int(
                fields,
                "modified",
                -0x8000_0000_0000_0000,
                0x7fff_ffff_ffff_ffff,
            );
            let mode = read_int(fields, "mode", 0, 0xffff_ffff);
            let kind = read_int(fields, "kind", 0, 5);
            match (created, modified, mode, kind) {
                (Some(created), Some(modified), Some(mode), Some(kind)) => Some(
                    UnixFsMetadata {
                        created: created as i64,
                        modified: modified as i64,
                        mode: mode as u32,
                        kind: kind_from_code(kind),
                    },
                ),
                _ => None,
            }
        },
        _ => None,
    };
    let version = match map_get(entries, "version") {
        Some(Value::List(items)) => {
            if items.len() == 3 {
                match (read_u64(items, 0), read_u64(items, 1), read_u64(items, 2)) {
                    (Some(major), Some(minor), Some(patch)) => Some(
                        Version { major, minor, patch },
                    ),
                    _ => None,
                }
            } else {
                None
            }
        },
        _ => None,
    };
    match (unix_fs, version) {
        (Some(unix_fs), Some(version)) => Some(Metadata { unix_fs, version }),
        _ => None,
    }
}

/// Reads the entries of a directory from a map of links.
fn userland_from_entries(entries: &Vec<(String, Value)>) -> (r: Option<Vec<(String, PublicLink)>>)
    ensures
        match r {
            Some(userland) => userland_of_entries(entries_model(entries@)) == Some(
                userland_model(userland@),
            ),
            None => userland_of_entries(entries_model(entries@)) is None,
        },
{
    let ghost all = entries_model(entries@);
    let mut userland: Vec<(String, PublicLink)> = Vec::new();
    let mut i: usize = 0;
    proof {
        assert(all.subrange(0, 0) =~= Seq::empty());
        assert(userland_model(userland@) =~= Seq::empty());
    }
    while i < entries.len()
        invariant
            i <= entries.len(),
            all == entries_model(entries@),
            userland_of_entries(all.subrange(0, i as int)) == Some(userland_model(userland@)),
        decreases entries.len() - i,
    {
        let ghost before = userland_model(userland@);
        let ghost next = all.subrange(0, i + 1);
        proof {
            assert(next.drop_last() =~= all.subrange(0, i as int));
            assert(next.last() == all[i as int]);
        }
        match &entries[i].1 {
            Value::Link(cid) => {
                userland.push((entries[i].0.clone(), PublicLink::Encoded(*cid)));
                proof {
                    assert(userland_model(userland@) =~= before.push(
                        (all[i as int].0, LinkModel::Encoded(*cid)),
                    ));
                }
            },
            _ => {
                proof {
                    lemma_userland_of_entries_prefix(all, i + 1);
                }
                return None;
            },
        }
        i += 1;
    }
    proof {
        assert(all.subrange(0, i as int) =~= all);
    }
    Some(userland)
}

/// Where a prefix of a map holds what is no link, so does the whole map.
proof fn lemma_userland_of_entries_prefix(entries: Seq<(Name, ValueModel)>, k: int)
    requires
        0 <= k <= entries.len(),
        userland_of_entries(entries.subrange(0, k)) is None,
    ensures
        userland_of_entries(entries) is None,
    decreases entries.len() - k,
{
    if k < entries.len() {
        let next = entries.subrange(0, k + 1);
        assert(next.drop_last() =~= entries.subrange(0, k));
        lemma_userland_of_entries_prefix(entries, k + 1);
    } else {
        assert(entries.subrange(0, k) =~= entries);
    }
}

/// Reads a node from a value.
pub fn node_from_value(v: &Value) -> (r: Option<PublicNode>)
    ensures
        match r {
            Some(node) => node_of_value(v.model()) == Some(node.model()),
            None => node_of_value(v.model()) is None,
        },
        r matches Some(node) ==> node_wf(node.model()),
{
    proof {
        if node_of_value(v.model()) is Some {
            lemma_read_node_wf(v.model());
        }
    }
    let entries = match v {
        Value::StringMap(entries) => entries,
        _ => {
            return None;
        },
    };
    let metadata = match map_get(entries, "metadata") {
        Some(m) => match metadata_from_value(m) {
            Some(metadata) => metadata,
            None => {
                return None;
            },
        },
        None => {
            return None;
        },
    };
    let previous = match map_get(entries, "previous") {
        Some(Value::Link(cid)) => Some(*cid),
        Some(Value::Null) => None,
        None => None,
        _ => {
            return None;
        },
    };
    let userland = match map_get(entries, "userland") {
        Some(userland) => userland,
        None => {
            return None;
        },
    };
    match (metadata.unix_fs.kind, userland) {
        (UnixFsNodeKind::File, Value::Link(cid)) => Some(
            PublicNode::File(Rc::new(PublicFile { metadata, userland: *cid, previous })),
        ),
        (UnixFsNodeKind::Dir, Value::StringMap(links)) => match userland_from_entries(links) {
            Some(userland) => {
                proof {
                    let held = crate::entries::entries_view(userland@);
                    let seen = userland_model(userland@);
                    assert(crate::assoc::names(held) =~= crate::assoc::names(seen));
                    crate::assoc::lemma_sorted_by_names(held, seen);
                }
                if crate::entries::is_sorted(&userland) {
                    Some(PublicNode::Dir(Rc::new(PublicDirectory { metadata, userland, previous })))
                } else {
                    None
                }
            },
            None => None,
        },
        _ => None,
    }
}

/// Reads a node from the bytes of a block.
pub fn decode_node(bytes: &[u8]) -> (r: Result<PublicNode, FsError>)
    ensures
        match r {
            Ok(node) => decode_block(bytes@) == Ok::<NodeModel, FsError>(node.model()),
            Err(e) => decode_block(bytes@) == Err::<NodeModel, FsError>(e),
        },
        r matches Ok(node) ==> node_wf(node.model()),
{
    match decode(bytes) {
        Some(v) => match node_from_value(&v) {
            Some(node) => Ok(node),
            None => Err(FsError::UnexpectedNodeType),
        },
        None => Err(FsError::UnexpectedNodeType),
    }
}

} // verus!
