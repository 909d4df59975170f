//! How the nodes of the private tree are written as bytes and read back.
//! The header of a node is written apart, encrypted under the ratchet key,
//! and stands in the node as bytes.

use vstd::prelude::*;
use std::rc::Rc;
use crate::assoc::{find, sorted, Name};
use crate::cid::HashOutput;
use crate::error::FsError;
use crate::ipld::{
    dag_cbor_value, dag_cbor_encoding, decode, encode, entries_model, items_model, map_get,
    Value, ValueModel,
};
use crate::metadata::{Metadata, Version};
use crate::private::entropy::{draw, nonce_of, Entropy};
use crate::private::key::{decrypted, encrypted, Key};
use crate::private::namefilter::{packed, unpacked, Namefilter};
use crate::private::node::{
    refs_view, ContentKey, PrivateDirModel, PrivateDirectory, PrivateFile, PrivateFileModel,
    PrivateNode, PrivateNodeHeader, PrivateNodeModel, PrivateRef, RatchetKey,
};
use crate::private::ratchet::{ratchet_key, ratchet_read, ratchet_text, read_ratchet, to_text};
use crate::public::codec::{
    metadata_from_value, metadata_of_value, metadata_to_value, metadata_value, read_u64,
    version_of_value,
};

verus! {

/// The array of 32 bytes that holds `bytes`.
pub open spec fn digest_of(bytes: Seq<u8>) -> HashOutput {
    choose|d: HashOutput| d@ == bytes
}

/// The name filter whose bits are `bits`.
pub open spec fn namefilter_of(bits: Seq<bool>) -> Namefilter {
    choose|f: Namefilter| f.bits@ == bits
}

/// The bytes bound to `key`, where there are `len` of them.
pub open spec fn bytes_field(entries: Seq<(Name, ValueModel)>, key: Name, len: nat) -> Option<
    Seq<u8>,
> {
    match find(entries, key) {
        Some(ValueModel::Bytes(bytes)) => if bytes.len() == len {
            Some(bytes)
        } else {
            None
        },
        _ => None,
    }
}

/// The value that a version is written as.
pub open spec fn version_value(version: Version) -> ValueModel {
    ValueModel::List(
        seq![
            ValueModel::Integer(version.major as int),
            ValueModel::Integer(version.minor as int),
            ValueModel::Integer(version.patch as int),
        ],
    )
}

/// The value that a header is written as.
pub open spec fn header_value(header: PrivateNodeHeader) -> ValueModel {
    ValueModel::StringMap(
        seq![
            ("bare_name"@, ValueModel::Bytes(packed(header.bare_name.bits@))),
            ("inumber"@, ValueModel::Bytes(header.inumber@)),
            ("ratchet"@, ValueModel::Text(ratchet_text(header.ratchet))),
        ],
    )
}

/// The header that a value holds.
pub open spec fn header_of_value(v: ValueModel) -> Option<PrivateNodeHeader> {
    match v {
        ValueModel::StringMap(entries) => match (
            bytes_field(entries, "bare_name"@, 256),
            bytes_field(entries, "inumber"@, 32),
            find(entries, "ratchet"@),
        ) {
            (Some(bare_name), Some(inumber), Some(ValueModel::Text(text))) => match ratchet_read(
                text,
            ) {
                Some(ratchet) => Some(
                    PrivateNodeHeader {
                        inumber: digest_of(inumber),
                        ratchet,
                        bare_name: namefilter_of(unpacked(bare_name)),
                    },
                ),
                None => None,
            },
            _ => None,
        },
        _ => None,
    }
}

/// The value that a capability is written as.
pub open spec fn ref_value(r: PrivateRef) -> ValueModel {
    ValueModel::StringMap(
        seq![
            ("content_key"@, ValueModel::Bytes(r.content_key.0.0@)),
            ("ratchet_key"@, ValueModel::Bytes(r.ratchet_key.0.0@)),
            ("saturated_name_hash"@, ValueModel::Bytes(r.saturated_name_hash@)),
        ],
    )
}

/// The capability that a value holds.
pub open spec fn ref_of_value(v: ValueModel) -> Option<PrivateRef> {
    match v {
        ValueModel::StringMap(entries) => match (
            bytes_field(entries, "content_key"@, 32),
            bytes_field(entries, "ratchet_key"@, 32),
            bytes_field(entries, "saturated_name_hash"@, 32),
        ) {
            (Some(content_key), Some(ratchet_key), Some(name_hash)) => Some(
                PrivateRef {
                    saturated_name_hash: digest_of(name_hash),
                    content_key: ContentKey(Key(digest_of(content_key))),
                    ratchet_key: RatchetKey(Key(digest_of(ratchet_key))),
                },
            ),
            _ => None,
        },
        _ => None,
    }
}

/// The values that the entries of a directory are written as.
pub open spec fn refs_value(entries: Seq<(Name, PrivateRef)>) -> Seq<(Name, ValueModel)> {
    Seq::new(entries.len(), |i: int| (entries[i].0, ref_value(entries[i].1)))
}

/// The entries of a directory that a map of values holds: `None` where a
/// value holds no capability.
pub open spec fn refs_of_entries(entries: Seq<(Name, ValueModel)>) -> Option<
    Seq<(Name, PrivateRef)>,
>
    decreases entries.len(),
{
    if entries.len() == 0 {
        Some(Seq::empty())
    } else {
        match (refs_of_entries(entries.drop_last()), ref_of_value(entries.last().1)) {
            (Some(rest), Some(r)) => Some(rest.push((entries.last().0, r))),
            _ => None,
        }
    }
}

/// The entries of a directory that a map of values holds: `None` where a
/// value holds no capability, or where the names do not grow strictly from
/// each entry to the next.
pub open spec fn sorted_refs(entries: Seq<(Name, ValueModel)>) -> Option<Seq<(Name, PrivateRef)>> {
    match refs_of_entries(entries) {
        Some(refs) => if sorted(refs) {
            Some(refs)
        } else {
            None
        },
        None => None,
    }
}

/// The header as it stands in a node: written as bytes and encrypted under
/// the key that its ratchet gives, with the given nonce.
pub open spec fn sealed_header(header: PrivateNodeHeader, nonce: Seq<u8>) -> Result<
    Seq<u8>,
    FsError,
> {
    match dag_cbor_encoding(header_value(header)) {
        None => Err(FsError::UnexpectedNodeType),
        Some(bytes) => match encrypted(Key(ratchet_key(header.ratchet)), nonce, bytes) {
            None => Err(FsError::Decrypt),
            Some(blob) => Ok(blob),
        },
    }
}

/// Whether the cipher seals the bytes that a value is written as, under a
/// key and a nonce, and opens what it sealed to the bytes again.
pub open spec fn opens(key: Key, nonce: Seq<u8>, value: ValueModel) -> bool {
    dag_cbor_encoding(value) matches Some(bytes) && encrypted(key, nonce, bytes) matches Some(blob)
        && decrypted(key, blob) == Some(bytes)
}

/// Whether a header that is sealed with a nonce opens again: its ratchet
/// is read from the text it is written as, and what the cipher sealed
/// under the key of the ratchet opens to the bytes of the header.
pub open spec fn header_opens(header: PrivateNodeHeader, nonce: Seq<u8>) -> bool {
    ratchet_read(ratchet_text(header.ratchet)) == Some(header.ratchet) && opens(
        Key(ratchet_key(header.ratchet)),
        nonce,
        header_value(header),
    )
}

/// The header that stands encrypted in a node, read with a ratchet key.
pub open spec fn opened_header(blob: Seq<u8>, key: RatchetKey) -> Result<
    PrivateNodeHeader,
    FsError,
> {
    match decrypted(key.0, blob) {
        None => Err(FsError::Decrypt),
        Some(bytes) => match dag_cbor_value(bytes) {
            None => Err(FsError::UnexpectedNodeType),
            Some(v) => match header_of_value(v) {
                None => Err(FsError::UnexpectedNodeType),
                Some(header) => Ok(header),
            },
        },
    }
}

/// The value that a node is written as, with its header encrypted already.
pub open spec fn node_value(node: PrivateNodeModel, header: Seq<u8>) -> ValueModel {
    match node {
        PrivateNodeModel::File(file) => ValueModel::StringMap(
            seq![
                ("content"@, ValueModel::Bytes(file.content)),
                ("header"@, ValueModel::Bytes(header)),
                ("metadata"@, metadata_value(file.metadata)),
                ("type"@, ValueModel::Text("wnfs/priv/file"@)),
                ("version"@, version_value(file.version)),
            ],
        ),
        PrivateNodeModel::Dir(dir) => ValueModel::StringMap(
            seq![
                ("entries"@, ValueModel::StringMap(refs_value(dir.entries))),
                ("header"@, ValueModel::Bytes(header)),
                ("metadata"@, metadata_value(dir.metadata)),
                ("type"@, ValueModel::Text("wnfs/priv/dir"@)),
                ("version"@, version_value(dir.version)),
            ],
        ),
    }
}

/// The bytes that a node is written as, with the given nonce for its
/// header.
pub open spec fn node_bytes(node: PrivateNodeModel, nonce: Seq<u8>) -> Result<Seq<u8>, FsError> {
    match sealed_header(node.header(), nonce) {
        Err(e) => Err(e),
        Ok(header) => match dag_cbor_encoding(node_value(node, header)) {
            None => Err(FsError::UnexpectedNodeType),
            Some(bytes) => Ok(bytes),
        },
    }
}

/// What the entries of a node hold besides what depends on its kind: the
/// header, read with a ratchet key, the metadata and the version.
pub open spec fn node_frame(entries: Seq<(Name, ValueModel)>, key: RatchetKey) -> Result<
    (PrivateNodeHeader, Metadata, Version),
    FsError,
> {
    match (find(entries, "header"@), find(entries, "metadata"@), find(entries, "version"@)) {
        (Some(ValueModel::Bytes(blob)), Some(m), Some(ver)) => match (
            metadata_of_value(m),
            version_of_value(ver),
        ) {
            (Some(metadata), Some(version)) => match opened_header(blob, key) {
                Err(e) => Err(e),
                Ok(header) => Ok((header, metadata, version)),
            },
            _ => Err(FsError::UnexpectedNodeType),
        },
        _ => Err(FsError::UnexpectedNodeType),
    }
}

/// The node that a value holds, its header read with a ratchet key.
pub open spec fn node_of_value(v: ValueModel, key: RatchetKey) -> Result<PrivateNodeModel, FsError> {
    match v {
        ValueModel::StringMap(entries) => match find(entries, "type"@) {
            None => Err(FsError::MissingNodeType),
            Some(ValueModel::Text(kind)) => if kind == "wnfs/priv/file"@ {
                match find(entries, "content"@) {
                    Some(ValueModel::Bytes(content)) => match node_frame(entries, key) {
                        Err(e) => Err(e),
                        Ok((header, metadata, version)) => Ok(
                            PrivateNodeModel::File(
                                PrivateFileModel { version, header, metadata, content },
                            ),
                        ),
                    },
                    _ => Err(FsError::UnexpectedNodeType),
                }
            } else if kind == "wnfs/priv/dir"@ {
                match find(entries, "entries"@) {
                    Some(ValueModel::StringMap(refs)) => match sorted_refs(refs) {
                        None => Err(FsError::UnexpectedNodeType),
                        Some(entries_read) => match node_frame(entries, key) {
                            Err(e) => Err(e),
                            Ok((header, metadata, version)) => Ok(
                                PrivateNodeModel::Dir(
                                    PrivateDirModel {
                                        version,
                                        header,
                                        metadata,
                                        entries: entries_read,
                                    },
                                ),
                            ),
                        },
                    },
                    _ => Err(FsError::UnexpectedNodeType),
                }
            } else {
                Err(FsError::UnexpectedNodeType)
            },
            Some(_) => Err(FsError::UnexpectedNodeType),
        },
        _ => Err(FsError::UnexpectedNodeType),
    }
}

/// The node that bytes hold, its header read with a ratchet key.
pub open spec fn node_of_bytes(bytes: Seq<u8>, key: RatchetKey) -> Result<
    PrivateNodeModel,
    FsError,
> {
    match dag_cbor_value(bytes) {
        None => Err(FsError::UnexpectedNodeType),
        Some(v) => node_of_value(v, key),
    }
}

/// A result that holds a private node, as contracts see it.
pub open spec fn private_node_result(r: Result<PrivateNode, FsError>) -> Result<
    PrivateNodeModel,
    FsError,
> {
    match r {
        Ok(node) => Ok(node.model()),
        Err(e) => Err(e),
    }
}

/// Copies a slice of bytes into a vector.
pub fn to_vec(bytes: &[u8]) -> (r: Vec<u8>)
    ensures
        r@ == bytes@,
{
    vstd::slice::slice_to_vec(bytes)
}

/// Copies 32 bytes into an array.
pub fn to_digest(bytes: &[u8]) -> (r: HashOutput)
    requires
        bytes@.len() == 32,
    ensures
        r@ == bytes@,
        r == digest_of(bytes@),
{
    let mut out: HashOutput = crate::cid::new_zero_digest();
    let mut i: usize = 0;
    while i < 32
        invariant
            i <= 32,
            bytes@.len() == 32,
            forall|k: int| 0 <= k < i ==> out@[k] == bytes@[k],
        decreases 32 - i,
    {
        out[i] = bytes[i];
        i += 1;
    }
    proof {
        assert(out@ =~= bytes@);
        let chosen = digest_of(bytes@);
        assert(chosen@ == bytes@);
        assert(chosen =~= out);
    }
    out
}

/// Reads the bytes bound to `key`, where there are `len` of them.
pub fn read_bytes<'a>(entries: &'a Vec<(String, Value)>, key: &str, len: usize) -> (r: Option<
    &'a Vec<u8>,
>)
    ensures
        match r {
            Some(bytes) => bytes_field(entries_model(entries@), key@, len as nat) == Some(bytes@),
            None => bytes_field(entries_model(entries@), key@, len as nat) is None,
        },
{
    match map_get(entries, key) {
        Some(Value::Bytes(bytes)) => {
            if bytes.len() == len {
                Some(bytes)
            } else {
                None
            }
        },
        _ => None,
    }
}

/// Writes a version as a value.
fn version_to_value(version: &Version) -> (v: Value)
    ensures
        v.model() == version_value(*version),
{
    let mut items: Vec<Value> = Vec::new();
    items.push(Value::Integer(version.major as i128));
    items.push(Value::Integer(version.minor as i128));
    items.push(Value::Integer(version.patch as i128));
    proof {
        assert(items_model(items@) =~= seq![
            ValueModel::Integer(version.major as int),
            ValueModel::Integer(version.minor as int),
            ValueModel::Integer(version.patch as int),
        ]);
    }
    Value::List(items)
}

/// Reads a version from a value.
fn version_from_value(v: &Value) -> (r: Option<Version>)
    ensures
        r == version_of_value(v.model()),
{
    match v {
        Value::List(items) => {
            if items.len() == 3 {
                match (read_u64(items, 0), read_u64(items, 1), read_u64(items, 2)) {
                    (Some(major), Some(minor), Some(patch)) => Some(
                        Version { major, minor, patch },
                    ),
                    _ => None,
                }
            } else {
                None
            }
        },
        _ => None,
    }
}

/// Writes a header as a value.
pub fn header_to_value(header: &PrivateNodeHeader) -> (v: Value)
    ensures
        v.model() == header_value(*header),
        ratchet_read(ratchet_text(header.ratchet)) == Some(header.ratchet),
{
    let mut entries: Vec<(String, Value)> = Vec::new();
    entries.push(("bare_name".to_string(), Value::Bytes(header.bare_name.to_bytes())));
    entries.push(("inumber".to_string(), Value::Bytes(to_vec(header.inumber.as_slice()))));
    entries.push(("ratchet".to_string(), Value::Text(to_text(&header.ratchet))));
    proof {
        assert(entries_model(entries@) =~= seq![
            ("bare_name"@, ValueModel::Bytes(packed(header.bare_name.bits@))),
            ("inumber"@, ValueModel::Bytes(header.inumber@)),
            ("ratchet"@, ValueModel::Text(ratchet_text(header.ratchet))),
        ]);
    }
    Value::StringMap(entries)
}

/// Reads a header from a value.
pub fn header_from_value(v: &Value) -> (r: Option<PrivateNodeHeader>)
    ensures
        r == header_of_value(v.model()),
{
    let entries = match v {
        Value::StringMap(entries) => entries,
        _ => {
            return None;
        },
    };
    let bare_name = read_bytes(entries, "bare_name", 256);
    let inumber = read_bytes(entries, "inumber", 32);
    let ratchet = map_get(entries, "ratchet");
    match (bare_name, inumber, ratchet) {
        (Some(bare_name), Some(inumber), Some(Value::Text(text))) => {
            match read_ratchet(text.as_str()) {
                Some(ratchet) => {
                    let filter = match Namefilter::from_bytes(bare_name.as_slice()) {
                        Some(filter) => filter,
                        None => {
                            return None;
                        },
                    };
                    proof {
                        let chosen = namefilter_of(unpacked(bare_name@));
                        assert(chosen.bits@ == filter.bits@);
                        assert(chosen.bits =~= filter.bits);
                    }
                    Some(
                        PrivateNodeHeader {
                            inumber: to_digest(inumber.as_slice()),
                            ratchet,
                            bare_name: filter,
                        },
                    )
                },
                None => None,
            }
        },
        _ => None,
    }
}

/// Writes a capability as a value.
pub fn ref_to_value(r: &PrivateRef) -> (v: Value)
    ensures
        v.model() == ref_value(*r),
{
    let mut entries: Vec<(String, Value)> = Vec::new();
    entries.push(("content_key".to_string(), Value::Bytes(to_vec(r.content_key.0.0.as_slice()))));
    entries.push(("ratchet_key".to_string(), Value::Bytes(to_vec(r.ratchet_key.0.0.as_slice()))));
    entries.push(
        ("saturated_name_hash".to_string(), Value::Bytes(to_vec(r.saturated_name_hash.as_slice()))),
    );
    proof {
        assert(entries_model(entries@) =~= seq![
            ("content_key"@, ValueModel::Bytes(r.content_key.0.0@)),
            ("ratchet_key"@, ValueModel::Bytes(r.ratchet_key.0.0@)),
            ("saturated_name_hash"@, ValueModel::Bytes(r.saturated_name_hash@)),
        ]);
    }
    Value::StringMap(entries)
}

/// Reads a capability from a value.
pub fn ref_from_value(v: &Value) -> (r: Option<PrivateRef>)
    ensures
        r == ref_of_value(v.model()),
{
    let entries = match v {
        Value::StringMap(entries) => entries,
        _ => {
            return None;
        },
    };
    let content_key = read_bytes(entries, "content_key", 32);
    let ratchet_key = read_bytes(entries, "ratchet_key", 32);
    let name_hash = read_bytes(entries, "saturated_name_hash", 32);
    match (content_key, ratchet_key, name_hash) {
        (Some(content_key), Some(ratchet_key), Some(name_hash)) => Some(
            PrivateRef {
                saturated_name_hash: to_digest(name_hash.as_slice()),
                content_key: ContentKey(Key(to_digest(content_key.as_slice()))),
                ratchet_key: RatchetKey(Key(to_digest(ratchet_key.as_slice()))),
            },
        ),
        _ => None,
    }
}

/// Writes the entries of a directory as values.
fn refs_to_value(entries: &Vec<(String, PrivateRef)>) -> (v: Value)
    ensures
        v.model() == ValueModel::StringMap(refs_value(refs_view(entries@))),
{
    let mut out: Vec<(String, Value)> = Vec::new();
    let mut i: usize = 0;
    while i < entries.len()
        invariant
            i <= entries.len(),
            out.len() == i,
            forall|j: int|
                0 <= j < i ==> (#[trigger] out[j]).0@ == entries[j].0@ && out[j].1.model()
                    == ref_value(entries[j].1),
        decreases entries.len() - i,
    {
        out.push((entries[i].0.clone(), ref_to_value(&entries[i].1)));
        i += 1;
    }
    proof {
        assert(entries_model(out@) =~= refs_value(refs_view(entries@)));
    }
    Value::StringMap(out)
}

/// Reads the entries of a directory from a map of values.
fn refs_from_entries(entries: &Vec<(String, Value)>) -> (r: Option<Vec<(String, PrivateRef)>>)
    ensures
        match r {
            Some(refs) => refs_of_entries(entries_model(entries@)) == Some(refs_view(refs@)),
            None => refs_of_entries(entries_model(entries@)) is None,
        },
{
    let ghost all = entries_model(entries@);
    let mut refs: Vec<(String, PrivateRef)> = Vec::new();
    let mut i: usize = 0;
    proof {
        assert(all.subrange(0, 0) =~= Seq::empty());
        assert(refs_view(refs@) =~= Seq::empty());
    }
    while i < entries.len()
        invariant
            i <= entries.len(),
            all == entries_model(entries@),
            refs_of_entries(all.subrange(0, i as int)) == Some(refs_view(refs@)),
        decreases entries.len() - i,
    {
        let ghost before = refs_view(refs@);
        let ghost next = all.subrange(0, i + 1);
        proof {
            assert(next.drop_last() =~= all.subrange(0, i as int));
            assert(next.last() == all[i as int]);
        }
        match ref_from_value(&entries[i].1) {
            Some(r) => {
                refs.push((entries[i].0.clone(), r));
                proof {
                    assert(refs_view(refs@) =~= before.push((all[i as int].0, r)));
                }
            },
            None => {
                proof {
                    lemma_refs_of_entries_prefix(all, i + 1);
                }
                return None;
            },
        }
        i += 1;
    }
    proof {
        assert(all.subrange(0, i as int) =~= all);
    }
    Some(refs)
}

/// Where a prefix of a map holds what is no capability, so does the whole
/// map.
proof fn lemma_refs_of_entries_prefix(entries: Seq<(Name, ValueModel)>, k: int)
    requires
        0 <= k <= entries.len(),
        refs_of_entries(entries.subrange(0, k)) is None,
    ensures
        refs_of_entries(entries) is None,
    decreases entries.len() - k,
{
    if k < entries.len() {
        let next = entries.subrange(0, k + 1);
        assert(next.drop_last() =~= entries.subrange(0, k));
        lemma_refs_of_entries_prefix(entries, k + 1);
    } else {
        assert(entries.subrange(0, k) =~= entries);
    }
}

/// Writes a header as bytes and encrypts them under the key that its
/// ratchet gives.
pub fn seal_header(header: &PrivateNodeHeader, nonce: &[u8; 12]) -> (r: Result<Vec<u8>, FsError>)
    ensures
        crate::store::bytes_result(r) == sealed_header(*header, nonce@),
        r is Ok ==> header_opens(*header, nonce@),
{
    let value = header_to_value(header);
    let bytes = match encode(&value) {
        Some(bytes) => bytes,
        None => {
            return Err(FsError::UnexpectedNodeType);
        },
    };
    let key = Key::new(crate::private::ratchet::derive_key(&header.ratchet));
    key.encrypt(nonce, bytes.as_slice())
}

/// Decrypts the header that stands in a node and reads it.
pub fn open_header(blob: &[u8], key: &RatchetKey) -> (r: Result<PrivateNodeHeader, FsError>)
    ensures
        r == opened_header(blob@, *key),
{
    let bytes = key.0.decrypt(blob)?;
    match decode(bytes.as_slice()) {
        Some(v) => match header_from_value(&v) {
            Some(header) => Ok(header),
            None => Err(FsError::UnexpectedNodeType),
        },
        None => Err(FsError::UnexpectedNodeType),
    }
}

impl PrivateNode {
    /// Writes the node as a value, with its header encrypted already.
    pub fn to_value(&self, header: Vec<u8>) -> (v: Value)
        ensures
            v.model() == node_value(self.model(), header@),
    {
        let mut entries: Vec<(String, Value)> = Vec::new();
        match self {
            PrivateNode::File(file) => {
                entries.push(("content".to_string(), Value::Bytes(file.content.clone())));
                entries.push(("header".to_string(), Value::Bytes(header)));
                entries.push(("metadata".to_string(), metadata_to_value(&file.metadata)));
                entries.push(("type".to_string(), Value::Text("wnfs/priv/file".to_string())));
                entries.push(("version".to_string(), version_to_value(&file.version)));
                proof {
                    assert(entries_model(entries@) =~= seq![
                        ("content"@, ValueModel::Bytes(file.content@)),
                        ("header"@, ValueModel::Bytes(header@)),
                        ("metadata"@, metadata_value(file.metadata)),
                        ("type"@, ValueModel::Text("wnfs/priv/file"@)),
                        ("version"@, version_value(file.version)),
                    ]);
                }
            },
            PrivateNode::Dir(dir) => {
                entries.push(("entries".to_string(), refs_to_value(&dir.entries)));
                entries.push(("header".to_string(), Value::Bytes(header)));
                entries.push(("metadata".to_string(), metadata_to_value(&dir.metadata)));
                entries.push(("type".to_string(), Value::Text("wnfs/priv/dir".to_string())));
                entries.push(("version".to_string(), version_to_value(&dir.version)));
                proof {
                    assert(entries_model(entries@) =~= seq![
                        ("entries"@, ValueModel::StringMap(refs_value(refs_view(dir.entries@)))),
                        ("header"@, ValueModel::Bytes(header@)),
                        ("metadata"@, metadata_value(dir.metadata)),
                        ("type"@, ValueModel::Text("wnfs/priv/dir"@)),
                        ("version"@, version_value(dir.version)),
                    ]);
                }
            },
        }
        Value::StringMap(entries)
    }

    /// Writes the node as bytes, with the given nonce for its header.
    pub fn serialize_with_nonce(&self, nonce: &[u8; 12]) -> (r: Result<Vec<u8>, FsError>)
        ensures
            crate::store::bytes_result(r) == node_bytes(self.model(), nonce@),
            r is Ok ==> header_opens(self.model().header(), nonce@),
    {
        let header = seal_header(self.get_header(), nonce)?;
        let value = self.to_value(header);
        match encode(&value) {
            Some(bytes) => Ok(bytes),
            None => Err(FsError::UnexpectedNodeType),
        }
    }

    /// Writes the node as bytes, with a nonce for its header drawn from
    /// `entropy`.
    pub fn serialize_to_cbor(&self, entropy: &mut Entropy) -> (r: Result<Vec<u8>, FsError>)
        ensures
            crate::store::bytes_result(r) == node_bytes(
                self.model(),
                nonce_of(draw(old(entropy).seed, old(entropy).counter)),
            ),
            r is Ok ==> header_opens(
                self.model().header(),
                nonce_of(draw(old(entropy).seed, old(entropy).counter)),
            ),
            *final(entropy) == old(entropy).advanced(),
    {
        let nonce = entropy.next_nonce();
        self.serialize_with_nonce(&nonce)
    }

    /// Reads a node from a value, its header with a ratchet key.
    pub fn try_from_value(value: &Value, key: &RatchetKey) -> (r: Result<PrivateNode, FsError>)
        ensures
            private_node_result(r) == node_of_value(value.model(), *key),
            r matches Ok(PrivateNode::Dir(dir)) ==> sorted(dir.model().entries),
    {
        let entries = match value {
            Value::StringMap(entries) => entries,
            _ => {
                return Err(FsError::UnexpectedNodeType);
            },
        };
        let kind = match map_get(entries, "type") {
            None => {
                return Err(FsError::MissingNodeType);
            },
            Some(Value::Text(kind)) => kind,
            Some(_) => {
                return Err(FsError::UnexpectedNodeType);
            },
        };
        if matches!(
            crate::order::compare_names(kind.as_str(), "wnfs/priv/file"),
            crate::order::Comparison::Equal
        ) {
            let content = match map_get(entries, "content") {
                Some(Value::Bytes(content)) => content,
                _ => {
                    return Err(FsError::UnexpectedNodeType);
                },
            };
            let (header, metadata, version) = read_frame(entries, key)?;
            Ok(
                PrivateNode::File(
                    Rc::new(PrivateFile { version, header, metadata, content: content.clone() }),
                ),
            )
        } else if matches!(
            crate::order::compare_names(kind.as_str(), "wnfs/priv/dir"),
            crate::order::Comparison::Equal
        ) {
            let refs = match map_get(entries, "entries") {
                Some(Value::StringMap(refs)) => refs,
                _ => {
                    return Err(FsError::UnexpectedNodeType);
                },
            };
            let entries_read = match refs_from_entries(refs) {
                Some(entries_read) => entries_read,
                None => {
                    return Err(FsError::UnexpectedNodeType);
                },
            };
            proof {
                assert(refs_view(entries_read@) =~= crate::entries::entries_view(entries_read@));
            }
            if !crate::entries::is_sorted(&entries_read) {
                return Err(FsError::UnexpectedNodeType);
            }
            let (header, metadata, version) = read_frame(entries, key)?;
            Ok(
                PrivateNode::Dir(
                    Rc::new(PrivateDirectory { version, header, metadata, entries: entries_read }),
                ),
            )
        } else {
            Err(FsError::UnexpectedNodeType)
        }
    }

    /// Reads a node from bytes, its header with a ratchet key.
    pub fn deserialize_from_cbor(bytes: &[u8], key: &RatchetKey) -> (r: Result<PrivateNode, FsError>)
        ensures
            private_node_result(r) == node_of_bytes(bytes@, *key),
            r matches Ok(PrivateNode::Dir(dir)) ==> sorted(dir.model().entries),
    {
        match decode(bytes) {
            Some(value) => PrivateNode::try_from_value(&value, key),
            None => Err(FsError::UnexpectedNodeType),
        }
    }
}

/// Reads what the entries of a node hold besides what depends on its kind.
fn read_frame(entries: &Vec<(String, Value)>, key: &RatchetKey) -> (r: Result<
    (PrivateNodeHeader, Metadata, Version),
    FsError,
>)
    ensures
        r == node_frame(entries_model(entries@), *key),
{
    let blob = match map_get(entries, "header") {
        Some(Value::Bytes(blob)) => blob,
        _ => {
            return Err(FsError::UnexpectedNodeType);
        },
    };
    let metadata = match map_get(entries, "metadata") {
        Some(m) => metadata_from_value(m),
        None => {
            return Err(FsError::UnexpectedNodeType);
        },
    };
    let version = match map_get(entries, "version") {
        Some(v) => version_from_value(v),
        None => {
            return Err(FsError::UnexpectedNodeType);
        },
    };
    match (metadata, version) {
        (Some(metadata), Some(version)) => {
            let header = open_header(blob.as_slice(), key)?;
            Ok((header, metadata, version))
        },
        _ => Err(FsError::UnexpectedNodeType),
    }
}

} // verus!
