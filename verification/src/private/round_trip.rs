//! What is written can be read: the values that nodes are written as hold
//! the nodes again, and a node that is stored in the forest is found
//! under its capability, as far as the cipher opens what it sealed and the
//! decoder reads what the encoder wrote.

use vstd::prelude::*;
use crate::assoc::{lemma_find_at, sorted, Name};
use crate::cid::HashOutput;
use crate::error::FsError;
use crate::ipld::{dag_cbor_value, dag_cbor_encoding, ValueModel};
use crate::metadata::{Metadata, Version};
use crate::private::ancestry::{committed, lemma_namefilter_of, World};
use crate::private::codec::{
    digest_of, header_of_value, header_value, node_of_bytes, node_of_value, node_value,
    opened_header, opens, ref_of_value, ref_value, refs_of_entries, refs_value, sealed_header,
    version_value,
};
use crate::private::entropy::{draw, nonce_of, Entropy};
use crate::private::forest::{forest_get, stored_opens, ForestMap};
use crate::private::key::{decrypted, Key};
use crate::private::namefilter::{lemma_packed_unpacked, packed};
use crate::private::node::{
    private_ref_of, PrivateNodeHeader, PrivateNodeModel, PrivateRef, RatchetKey,
};
use crate::private::ratchet::{ratchet_key, ratchet_read, ratchet_text};
use crate::public::codec::{
    kind_code, kind_of_code, metadata_of_value, metadata_value, unix_fs_of_value,
    version_of_value,
};
use crate::store::{fetch, Blocks};

verus! {

/// The array of 32 bytes that holds the bytes of a digest is the digest.
pub proof fn lemma_digest_of(digest: HashOutput)
    ensures
        digest_of(digest@) == digest,
{
    let chosen = digest_of(digest@);
    assert(chosen@ == digest@);
    assert(chosen =~= digest);
}

/// The names under which the parts of a node, of a header, of a
/// capability and of metadata are written differ from one another.
pub proof fn lemma_names_differ()
    ensures
        "content"@ != "header"@,
        "content"@ != "metadata"@,
        "content"@ != "type"@,
        "content"@ != "version"@,
        "entries"@ != "header"@,
        "entries"@ != "metadata"@,
        "entries"@ != "type"@,
        "entries"@ != "version"@,
        "header"@ != "metadata"@,
        "header"@ != "type"@,
        "header"@ != "version"@,
        "metadata"@ != "type"@,
        "metadata"@ != "version"@,
        "type"@ != "version"@,
        "bare_name"@ != "inumber"@,
        "bare_name"@ != "ratchet"@,
        "inumber"@ != "ratchet"@,
        "content_key"@ != "ratchet_key"@,
        "content_key"@ != "saturated_name_hash"@,
        "ratchet_key"@ != "saturated_name_hash"@,
        "unix_fs"@ != "version"@,
        "created"@ != "kind"@,
        "created"@ != "mode"@,
        "created"@ != "modified"@,
        "kind"@ != "mode"@,
        "kind"@ != "modified"@,
        "mode"@ != "modified"@,
        "wnfs/priv/file"@ != "wnfs/priv/dir"@,
{
    reveal_strlit("content");
    reveal_strlit("entries");
    reveal_strlit("header");
    reveal_strlit("metadata");
    reveal_strlit("type");
    reveal_strlit("version");
    reveal_strlit("bare_name");
    reveal_strlit("inumber");
    reveal_strlit("ratchet");
    reveal_strlit("content_key");
    reveal_strlit("ratchet_key");
    reveal_strlit("saturated_name_hash");
    reveal_strlit("unix_fs");
    reveal_strlit("created");
    reveal_strlit("kind");
    reveal_strlit("mode");
    reveal_strlit("modified");
    reveal_strlit("wnfs/priv/file");
    reveal_strlit("wnfs/priv/dir");
    assert("content"@.len() == 7 && "entries"@.len() == 7 && "header"@.len() == 6);
    assert("metadata"@.len() == 8 && "type"@.len() == 4 && "version"@.len() == 7);
    assert("bare_name"@.len() == 9 && "inumber"@.len() == 7 && "ratchet"@.len() == 7);
    assert("content_key"@.len() == 11 && "ratchet_key"@.len() == 11);
    assert("saturated_name_hash"@.len() == 19 && "unix_fs"@.len() == 7);
    assert("created"@.len() == 7 && "kind"@.len() == 4);
    assert("mode"@.len() == 4 && "modified"@.len() == 8);
    assert("wnfs/priv/file"@.len() == 14 && "wnfs/priv/dir"@.len() == 13);
    assert("content"@[0] != "version"@[0]);
    assert("entries"@[0] != "version"@[0]);
    assert("inumber"@[0] != "ratchet"@[0]);
    assert("content_key"@[0] != "ratchet_key"@[0]);
    assert("unix_fs"@[0] != "version"@[0]);
    assert("created"@[0] != "version"@[0]);
    assert("kind"@[0] != "mode"@[0]);
    assert("kind"@[0] != "type"@[0]);
    assert("mode"@[0] != "type"@[0]);
}

/// The value that a version is written as holds the version.
pub proof fn lemma_version_round_trip(version: Version)
    ensures
        version_of_value(version_value(version)) == Some(version),
{
}

/// The value that metadata is written as holds the metadata.
pub proof fn lemma_metadata_round_trip(metadata: Metadata)
    ensures
        metadata_of_value(metadata_value(metadata)) == Some(metadata),
{
    lemma_names_differ();
    let m = metadata;
    let unix_fs = seq![
        ("created"@, ValueModel::Integer(m.unix_fs.created as int)),
        ("kind"@, ValueModel::Integer(kind_code(m.unix_fs.kind))),
        ("mode"@, ValueModel::Integer(m.unix_fs.mode as int)),
        ("modified"@, ValueModel::Integer(m.unix_fs.modified as int)),
    ];
    lemma_find_at(unix_fs, "created"@, 0);
    lemma_find_at(unix_fs, "kind"@, 1);
    lemma_find_at(unix_fs, "mode"@, 2);
    lemma_find_at(unix_fs, "modified"@, 3);
    assert(kind_of_code(kind_code(m.unix_fs.kind)) == Some(m.unix_fs.kind));
    assert(unix_fs_of_value(ValueModel::StringMap(unix_fs)) == Some(m.unix_fs));
    let version = ValueModel::List(
        seq![
            ValueModel::Integer(m.version.major as int),
            ValueModel::Integer(m.version.minor as int),
            ValueModel::Integer(m.version.patch as int),
        ],
    );
    assert(version_of_value(version) == Some(m.version));
    let entries = seq![("unix_fs"@, ValueModel::StringMap(unix_fs)), ("version"@, version)];
    lemma_find_at(entries, "unix_fs"@, 0);
    lemma_find_at(entries, "version"@, 1);
    assert(metadata_value(m) == ValueModel::StringMap(entries));
}

/// The value that a capability is written as holds the capability.
pub proof fn lemma_ref_round_trip(private_ref: PrivateRef)
    ensures
        ref_of_value(ref_value(private_ref)) == Some(private_ref),
{
    lemma_names_differ();
    let r = private_ref;
    let entries = seq![
        ("content_key"@, ValueModel::Bytes(r.content_key.0.0@)),
        ("ratchet_key"@, ValueModel::Bytes(r.ratchet_key.0.0@)),
        ("saturated_name_hash"@, ValueModel::Bytes(r.saturated_name_hash@)),
    ];
    lemma_find_at(entries, "content_key"@, 0);
    lemma_find_at(entries, "ratchet_key"@, 1);
    lemma_find_at(entries, "saturated_name_hash"@, 2);
    lemma_digest_of(r.content_key.0.0);
    lemma_digest_of(r.ratchet_key.0.0);
    lemma_digest_of(r.saturated_name_hash);
    assert(ref_value(r) == ValueModel::StringMap(entries));
}

/// The values that the entries of a directory are written as hold the
/// entries.
pub proof fn lemma_refs_round_trip(entries: Seq<(Name, PrivateRef)>)
    ensures
        refs_of_entries(refs_value(entries)) == Some(entries),
    decreases entries.len(),
{
    let written = refs_value(entries);
    if entries.len() == 0 {
        assert(entries =~= Seq::empty());
    } else {
        lemma_refs_round_trip(entries.drop_last());
        lemma_ref_round_trip(entries.last().1);
        assert(written.drop_last() =~= refs_value(entries.drop_last()));
        assert(written.last() == (entries.last().0, ref_value(entries.last().1)));
        assert(entries.drop_last().push(entries.last()) =~= entries);
    }
}

/// The value that a header is written as holds the header, where the text
/// that its ratchet is written as is read as the ratchet again.
pub proof fn lemma_header_round_trip(header: PrivateNodeHeader)
    requires
        ratchet_read(ratchet_text(header.ratchet)) == Some(header.ratchet),
    ensures
        header_of_value(header_value(header)) == Some(header),
{
    lemma_names_differ();
    let entries = seq![
        ("bare_name"@, ValueModel::Bytes(packed(header.bare_name.bits@))),
        ("inumber"@, ValueModel::Bytes(header.inumber@)),
        ("ratchet"@, ValueModel::Text(ratchet_text(header.ratchet))),
    ];
    lemma_find_at(entries, "bare_name"@, 0);
    lemma_find_at(entries, "inumber"@, 1);
    lemma_find_at(entries, "ratchet"@, 2);
    lemma_digest_of(header.inumber);
    lemma_packed_unpacked(header.bare_name.bits@, packed(header.bare_name.bits@));
    lemma_namefilter_of(header.bare_name);
    assert(header_value(header) == ValueModel::StringMap(entries));
}

/// Whether the names of a directory grow strictly from each entry to the
/// next. A file has no entries.
pub open spec fn in_order(node: PrivateNodeModel) -> bool {
    match node {
        PrivateNodeModel::File(_) => true,
        PrivateNodeModel::Dir(dir) => sorted(dir.entries),
    }
}

/// The value that a node is written as holds the node, where the header
/// that stands in it opens to the header of the node and the entries of a
/// directory are in the order of their names.
pub proof fn lemma_node_round_trip(node: PrivateNodeModel, header: Seq<u8>, key: RatchetKey)
    requires
        in_order(node),
        opened_header(header, key) == Ok::<PrivateNodeHeader, FsError>(node.header()),
    ensures
        node_of_value(node_value(node, header), key) == Ok::<PrivateNodeModel, FsError>(node),
{
    lemma_names_differ();
    match node {
        PrivateNodeModel::File(file) => {
            let entries = seq![
                ("content"@, ValueModel::Bytes(file.content)),
                ("header"@, ValueModel::Bytes(header)),
                ("metadata"@, metadata_value(file.metadata)),
                ("type"@, ValueModel::Text("wnfs/priv/file"@)),
                ("version"@, version_value(file.version)),
            ];
            lemma_find_at(entries, "content"@, 0);
            lemma_find_at(entries, "header"@, 1);
            lemma_find_at(entries, "metadata"@, 2);
            lemma_find_at(entries, "type"@, 3);
            lemma_find_at(entries, "version"@, 4);
            lemma_metadata_round_trip(file.metadata);
            lemma_version_round_trip(file.version);
            assert(node_value(node, header) == ValueModel::StringMap(entries));
        },
        PrivateNodeModel::Dir(dir) => {
            let entries = seq![
                ("entries"@, ValueModel::StringMap(refs_value(dir.entries))),
                ("header"@, ValueModel::Bytes(header)),
                ("metadata"@, metadata_value(dir.metadata)),
                ("type"@, ValueModel::Text("wnfs/priv/dir"@)),
                ("version"@, version_value(dir.version)),
            ];
            lemma_find_at(entries, "entries"@, 0);
            lemma_find_at(entries, "header"@, 1);
            lemma_find_at(entries, "metadata"@, 2);
            lemma_find_at(entries, "type"@, 3);
            lemma_find_at(entries, "version"@, 4);
            lemma_metadata_round_trip(dir.metadata);
            lemma_version_round_trip(dir.version);
            lemma_refs_round_trip(dir.entries);
            assert(node_value(node, header) == ValueModel::StringMap(entries));
        },
    }
}

/// Whether the decoder reads the bytes that the encoder writes for a value
/// as the value again.
pub open spec fn reads_back(value: ValueModel) -> bool {
    dag_cbor_encoding(value) matches Some(bytes) && dag_cbor_value(bytes) == Some(value)
}

/// Whether a node passes through the cipher and the codec unchanged with
/// the two nonces: its ratchet can be read from its text, and its header
/// and the node itself are read back and opened as they were written and
/// sealed.
pub open spec fn survives(node: PrivateNodeModel, header_nonce: Seq<u8>, body_nonce: Seq<u8>)
    -> bool {
    let header = node.header();
    &&& in_order(node)
    &&& ratchet_read(ratchet_text(header.ratchet)) == Some(header.ratchet)
    &&& reads_back(header_value(header))
    &&& opens(Key(ratchet_key(header.ratchet)), header_nonce, header_value(header))
    &&& sealed_header(header, header_nonce) matches Ok(blob) && reads_back(node_value(node, blob))
        && opens(private_ref_of(header).content_key.0, body_nonce, node_value(node, blob))
}

/// Whether the decoder reads back the two values that a node is written
/// as when it is stored with random values from `entropy`: the value of
/// its header, and the value of the node with the sealed header in it.
pub open spec fn is_read_back(node: PrivateNodeModel, entropy: Entropy) -> bool {
    &&& reads_back(header_value(node.header()))
    &&& sealed_header(node.header(), nonce_of(draw(entropy.seed, entropy.counter))) matches Ok(blob)
        && reads_back(node_value(node, blob))
}

/// A node whose seals open again, as storing it says they do, passes
/// through the cipher and the codec unchanged where its entries are in
/// order and the decoder reads back the two values it is written as.
pub proof fn lemma_stored_survives(node: PrivateNodeModel, entropy: Entropy)
    requires
        stored_opens(node, private_ref_of(node.header()), entropy),
        in_order(node),
        is_read_back(node, entropy),
    ensures
        survives(
            node,
            nonce_of(draw(entropy.seed, entropy.counter)),
            nonce_of(draw(entropy.advanced().seed, entropy.advanced().counter)),
        ),
{
}

/// A node that is stored in the forest for its own capability is found
/// under that capability, where it passes through the cipher and the
/// codec unchanged.
pub proof fn lemma_stored_node_is_found(
    node: PrivateNodeModel,
    forest: ForestMap,
    blocks: Blocks,
    entropy: Entropy,
)
    requires
        survives(
            node,
            nonce_of(draw(entropy.seed, entropy.counter)),
            nonce_of(draw(entropy.advanced().seed, entropy.advanced().counter)),
        ),
    ensures
        committed(node, World { forest, blocks, entropy }) is Ok,
        forest_get(
            committed(node, World { forest, blocks, entropy })->Ok_0.forest,
            private_ref_of(node.header()),
            committed(node, World { forest, blocks, entropy })->Ok_0.blocks,
        ) == Ok::<Option<PrivateNodeModel>, FsError>(Some(node)),
{
    let header = node.header();
    let private_ref = private_ref_of(header);
    let header_nonce = nonce_of(draw(entropy.seed, entropy.counter));
    let sealed = sealed_header(header, header_nonce)->Ok_0;
    lemma_header_round_trip(header);
    assert(opened_header(sealed, private_ref.ratchet_key) == Ok::<PrivateNodeHeader, FsError>(
        header,
    ));
    lemma_node_round_trip(node, sealed, private_ref.ratchet_key);
    let bytes = dag_cbor_encoding(node_value(node, sealed))->0;
    assert(node_of_bytes(bytes, private_ref.ratchet_key) == Ok::<PrivateNodeModel, FsError>(node));
}

/// Where the block that the forest holds for a capability does not open
/// under the content key of the capability, nothing is found but the
/// failure to decrypt.
pub proof fn lemma_wrong_content_key(private_ref: PrivateRef, forest: ForestMap, blocks: Blocks)
    requires
        forest.contains_key(private_ref.saturated_name_hash),
        blocks.contains_key(forest[private_ref.saturated_name_hash]),
        decrypted(private_ref.content_key.0, blocks[forest[private_ref.saturated_name_hash]])
            is None,
    ensures
        forest_get(forest, private_ref, blocks) == Err::<Option<PrivateNodeModel>, FsError>(
            FsError::Decrypt,
        ),
{
}

/// Where the header in a node does not open under the ratchet key of the
/// capability, nothing is found but the failure to decrypt, whatever else
/// the node holds that a node must hold.
pub proof fn lemma_wrong_ratchet_key(
    node: PrivateNodeModel,
    header: Seq<u8>,
    bytes: Seq<u8>,
    key: RatchetKey,
)
    requires
        in_order(node),
        dag_cbor_value(bytes) == Some(node_value(node, header)),
        decrypted(key.0, header) is None,
    ensures
        node_of_bytes(bytes, key) == Err::<PrivateNodeModel, FsError>(FsError::Decrypt),
{
    lemma_names_differ();
    match node {
        PrivateNodeModel::File(file) => {
            let entries = seq![
                ("content"@, ValueModel::Bytes(file.content)),
                ("header"@, ValueModel::Bytes(header)),
                ("metadata"@, metadata_value(file.metadata)),
                ("type"@, ValueModel::Text("wnfs/priv/file"@)),
                ("version"@, version_value(file.version)),
            ];
            lemma_find_at(entries, "content"@, 0);
            lemma_find_at(entries, "header"@, 1);
            lemma_find_at(entries, "metadata"@, 2);
            lemma_find_at(entries, "type"@, 3);
            lemma_find_at(entries, "version"@, 4);
            lemma_metadata_round_trip(file.metadata);
            lemma_version_round_trip(file.version);
            assert(node_value(node, header) == ValueModel::StringMap(entries));
        },
        PrivateNodeModel::Dir(dir) => {
            let entries = seq![
                ("entries"@, ValueModel::StringMap(refs_value(dir.entries))),
                ("header"@, ValueModel::Bytes(header)),
                ("metadata"@, metadata_value(dir.metadata)),
                ("type"@, ValueModel::Text("wnfs/priv/dir"@)),
                ("version"@, version_value(dir.version)),
            ];
            lemma_find_at(entries, "entries"@, 0);
            lemma_find_at(entries, "header"@, 1);
            lemma_find_at(entries, "metadata"@, 2);
            lemma_find_at(entries, "type"@, 3);
            lemma_find_at(entries, "version"@, 4);
            lemma_metadata_round_trip(dir.metadata);
            lemma_version_round_trip(dir.version);
            lemma_refs_round_trip(dir.entries);
            assert(node_value(node, header) == ValueModel::StringMap(entries));
        },
    }
}

/// A directory that is found in the forest has its entries in the order
/// of their names: a block that holds them otherwise is refused.
pub proof fn lemma_found_in_order(
    private_ref: PrivateRef,
    forest: ForestMap,
    blocks: Blocks,
    node: PrivateNodeModel,
)
    requires
        forest_get(forest, private_ref, blocks) == Ok::<Option<PrivateNodeModel>, FsError>(
            Some(node),
        ),
    ensures
        in_order(node),
{
}

/// A node is found under a capability only where the block that the
/// forest holds for it opened under the content key of the capability.
pub proof fn lemma_found_was_opened(
    private_ref: PrivateRef,
    forest: ForestMap,
    blocks: Blocks,
    node: PrivateNodeModel,
)
    requires
        forest_get(forest, private_ref, blocks) == Ok::<Option<PrivateNodeModel>, FsError>(
            Some(node),
        ),
    ensures
        forest.contains_key(private_ref.saturated_name_hash),
        fetch(blocks, forest[private_ref.saturated_name_hash]) is Ok,
        decrypted(
            private_ref.content_key.0,
            fetch(blocks, forest[private_ref.saturated_name_hash])->Ok_0,
        ) is Some,
        node_of_bytes(
            decrypted(
                private_ref.content_key.0,
                fetch(blocks, forest[private_ref.saturated_name_hash])->Ok_0,
            )->0,
            private_ref.ratchet_key,
        ) == Ok::<PrivateNodeModel, FsError>(node),
{
}

} // verus!
