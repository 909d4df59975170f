use std::rc::Rc;

use chrono::Utc;
use proptest::test_runner::{RngAlgorithm, TestRng};
use wnfs::error::FsError;
use wnfs::hash::hash;
use wnfs::metadata::{UnixFsNodeKind, Version};
use wnfs::private::entropy::Entropy;
use wnfs::private::forest::PrivateForest;
use wnfs::private::key::Key;
use wnfs::private::namefilter::Namefilter;
use wnfs::private::node::{
    ContentKey, PrivateDirectory, PrivateFile, PrivateNode, PrivateNodeHeader, PrivateRef,
    RatchetKey,
};
use wnfs::store::{BlockStore, MemoryBlockStore};

fn rng() -> Entropy {
    Entropy::from_rng(&mut TestRng::deterministic_rng(RngAlgorithm::ChaCha)).unwrap()
}

#[test]
fn inserted_items_can_be_fetched() {
    let store = &mut MemoryBlockStore::new();
    let hamt = Rc::new(PrivateForest::new());
    let rng = &mut rng();

    let dir = Rc::new(PrivateDirectory::new(
        Namefilter::new(),
        Utc::now().timestamp(),
        rng,
    ));

    let private_ref = dir.header.get_private_ref().unwrap();
    let saturated_name = dir.header.get_saturated_name();
    let private_node = PrivateNode::Dir(dir.clone());

    let hamt = hamt
        .set(saturated_name, &private_ref, &private_node, store, rng)
        .unwrap();

    let retrieved = hamt.get(&private_ref, store).unwrap().unwrap();

    assert_eq!(retrieved, private_node);
}

#[test]
fn serialized_private_node_can_be_deserialized() {
    let rng = &mut rng();
    let original_file = PrivateNode::File(Rc::new(PrivateFile::new(
        Namefilter::new(),
        Utc::now().timestamp(),
        b"Lorem ipsum dolor sit amet".to_vec(),
        rng,
    )));
    let private_ref = original_file.get_header().get_private_ref().unwrap();

    let bytes = original_file.serialize_to_cbor(rng).unwrap();
    let deserialized_node =
        PrivateNode::deserialize_from_cbor(&bytes, &private_ref.ratchet_key).unwrap();

    assert_eq!(original_file, deserialized_node);
}

#[test]
fn serialized_private_directory_can_be_deserialized() {
    let rng = &mut rng();
    let child = PrivateFile::new(Namefilter::new(), 5, b"x".to_vec(), rng);
    let mut dir = PrivateDirectory::new(Namefilter::new(), 6, rng);
    dir.entries
        .push(("a.txt".to_string(), child.header.get_private_ref().unwrap()));
    let node = PrivateNode::Dir(Rc::new(dir));
    let key = node.get_header().get_private_ref().unwrap().ratchet_key;

    let bytes = node.serialize_to_cbor(rng).unwrap();
    assert_eq!(PrivateNode::deserialize_from_cbor(&bytes, &key), Ok(node));
}

#[test]
fn deserializing_with_another_ratchet_key_fails_to_decrypt() {
    let rng = &mut rng();
    let node = PrivateNode::File(Rc::new(PrivateFile::new(
        Namefilter::new(),
        5,
        b"secret".to_vec(),
        rng,
    )));
    let bytes = node.serialize_to_cbor(rng).unwrap();
    let wrong = RatchetKey(Key::new([7u8; 32]));
    assert_eq!(
        PrivateNode::deserialize_from_cbor(&bytes, &wrong),
        Err(FsError::Decrypt)
    );
}

#[test]
fn deserializing_what_is_no_node_is_an_unexpected_node_type() {
    let key = RatchetKey(Key::new([7u8; 32]));
    assert_eq!(
        PrivateNode::deserialize_from_cbor(&[0xff, 0x00], &key),
        Err(FsError::UnexpectedNodeType)
    );
    // The text "x", which is no map.
    assert_eq!(
        PrivateNode::deserialize_from_cbor(&[0x61, 0x78], &key),
        Err(FsError::UnexpectedNodeType)
    );
}

#[test]
fn private_ref_follows_the_key_schedule() {
    let rng = &mut rng();
    let header = PrivateNodeHeader::new(Namefilter::new(), rng);
    let private_ref = header.get_private_ref().unwrap();

    assert_eq!(
        private_ref.content_key,
        ContentKey(Key::new(hash(private_ref.ratchet_key.0.as_bytes())))
    );

    let mut name = header.bare_name;
    name.add(private_ref.ratchet_key.0.as_bytes());
    name.saturate();
    assert_eq!(name, header.get_saturated_name());
    assert_eq!(
        name,
        header.get_saturated_name_with_key(&private_ref.ratchet_key.0)
    );
    assert_eq!(private_ref.saturated_name_hash, hash(&name.to_bytes()));
}

#[test]
fn a_new_header_has_its_identity_in_its_bare_name() {
    let rng = &mut rng();
    let mut parent = Namefilter::new();
    parent.add(b"some ancestor");
    let header = PrivateNodeHeader::new(parent, rng);

    let mut expected = parent;
    expected.add(&header.inumber);
    assert_eq!(header.bare_name, expected);
    assert!(header.bare_name.contains(&header.inumber));
    assert!(header.bare_name.contains(b"some ancestor"));
}

#[test]
fn update_bare_name_takes_the_new_parent() {
    let rng = &mut rng();
    let mut header = PrivateNodeHeader::new(Namefilter::new(), rng);
    let inumber = header.inumber;
    let mut parent = Namefilter::new();
    parent.add(b"new parent");

    header.update_bare_name(parent);

    let mut expected = parent;
    expected.add(&inumber);
    assert_eq!(header.bare_name, expected);
    assert_eq!(header.inumber, inumber);
}

#[test]
fn advancing_the_ratchet_changes_the_private_ref() {
    let rng = &mut rng();
    let mut header = PrivateNodeHeader::new(Namefilter::new(), rng);
    let before = header.get_private_ref().unwrap();
    let again = header.get_private_ref().unwrap();
    assert_eq!(before, again);

    header.advance_ratchet();
    let after = header.get_private_ref().unwrap();
    assert_ne!(before.ratchet_key, after.ratchet_key);
    assert_ne!(before.content_key, after.content_key);
    assert_ne!(before.saturated_name_hash, after.saturated_name_hash);
}

#[test]
fn resetting_the_ratchet_keeps_identity_and_bare_name() {
    let rng = &mut rng();
    let mut header = PrivateNodeHeader::new(Namefilter::new(), rng);
    let inumber = header.inumber;
    let bare_name = header.bare_name;
    let before = header.get_private_ref().unwrap();

    header.reset_ratchet(rng);

    assert_eq!(header.inumber, inumber);
    assert_eq!(header.bare_name, bare_name);
    assert_ne!(header.get_private_ref().unwrap(), before);
}

#[test]
fn headers_from_one_source_of_entropy_are_the_same() {
    let a = PrivateNodeHeader::new(Namefilter::new(), &mut Entropy::new([3u8; 32]));
    let b = PrivateNodeHeader::new(Namefilter::new(), &mut Entropy::new([3u8; 32]));
    let c = PrivateNodeHeader::new(Namefilter::new(), &mut Entropy::new([4u8; 32]));
    assert_eq!(a, b);
    assert_ne!(a.inumber, c.inumber);
}

#[test]
fn new_nodes_carry_version_and_metadata() {
    let rng = &mut rng();
    let file = PrivateFile::new(Namefilter::new(), 11, b"abc".to_vec(), rng);
    assert_eq!(file.version, Version::new(0, 2, 0));
    assert_eq!(file.metadata.unix_fs.kind, UnixFsNodeKind::File);
    assert_eq!(file.metadata.unix_fs.created, 11);
    assert_eq!(file.metadata.unix_fs.modified, 11);
    assert_eq!(file.metadata.unix_fs.mode, 644);
    assert_eq!(file.content, b"abc".to_vec());

    let dir = PrivateDirectory::new(Namefilter::new(), 12, rng);
    assert_eq!(dir.version, Version::new(0, 2, 0));
    assert_eq!(dir.metadata.unix_fs.kind, UnixFsNodeKind::Dir);
    assert_eq!(dir.metadata.unix_fs.mode, 755);
    assert!(dir.entries.is_empty());
    assert_eq!(dir.lookup("a"), None);
}

#[test]
fn node_accessors_tell_files_from_directories() {
    let rng = &mut rng();
    let file = PrivateNode::File(Rc::new(PrivateFile::new(
        Namefilter::new(),
        1,
        Vec::new(),
        rng,
    )));
    let dir = PrivateNode::Dir(Rc::new(PrivateDirectory::new(Namefilter::new(), 1, rng)));

    assert!(file.is_file() && !file.is_dir());
    assert!(dir.is_dir() && !dir.is_file());
    assert!(file.as_file().is_ok());
    assert_eq!(file.as_dir().err(), Some(FsError::NotADirectory));
    assert!(dir.as_dir().is_ok());
    assert_eq!(dir.as_file().err(), Some(FsError::NotAFile));

    let later = file.upsert_mtime(99);
    assert_eq!(later.as_file().unwrap().metadata.unix_fs.modified, 99);
    assert_eq!(later.as_file().unwrap().metadata.unix_fs.created, 1);
    assert_eq!(later.get_header(), file.get_header());
}

#[test]
fn forest_get_of_an_unknown_ref_is_none() {
    let store = &mut MemoryBlockStore::new();
    let forest = Rc::new(PrivateForest::new());
    let rng = &mut rng();
    let header = PrivateNodeHeader::new(Namefilter::new(), rng);
    let private_ref = header.get_private_ref().unwrap();
    assert_eq!(forest.get(&private_ref, store), Ok(None));
    assert_eq!(forest.has(&private_ref.saturated_name_hash, store), Ok(false));
}

#[test]
fn forest_get_with_a_wrong_key_fails_to_decrypt() {
    let store = &mut MemoryBlockStore::new();
    let forest = Rc::new(PrivateForest::new());
    let rng = &mut rng();
    let node = PrivateNode::File(Rc::new(PrivateFile::new(
        Namefilter::new(),
        1,
        b"mine".to_vec(),
        rng,
    )));
    let private_ref = node.get_header().get_private_ref().unwrap();
    let name = node.get_header().get_saturated_name();
    let forest = forest.set(name, &private_ref, &node, store, rng).unwrap();
    assert_eq!(forest.has(&private_ref.saturated_name_hash, store), Ok(true));

    let wrong_ratchet_key = PrivateRef {
        ratchet_key: RatchetKey(Key::new([1u8; 32])),
        ..private_ref
    };
    assert_eq!(forest.get(&wrong_ratchet_key, store), Err(FsError::Decrypt));

    let wrong_content_key = PrivateRef {
        content_key: ContentKey(Key::new([1u8; 32])),
        ..private_ref
    };
    assert_eq!(forest.get(&wrong_content_key, store), Err(FsError::Decrypt));
}

#[test]
fn forest_blocks_are_raw_and_not_the_plain_node() {
    let store = &mut MemoryBlockStore::new();
    let forest = Rc::new(PrivateForest::new());
    let rng = &mut rng();
    let node = PrivateNode::File(Rc::new(PrivateFile::new(
        Namefilter::new(),
        1,
        b"mine".to_vec(),
        rng,
    )));
    let private_ref = node.get_header().get_private_ref().unwrap();
    let name = node.get_header().get_saturated_name();
    let forest = forest.set(name, &private_ref, &node, store, rng).unwrap();

    let cid = forest
        .get_encrypted(&private_ref.saturated_name_hash, store)
        .unwrap()
        .unwrap();
    assert_eq!(cid.codec, wnfs::cid::CODEC_RAW);
    let blob = store.get_block(&cid).unwrap();
    let plain = private_ref.content_key.0.decrypt(&blob).unwrap();
    assert_eq!(
        PrivateNode::deserialize_from_cbor(&plain, &private_ref.ratchet_key),
        Ok(node)
    );
    assert!(blob.len() == plain.len() + 12 + 16);
}

#[test]
fn forest_remove_drops_the_entry_and_keeps_the_block() {
    let store = &mut MemoryBlockStore::new();
    let forest = Rc::new(PrivateForest::new());
    let rng = &mut rng();
    let node = PrivateNode::Dir(Rc::new(PrivateDirectory::new(Namefilter::new(), 1, rng)));
    let private_ref = node.get_header().get_private_ref().unwrap();
    let name = node.get_header().get_saturated_name();
    let forest = forest.set(name, &private_ref, &node, store, rng).unwrap();
    let cid = forest
        .get_encrypted(&private_ref.saturated_name_hash, store)
        .unwrap()
        .unwrap();
    let blocks = store.len();

    let (forest, removed) = forest
        .remove_encrypted(&private_ref.saturated_name_hash, store)
        .unwrap();

    assert_eq!(removed, Some(cid));
    assert_eq!(forest.get(&private_ref, store), Ok(None));
    assert_eq!(store.len(), blocks);
    assert!(store.get_block(&cid).is_ok());
    assert_eq!(*forest, PrivateForest::new());
}
