use std::rc::Rc;

use proptest::test_runner::{RngAlgorithm, TestRng};
use skip_ratchet::Ratchet;
use wnfs::cid::{digest_eq, new_zero_digest, Cid, CODEC_DAG_CBOR, CODEC_RAW};
use wnfs::entries::{insert_entry, position, remove_entry, slot};
use wnfs::error::FsError;
use wnfs::hash::hash;
use wnfs::ipld::{decode, encode, map_get, Value};
use wnfs::metadata::{Metadata, UnixFsNodeKind, Version};
use wnfs::order::{compare_bytes, compare_names, Comparison};
use wnfs::private::entropy::Entropy;
use wnfs::private::forest::PrivateForest;
use wnfs::private::key::Key;
use wnfs::private::namefilter::{item_indices, Namefilter};
use wnfs::private::node::PrivateNodeHeader;
use wnfs::shared;
use wnfs::store::{cid_of_block, BlockStore, MemoryBlockStore};

fn hex(text: &str) -> Vec<u8> {
    (0..text.len())
        .step_by(2)
        .map(|i| u8::from_str_radix(&text[i..i + 2], 16).unwrap())
        .collect()
}

#[test]
fn hash_is_sha3_256() {
    assert_eq!(
        hash(b"").to_vec(),
        hex("a7ffc6f8bf1ed76651c14756a061d662f580ff4de43b49fa82d80a4b80f8434a")
    );
    assert_eq!(
        hash(b"abc").to_vec(),
        hex("3a985da74fe225b2045c172d6bd390bd855f086e3e9d525b46bfe24511431532")
    );
}

#[test]
fn block_addresses_are_sha2_256() {
    let cid = cid_of_block(CODEC_RAW, b"abc");
    assert_eq!(cid.codec, 0x55);
    assert_eq!(cid.hash_code, 0x12);
    assert_eq!(
        cid.digest.to_vec(),
        hex("ba7816bf8f01cfea414140de5dae2223b00361a396177a9cb410ff61f20015ad")
    );
    let cbor = cid_of_block(CODEC_DAG_CBOR, b"");
    assert_eq!(cbor.codec, 0x71);
    assert_eq!(
        cbor.digest.to_vec(),
        hex("e3b0c44298fc1c149afbf4c8996fb92427ae41e4649b934ca495991b7852b855")
    );
}

#[test]
fn the_memory_store_gives_back_what_was_put() {
    let mut store = MemoryBlockStore::new();
    assert_eq!(store.len(), 0);
    let cid = store.put_block(b"abc".to_vec(), CODEC_RAW).unwrap();
    assert_eq!(cid, cid_of_block(CODEC_RAW, b"abc"));
    assert_eq!(store.get_block(&cid), Ok(b"abc".to_vec()));
    assert_eq!(store.len(), 1);

    // the same block again changes nothing
    assert_eq!(store.put_block(b"abc".to_vec(), CODEC_RAW), Ok(cid));
    assert_eq!(store.len(), 1);

    // the same bytes under another codec are another block
    let other = store.put_block(b"abc".to_vec(), CODEC_DAG_CBOR).unwrap();
    assert_ne!(other, cid);
    assert_eq!(store.len(), 2);

    assert_eq!(
        store.get_block(&cid_of_block(CODEC_RAW, b"missing")),
        Err(FsError::NotFound)
    );
    assert_eq!(MemoryBlockStore::default().len(), 0);
}

#[test]
fn addresses_are_ordered_by_digest() {
    let zero = Cid::default();
    assert_eq!((zero.codec, zero.hash_code), (0, 0));
    assert_eq!(zero.digest, new_zero_digest());
    assert_eq!(zero.digest, [0u8; 32]);
    let mut one = zero;
    one.digest[31] = 1;
    let mut high = zero;
    high.digest[0] = 1;
    assert!(zero.precedes(&one));
    assert!(one.precedes(&high));
    assert!(!high.precedes(&one));
    assert!(!zero.precedes(&zero));
    assert!(zero.same(&zero));
    assert!(!zero.same(&one));
    assert!(digest_eq(&one.digest, &one.digest));
    assert!(!digest_eq(&one.digest, &high.digest));
}

#[test]
fn values_are_written_as_dag_cbor() {
    assert_eq!(encode(&Value::Null), Some(vec![0xf6]));
    assert_eq!(encode(&Value::Bool(true)), Some(vec![0xf5]));
    assert_eq!(encode(&Value::Integer(1)), Some(vec![0x01]));
    assert_eq!(encode(&Value::Integer(-1)), Some(vec![0x20]));
    assert_eq!(encode(&Value::Integer(1000)), Some(vec![0x19, 0x03, 0xe8]));
    assert_eq!(encode(&Value::Text("a".to_string())), Some(vec![0x61, 0x61]));
    assert_eq!(encode(&Value::Bytes(vec![1, 2])), Some(vec![0x42, 1, 2]));
    assert_eq!(
        encode(&Value::List(vec![Value::Integer(1), Value::Integer(2)])),
        Some(vec![0x82, 1, 2])
    );
    assert_eq!(
        encode(&Value::StringMap(vec![(
            "a".to_string(),
            Value::Integer(1)
        )])),
        Some(vec![0xa1, 0x61, 0x61, 0x01])
    );

    let link = encode(&Value::Link(cid_of_block(CODEC_RAW, b"abc"))).unwrap();
    let mut expected = vec![0xd8, 0x2a, 0x58, 0x25, 0x00, 0x01, 0x55, 0x12, 0x20];
    expected.extend(hex(
        "ba7816bf8f01cfea414140de5dae2223b00361a396177a9cb410ff61f20015ad",
    ));
    assert_eq!(link, expected);
}

#[test]
fn values_are_read_from_dag_cbor() {
    assert_eq!(decode(&[0xf6]), Some(Value::Null));
    assert_eq!(decode(&[0x19, 0x03, 0xe8]), Some(Value::Integer(1000)));
    assert_eq!(
        decode(&[0xa1, 0x61, 0x61, 0x82, 0x01, 0x41, 0x07]),
        Some(Value::StringMap(vec![(
            "a".to_string(),
            Value::List(vec![Value::Integer(1), Value::Bytes(vec![7])])
        )]))
    );
    // a map that ends too early, and a floating-point number
    assert_eq!(decode(&[0xa1, 0x61]), None);
    assert_eq!(decode(&[0xfb, 0x3f, 0xf0, 0, 0, 0, 0, 0, 0]), None);
    assert_eq!(decode(&[]), None);

    let value = Value::StringMap(vec![
        ("link".to_string(), Value::Link(cid_of_block(CODEC_DAG_CBOR, b"x"))),
        ("list".to_string(), Value::List(vec![Value::Bool(false), Value::Null])),
        ("text".to_string(), Value::Text("hello".to_string())),
    ]);
    assert_eq!(decode(&encode(&value).unwrap()), Some(value));
}

#[test]
fn map_get_finds_the_first_entry_of_a_name() {
    let entries = vec![
        ("a".to_string(), Value::Integer(1)),
        ("b".to_string(), Value::Integer(2)),
        ("a".to_string(), Value::Integer(3)),
    ];
    assert_eq!(map_get(&entries, "a"), Some(&Value::Integer(1)));
    assert_eq!(map_get(&entries, "b"), Some(&Value::Integer(2)));
    assert_eq!(map_get(&entries, "c"), None);
}

#[test]
fn an_address_is_made_of_the_parts_of_a_version_one_cid() {
    let digest = [7u8; 32];
    assert_eq!(
        Cid::from_parts(1, 0x55, 0x12, &digest),
        Some(Cid {
            codec: 0x55,
            hash_code: 0x12,
            digest
        })
    );
    assert_eq!(Cid::from_parts(0, 0x55, 0x12, &digest), None);
    assert_eq!(Cid::from_parts(1, 0x55, 0x12, &digest[..31]), None);
}

#[test]
fn aes_gcm_follows_the_test_vectors() {
    // AES-256-GCM with a key and a nonce of zeros
    let key = Key::new([0u8; 32]);
    let nonce = [0u8; 12];

    let empty = key.encrypt(&nonce, b"").unwrap();
    let mut expected = nonce.to_vec();
    expected.extend(hex("530f8afbc74536b9a963b4f1c4cb738b"));
    assert_eq!(empty, expected);

    let block = key.encrypt(&nonce, &[0u8; 16]).unwrap();
    let mut expected = nonce.to_vec();
    expected.extend(hex("cea7403d4d606b6e074ec5d3baf39d18"));
    expected.extend(hex("d0d1c8a799996bf0265b98b5d48ab919"));
    assert_eq!(block, expected);

    assert_eq!(key.decrypt(&block), Ok(vec![0u8; 16]));
    assert_eq!(key.decrypt(&empty), Ok(Vec::new()));
}

#[test]
fn decryption_fails_on_what_was_not_sealed_under_the_key() {
    let key = Key::new([1u8; 32]);
    let other = Key::new([2u8; 32]);
    let nonce = [9u8; 12];
    let blob = key.encrypt(&nonce, b"some secret").unwrap();
    assert_eq!(blob.len(), 12 + 11 + 16);
    assert_eq!(&blob[..12], &nonce);
    assert_ne!(&blob[12..23], b"some secret");
    assert_eq!(key.as_bytes(), &[1u8; 32]);

    assert_eq!(key.decrypt(&blob), Ok(b"some secret".to_vec()));
    assert_eq!(other.decrypt(&blob), Err(FsError::Decrypt));

    let mut changed = blob.clone();
    changed[20] ^= 1;
    assert_eq!(key.decrypt(&changed), Err(FsError::Decrypt));
    let mut other_nonce = blob.clone();
    other_nonce[0] ^= 1;
    assert_eq!(key.decrypt(&other_nonce), Err(FsError::Decrypt));

    assert_eq!(key.decrypt(&blob[..11]), Err(FsError::Decrypt));
    assert_eq!(key.decrypt(&blob[..12]), Err(FsError::Decrypt));
    assert_eq!(key.decrypt(&[]), Err(FsError::Decrypt));
}

#[test]
fn entropy_draws_the_hash_of_seed_and_counter() {
    let seed = [3u8; 32];
    let mut entropy = Entropy::new(seed);
    assert_eq!(entropy.counter, 0);

    let mut input = seed.to_vec();
    input.extend(0u64.to_le_bytes());
    assert_eq!(entropy.next(), hash(&input));
    assert_eq!(entropy.counter, 1);

    let mut input = seed.to_vec();
    input.extend(1u64.to_le_bytes());
    let second = hash(&input);
    assert_eq!(entropy.next_nonce().to_vec(), second[..12].to_vec());
    assert_eq!(entropy.counter, 2);
    assert_eq!(entropy.seed, seed);

    let mut far = Entropy {
        seed,
        counter: 0x0102030405060708,
    };
    let mut input = seed.to_vec();
    input.extend([8, 7, 6, 5, 4, 3, 2, 1]);
    assert_eq!(far.next(), hash(&input));
}

#[test]
fn entropy_from_a_generator_starts_at_zero() {
    let mut rng = TestRng::deterministic_rng(RngAlgorithm::ChaCha);
    let a = Entropy::from_rng(&mut rng).unwrap();
    let b = Entropy::from_rng(&mut rng).unwrap();
    assert_eq!(a.counter, 0);
    assert_ne!(a.seed, b.seed);
    let again = Entropy::from_rng(&mut TestRng::deterministic_rng(RngAlgorithm::ChaCha));
    assert_eq!(Some(a), again);
}

#[test]
fn a_header_is_made_of_two_draws() {
    let seed = [3u8; 32];
    let mut entropy = Entropy::new(seed);
    let header = PrivateNodeHeader::new(Namefilter::new(), &mut entropy);
    assert_eq!(entropy.counter, 2);

    let mut draws = Entropy::new(seed);
    let inumber = draws.next();
    let ratchet_seed = draws.next();
    assert_eq!(header.inumber, inumber);
    assert_eq!(header.ratchet, Ratchet::zero(ratchet_seed));
    assert_eq!(
        header.get_private_ref().unwrap().ratchet_key.0,
        Key::new(Ratchet::zero(ratchet_seed).derive_key())
    );

    let mut stepped = header.copy();
    stepped.advance_ratchet();
    let mut expected = Ratchet::zero(ratchet_seed);
    expected.inc();
    assert_eq!(stepped.ratchet, expected);
    assert_ne!(stepped.ratchet, header.ratchet);

    let mut reset = header.copy();
    reset.reset_ratchet(&mut entropy);
    assert_eq!(reset.ratchet, Ratchet::zero(draws.next()));
    assert_eq!(header.clone(), header);
}

#[test]
fn a_name_filter_sets_thirty_bits_for_an_item() {
    let mut filter = Namefilter::new();
    assert_eq!(filter.count_ones(), 0);
    assert!(!filter.contains(b"one"));

    filter.add(b"one");
    assert!(filter.contains(b"one"));
    let indices = item_indices(b"one");
    assert_eq!(indices.len(), 30);
    assert!(indices.iter().all(|&i| i < 2048 && filter.bits[i]));
    assert!(filter.count_ones() <= 30 && filter.count_ones() > 0);
    let set: Vec<usize> = (0..2048).filter(|&i| filter.bits[i]).collect();
    assert!(set.iter().all(|i| indices.contains(i)));

    let before = filter;
    filter.add(b"one");
    assert_eq!(filter, before);
}

#[test]
fn adding_to_a_name_filter_is_monotonic_and_commutative() {
    let mut ab = Namefilter::new();
    ab.add(b"a");
    let only_a = ab;
    ab.add(b"b");
    let mut ba = Namefilter::new();
    ba.add(b"b");
    ba.add(b"a");
    assert_eq!(ab, ba);
    assert!((0..2048).all(|i| !only_a.bits[i] || ab.bits[i]));
    assert!(ab.contains(b"a") && ab.contains(b"b"));
    assert!(ab.count_ones() >= only_a.count_ones());
}

#[test]
fn saturation_fills_a_name_filter_to_its_target() {
    let mut filter = Namefilter::new();
    filter.add(b"some name");
    let bare = filter;
    filter.saturate();
    assert_eq!(filter.count_ones(), 1019);
    assert!((0..2048).all(|i| !bare.bits[i] || filter.bits[i]));

    let once = filter;
    filter.saturate();
    assert_eq!(filter, once);

    let mut again = bare;
    again.saturate();
    assert_eq!(again, once);

    let mut empty = Namefilter::new();
    empty.saturate();
    assert_eq!(empty.count_ones(), 1019);
    assert_ne!(empty, once);
}

#[test]
fn name_filters_that_differ_saturate_apart() {
    let mut one = Namefilter::new();
    one.add(b"one");
    let mut two = Namefilter::new();
    two.add(b"two");
    one.saturate();
    two.saturate();
    assert_ne!(one, two);
}

#[test]
fn a_name_filter_is_written_as_its_bits() {
    let mut filter = Namefilter::new();
    assert_eq!(filter.to_bytes(), vec![0u8; 256]);
    filter.bits[0] = true;
    filter.bits[9] = true;
    filter.bits[2047] = true;
    let bytes = filter.to_bytes();
    assert_eq!(bytes.len(), 256);
    assert_eq!(bytes[0], 1);
    assert_eq!(bytes[1], 2);
    assert_eq!(bytes[255], 128);
    assert_eq!(bytes.iter().map(|b| b.count_ones()).sum::<u32>(), 3);

    assert_eq!(Namefilter::from_bytes(&bytes), Some(filter));
    assert_eq!(Namefilter::from_bytes(&bytes[..255]), None);
    assert_eq!(Namefilter::from_bytes(&[]), None);

    filter.add(b"more");
    filter.saturate();
    assert_eq!(Namefilter::from_bytes(&filter.to_bytes()), Some(filter));
}

#[test]
fn bytes_and_names_are_compared_in_the_order_of_the_dictionary() {
    assert_eq!(compare_bytes(b"", b""), Comparison::Equal);
    assert_eq!(compare_bytes(b"", b"a"), Comparison::Less);
    assert_eq!(compare_bytes(b"ab", b"a"), Comparison::Greater);
    assert_eq!(compare_bytes(b"ab", b"b"), Comparison::Less);
    assert_eq!(compare_bytes(&[0xff], &[0x00, 0x01]), Comparison::Greater);
    assert_eq!(compare_names("cats", "cats"), Comparison::Equal);
    assert_eq!(compare_names("cats", "puppy.jpg"), Comparison::Less);
    assert_eq!(compare_names("b", "a"), Comparison::Greater);
    assert_eq!(compare_names("é", "z"), Comparison::Greater);
}

#[test]
fn entries_are_kept_in_the_order_of_their_names() {
    let mut entries: Vec<(String, i32)> = Vec::new();
    assert_eq!(insert_entry(&mut entries, "m".to_string(), 1), None);
    assert_eq!(insert_entry(&mut entries, "a".to_string(), 2), None);
    assert_eq!(insert_entry(&mut entries, "z".to_string(), 3), None);
    assert_eq!(insert_entry(&mut entries, "m".to_string(), 4), Some(1));
    assert_eq!(
        entries,
        vec![
            ("a".to_string(), 2),
            ("m".to_string(), 4),
            ("z".to_string(), 3)
        ]
    );
    assert_eq!(position(&entries, "m"), Some(1));
    assert_eq!(position(&entries, "b"), None);
    assert_eq!(slot(&entries, "m"), (1, true));
    assert_eq!(slot(&entries, "b"), (1, false));
    assert_eq!(slot(&entries, "zz"), (3, false));

    assert_eq!(remove_entry(&mut entries, "a"), Some(2));
    assert_eq!(remove_entry(&mut entries, "a"), None);
    assert_eq!(entries.len(), 2);
}

#[test]
fn metadata_starts_with_the_mode_of_its_kind() {
    let dir = Metadata::new(10, UnixFsNodeKind::Dir);
    assert_eq!(dir.unix_fs.mode, 755);
    assert_eq!(dir.unix_fs.created, 10);
    assert_eq!(dir.unix_fs.modified, 10);
    assert_eq!(dir.unix_fs.kind, UnixFsNodeKind::Dir);
    assert_eq!(Metadata::new(10, UnixFsNodeKind::HAMTShard).unix_fs.mode, 755);
    assert_eq!(Metadata::new(10, UnixFsNodeKind::File).unix_fs.mode, 644);
    assert_eq!(Metadata::new(10, UnixFsNodeKind::Raw).unix_fs.mode, 644);
    assert_eq!(Metadata::new(10, UnixFsNodeKind::SymLink).unix_fs.mode, 644);
    assert_eq!(Metadata::new(10, UnixFsNodeKind::Metadata).unix_fs.mode, 644);

    let mut later = dir;
    later.upsert_mtime(20);
    assert_eq!(later.get_created(), 10);
    assert_eq!(later.get_modified(), 20);
    assert_eq!(later.unix_fs.mode, 755);
    assert_eq!(Version::new(1, 2, 3), Version { major: 1, minor: 2, patch: 3 });
}

#[test]
fn errors_have_messages() {
    assert_eq!(FsError::NotFound.message(), "not found");
    assert_eq!(FsError::NotADirectory.message(), "not a directory");
    assert_eq!(FsError::NotAFile.message(), "not a file");
    assert_eq!(
        FsError::DirectoryAlreadyExists.message(),
        "directory already exists"
    );
    assert_eq!(FsError::FileAlreadyExists.message(), "file already exists");
    assert_eq!(FsError::InvalidPath.message(), "invalid path");
    assert_eq!(FsError::MissingNodeType.message(), "missing node type");
    assert_eq!(FsError::UnexpectedNodeType.message(), "unexpected node type");
    assert_eq!(FsError::Decrypt.message(), "unable to decrypt");
    assert_eq!(FsError::Store("disk full".to_string()).message(), "disk full");
}

#[test]
fn a_shared_value_can_be_changed_through_every_handle() {
    let first = shared(1);
    let second = Rc::clone(&first);
    *second.borrow_mut() += 41;
    assert_eq!(*first.borrow(), 42);
}

struct FailingStore;

impl BlockStore for FailingStore {
    fn get_block(&self, _cid: &Cid) -> Result<Vec<u8>, FsError> {
        Err(FsError::Store("offline".to_string()))
    }

    fn put_block(&mut self, _bytes: Vec<u8>, _codec: u64) -> Result<Cid, FsError> {
        Err(FsError::Store("offline".to_string()))
    }
}

#[test]
fn a_failure_of_the_store_is_handed_on_unchanged() {
    let mut store = FailingStore;
    let mut rng = Entropy::from_rng(&mut TestRng::deterministic_rng(RngAlgorithm::ChaCha)).unwrap();
    let dir = wnfs::private::node::PrivateDirectory::new(Namefilter::new(), 1, &mut rng);
    let node = wnfs::private::node::PrivateNode::Dir(Rc::new(dir));
    let header = node.get_header();
    let outcome = Rc::new(PrivateForest::new()).set(
        header.get_saturated_name(),
        &header.get_private_ref().unwrap(),
        &node,
        &mut store,
        &mut rng,
    );
    assert_eq!(outcome, Err(FsError::Store("offline".to_string())));

    let public = wnfs::public::node::PublicDirectory::new(1);
    assert_eq!(
        public.store(&mut store),
        Err(FsError::Store("offline".to_string()))
    );
}

#[test]
fn what_needs_no_block_does_not_fail_with_the_store() {
    let mut store = FailingStore;
    let mut rng = Entropy::from_rng(&mut TestRng::deterministic_rng(RngAlgorithm::ChaCha)).unwrap();
    let forest = Rc::new(PrivateForest::new());

    // a node whose own version the forest does not hold
    let file = wnfs::private::node::PrivateNode::File(Rc::new(
        wnfs::private::node::PrivateFile::new(Namefilter::new(), 1, b"x".to_vec(), &mut rng),
    ));
    assert_eq!(file.search_latest(&forest, &store), Ok(file.clone()));

    // the empty path
    let private = Rc::new(wnfs::private::node::PrivateDirectory::new(
        Namefilter::new(),
        1,
        &mut rng,
    ));
    assert_eq!(
        Rc::clone(&private)
            .read(&[], Rc::clone(&forest), &store)
            .err(),
        Some(FsError::InvalidPath)
    );
    assert_eq!(
        Rc::clone(&private)
            .write(&[], 2, Vec::new(), Rc::clone(&forest), &mut store, &mut rng)
            .err(),
        Some(FsError::InvalidPath)
    );
    assert_eq!(
        Rc::clone(&private)
            .rm(&[], Rc::clone(&forest), &mut store, &mut rng)
            .err(),
        Some(FsError::InvalidPath)
    );
    assert_eq!(
        Rc::clone(&private)
            .basic_mv(
                &["a".to_string()],
                &[],
                2,
                Rc::clone(&forest),
                &mut store,
                &mut rng
            )
            .err(),
        Some(FsError::InvalidPath)
    );
    let found = Rc::clone(&private)
        .get_node(&[], Rc::clone(&forest), &store)
        .unwrap();
    assert_eq!(
        found.result,
        Some(wnfs::private::node::PrivateNode::Dir(private))
    );

    let public = Rc::new(wnfs::public::node::PublicDirectory::new(1));
    assert_eq!(
        Rc::clone(&public)
            .write(&[], Cid::default(), 2, &store)
            .err(),
        Some(FsError::InvalidPath)
    );
    assert_eq!(
        Rc::clone(&public).read(&[], &store).err(),
        Some(FsError::InvalidPath)
    );
    assert_eq!(
        Rc::clone(&public).rm(&[], &store).err(),
        Some(FsError::InvalidPath)
    );
    assert_eq!(
        Rc::clone(&public)
            .basic_mv(&[], &["a".to_string()], 2, &store)
            .err(),
        Some(FsError::InvalidPath)
    );
    let made = Rc::clone(&public).mkdir(&[], 2, &store).unwrap();
    assert_eq!(made.root_dir, public);
}

#[test]
fn a_node_that_says_no_kind_is_a_missing_node_type() {
    let value = Value::StringMap(vec![("content".to_string(), Value::Bytes(vec![1]))]);
    let key = wnfs::private::node::RatchetKey(Key::new([0u8; 32]));
    assert_eq!(
        wnfs::private::node::PrivateNode::try_from_value(&value, &key),
        Err(FsError::MissingNodeType)
    );
    let unknown = Value::StringMap(vec![(
        "type".to_string(),
        Value::Text("wnfs/priv/other".to_string()),
    )]);
    assert_eq!(
        wnfs::private::node::PrivateNode::try_from_value(&unknown, &key),
        Err(FsError::UnexpectedNodeType)
    );
    assert_eq!(
        wnfs::private::node::PrivateNode::try_from_value(&Value::Null, &key),
        Err(FsError::UnexpectedNodeType)
    );
}

struct Dry;

impl rand_core::RngCore for Dry {
    fn next_u32(&mut self) -> u32 {
        0
    }

    fn next_u64(&mut self) -> u64 {
        0
    }

    fn fill_bytes(&mut self, dest: &mut [u8]) {
        dest.fill(0);
    }

    fn try_fill_bytes(&mut self, _dest: &mut [u8]) -> Result<(), rand_core::Error> {
        let code = std::num::NonZeroU32::new(rand_core::Error::CUSTOM_START).unwrap();
        Err(rand_core::Error::from(code))
    }
}

#[test]
fn a_generator_that_cannot_deliver_gives_no_source() {
    assert_eq!(Entropy::from_rng(&mut Dry), None);

    let mut rng = TestRng::deterministic_rng(RngAlgorithm::ChaCha);
    let mut filled = [0u8; 32];
    rand_core::RngCore::fill_bytes(
        &mut TestRng::deterministic_rng(RngAlgorithm::ChaCha),
        &mut filled,
    );
    let drawn = Entropy::from_rng(&mut rng).unwrap();
    assert_eq!(drawn.counter, 0);
    assert_ne!(drawn.seed, [0u8; 32]);
    assert_eq!(drawn.seed, filled);
}

#[test]
fn a_tree_held_in_memory_is_worked_on_without_the_store() {
    let store = FailingStore;
    let at = |segments: &[&str]| -> Vec<String> {
        segments.iter().map(|s| s.to_string()).collect()
    };
    let content = cid_of_block(CODEC_RAW, b"content");

    let root = Rc::new(wnfs::public::node::PublicDirectory::new(1));
    let root = root
        .write(&at(&["docs", "a.txt"]), content, 2, &store)
        .unwrap()
        .root_dir;
    let root = root.mkdir(&at(&["docs", "old"]), 3, &store).unwrap().root_dir;
    assert_eq!(
        Rc::clone(&root)
            .read(&at(&["docs", "a.txt"]), &store)
            .unwrap()
            .result,
        content
    );
    let listed = Rc::clone(&root).ls(&at(&["docs"]), &store).unwrap().result;
    let names: Vec<&str> = listed.iter().map(|(name, _)| name.as_str()).collect();
    assert_eq!(names, vec!["a.txt", "old"]);
    let root = root
        .basic_mv(&at(&["docs", "a.txt"]), &at(&["docs", "old", "b.txt"]), 4, &store)
        .unwrap()
        .root_dir;
    let root = root.rm(&at(&["docs", "old"]), &store).unwrap().root_dir;
    assert_eq!(
        Rc::clone(&root).ls(&at(&["docs"]), &store).unwrap().result,
        Vec::new()
    );
    assert_eq!(
        Rc::clone(&root)
            .get_node(&at(&["docs", "a.txt"]), &store)
            .unwrap()
            .result,
        None
    );
    assert_eq!(root.get_history(5, &store), Ok(Vec::new()));

    // an entry that is held by its address alone needs its block
    let mut by_address = wnfs::public::node::PublicDirectory::new(1);
    by_address.userland.push((
        "far".to_string(),
        wnfs::public::node::PublicLink::from_cid(content),
    ));
    let by_address = Rc::new(by_address);
    assert_eq!(
        Rc::clone(&by_address)
            .get_node(&at(&["far"]), &store)
            .err(),
        Some(FsError::Store("offline".to_string()))
    );
    assert_eq!(
        Rc::clone(&by_address)
            .get_node(&at(&["near"]), &store)
            .unwrap()
            .result,
        None
    );
}

#[test]
fn a_child_that_the_forest_does_not_hold_is_looked_for_without_the_store() {
    let mut store = FailingStore;
    let mut rng = Entropy::from_rng(&mut TestRng::deterministic_rng(RngAlgorithm::ChaCha)).unwrap();
    let forest = Rc::new(PrivateForest::new());
    let root = Rc::new(wnfs::private::node::PrivateDirectory::new(
        Namefilter::new(),
        1,
        &mut rng,
    ));
    let at = |segments: &[&str]| -> Vec<String> {
        segments.iter().map(|s| s.to_string()).collect()
    };

    assert_eq!(
        Rc::clone(&root)
            .get_node(&at(&["a", "b"]), Rc::clone(&forest), &store)
            .err(),
        Some(FsError::NotFound)
    );
    assert_eq!(
        Rc::clone(&root)
            .get_node(&at(&["a"]), Rc::clone(&forest), &store)
            .unwrap()
            .result,
        None
    );
    assert_eq!(
        Rc::clone(&root)
            .read(&at(&["a"]), Rc::clone(&forest), &store)
            .err(),
        Some(FsError::NotFound)
    );
    assert_eq!(
        Rc::clone(&root)
            .ls(&[], Rc::clone(&forest), &store)
            .unwrap()
            .result,
        Vec::new()
    );
    assert_eq!(
        Rc::clone(&root)
            .rm(&at(&["a"]), Rc::clone(&forest), &mut store, &mut rng)
            .err(),
        Some(FsError::NotFound)
    );
    assert_eq!(
        Rc::clone(&root)
            .basic_mv(
                &at(&["a"]),
                &at(&["b"]),
                2,
                Rc::clone(&forest),
                &mut store,
                &mut rng
            )
            .err(),
        Some(FsError::NotFound)
    );
    let private_ref = root.header.get_private_ref().unwrap();
    assert_eq!(forest.get(&private_ref, &store), Ok(None));
}

#[test]
fn a_merge_with_nothing_to_compare_needs_no_store() {
    let mut store = FailingStore;
    let at = |segments: &[&str]| -> Vec<String> {
        segments.iter().map(|s| s.to_string()).collect()
    };
    let one = cid_of_block(CODEC_RAW, b"one");
    let two = cid_of_block(CODEC_RAW, b"two");

    // no name in common
    let left = Rc::new(wnfs::public::node::PublicDirectory::new(1))
        .write(&at(&["a"]), one, 2, &store)
        .unwrap()
        .root_dir;
    let right = Rc::new(wnfs::public::node::PublicDirectory::new(1))
        .write(&at(&["b"]), two, 2, &store)
        .unwrap()
        .root_dir;
    let merged = Rc::clone(&left)
        .basic_merge(Rc::clone(&right), &mut store)
        .unwrap();
    let names: Vec<&str> = merged.userland.iter().map(|(name, _)| name.as_str()).collect();
    assert_eq!(names, vec!["a", "b"]);

    // a name in common, held by one and the same address on both sides
    let mut far_left = wnfs::public::node::PublicDirectory::new(1);
    far_left
        .userland
        .push(("far".to_string(), wnfs::public::node::PublicLink::from_cid(one)));
    let mut far_right = wnfs::public::node::PublicDirectory::new(1);
    far_right
        .userland
        .push(("far".to_string(), wnfs::public::node::PublicLink::from_cid(one)));
    let merged = Rc::new(far_left)
        .basic_merge(Rc::new(far_right), &mut store)
        .unwrap();
    assert_eq!(merged.userland.len(), 1);
    assert_eq!(
        wnfs::public::node::PublicDirectory::basic_merge_links(
            wnfs::public::node::PublicLink::from_cid(one),
            wnfs::public::node::PublicLink::from_cid(one),
            &mut store,
            3
        ),
        Ok(wnfs::public::node::PublicLink::from_cid(one))
    );

    // a name in common with different content: the nodes are compared
    assert_eq!(
        left.basic_merge(
            Rc::new(wnfs::public::node::PublicDirectory::new(1))
                .write(&at(&["a"]), two, 2, &store)
                .unwrap()
                .root_dir,
            &mut store
        )
        .err(),
        Some(FsError::Store("offline".to_string()))
    );
}
