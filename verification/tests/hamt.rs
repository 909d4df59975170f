use wnfs::cid::{Cid, HashOutput, CODEC_DAG_CBOR, CODEC_RAW};
use wnfs::ipld::{decode, map_get, Value};
use wnfs::private::forest::PrivateForest;
use wnfs::private::hamt::{Node, Pair, Slot};
use wnfs::private::hamt_remove::Hamt;
use wnfs::private::namefilter::Namefilter;
use wnfs::store::{cid_of_block, BlockStore, MemoryBlockStore};
use std::rc::Rc;

fn key(first: u8, last: u8) -> HashOutput {
    let mut k = [0u8; 32];
    k[0] = first;
    k[31] = last;
    k
}

fn value(n: u8) -> Cid {
    cid_of_block(CODEC_RAW, &[n])
}

fn root_cid(hamt: &Hamt) -> Cid {
    hamt.store(&mut MemoryBlockStore::new()).unwrap()
}

#[test]
fn an_empty_trie_finds_nothing() {
    let hamt = Hamt::new();
    assert_eq!(hamt.get_by_hash(&key(1, 1)), None);
    let (same, removed) = hamt.remove_by_hash(&key(1, 1));
    assert_eq!(removed, None);
    assert_eq!(same, hamt);
}

#[test]
fn set_binds_and_overwrites() {
    let hamt = Hamt::new().set(key(1, 1), value(1));
    assert_eq!(hamt.get_by_hash(&key(1, 1)), Some(value(1)));
    assert_eq!(hamt.get_by_hash(&key(1, 2)), None);

    let again = hamt.set(key(1, 1), value(2));
    assert_eq!(again.get_by_hash(&key(1, 1)), Some(value(2)));
    // the trie that was changed stays as it was
    assert_eq!(hamt.get_by_hash(&key(1, 1)), Some(value(1)));
    assert_ne!(root_cid(&hamt), root_cid(&again));
}

#[test]
fn remove_gives_the_entry_that_was_there() {
    let hamt = Hamt::new()
        .set(key(1, 1), value(1))
        .set(key(2, 1), value(2));
    let (without, removed) = hamt.remove_by_hash(&key(1, 1));
    assert_eq!(
        removed,
        Some(Pair {
            key: key(1, 1),
            value: value(1)
        })
    );
    assert_eq!(without.get_by_hash(&key(1, 1)), None);
    assert_eq!(without.get_by_hash(&key(2, 1)), Some(value(2)));
    assert_eq!(hamt.get_by_hash(&key(1, 1)), Some(value(1)));
}

#[test]
fn a_fourth_entry_in_one_place_makes_a_subtree() {
    // all four keys have the first nibble 1
    let three = Hamt::new()
        .set(key(0x10, 3), value(3))
        .set(key(0x10, 1), value(1))
        .set(key(0x10, 2), value(2));
    match &three.root.slots[1] {
        Slot::Bucket(pairs) => {
            let keys: Vec<HashOutput> = pairs.iter().map(|p| p.key).collect();
            assert_eq!(keys, vec![key(0x10, 1), key(0x10, 2), key(0x10, 3)]);
        }
        other => panic!("three entries are no bucket: {other:?}"),
    }

    let four = three.set(key(0x10, 4), value(4));
    assert!(matches!(four.root.slots[1], Slot::Link(_)));
    for last in 1..=4 {
        assert_eq!(four.get_by_hash(&key(0x10, last)), Some(value(last)));
    }

    // with one entry gone the subtree is a bucket again
    let (back, _) = four.remove_by_hash(&key(0x10, 4));
    assert_eq!(back, three);
    assert_eq!(root_cid(&back), root_cid(&three));
}

#[test]
fn keys_that_differ_in_the_last_nibble_only_are_kept_apart() {
    let mut hamt = Hamt::new();
    for last in 0..16u8 {
        hamt = hamt.set(key(0, last), value(last));
    }
    for last in 0..16u8 {
        assert_eq!(hamt.get_by_hash(&key(0, last)), Some(value(last)));
    }
    assert_eq!(hamt.get_by_hash(&key(0, 16)), None);
    for last in 0..16u8 {
        let (next, removed) = hamt.remove_by_hash(&key(0, last));
        assert_eq!(removed.map(|p| p.value), Some(value(last)));
        hamt = next;
    }
    assert_eq!(hamt, Hamt::new());
}

#[test]
fn the_order_of_changes_does_not_show_in_the_root() {
    let (a, b, c, d) = (key(0x11, 1), key(0x12, 2), key(0x13, 3), key(0x14, 4));

    let first = Hamt::new()
        .set(a, value(1))
        .set(b, value(2))
        .set(c, value(3))
        .set(d, value(4));
    let (first, _) = first.remove_by_hash(&c);

    let second = Hamt::new()
        .set(d, value(4))
        .set(b, value(2))
        .set(a, value(1))
        .set(c, value(3));
    let (second, _) = second.remove_by_hash(&c);

    assert_eq!(first, second);
    assert_eq!(root_cid(&first), root_cid(&second));
}

#[test]
fn many_entries_in_any_order_give_one_root() {
    let keys: Vec<HashOutput> = (0..200u32)
        .map(|i| wnfs::hash::hash(&i.to_le_bytes()))
        .collect();
    let mut forward = Hamt::new();
    for (i, k) in keys.iter().enumerate() {
        forward = forward.set(*k, value(i as u8));
    }
    let mut backward = Hamt::new();
    for (i, k) in keys.iter().enumerate().rev() {
        backward = backward.set(*k, value(i as u8));
    }
    // some more entries that come and go
    for i in 200..260u32 {
        backward = backward.set(wnfs::hash::hash(&i.to_le_bytes()), value(0));
    }
    for i in 200..260u32 {
        backward = backward.remove_by_hash(&wnfs::hash::hash(&i.to_le_bytes())).0;
    }
    assert_eq!(forward, backward);
    assert_eq!(root_cid(&forward), root_cid(&backward));
    for (i, k) in keys.iter().enumerate() {
        assert_eq!(forward.get_by_hash(k), Some(value(i as u8)));
    }
}

#[test]
fn remove_then_set_gives_the_root_back() {
    let mut hamt = Hamt::new();
    for i in 0..40u32 {
        hamt = hamt.set(wnfs::hash::hash(&i.to_le_bytes()), value(i as u8));
    }
    let whole = root_cid(&hamt);
    let k = wnfs::hash::hash(&7u32.to_le_bytes());
    let (without, removed) = hamt.remove_by_hash(&k);
    let removed = removed.unwrap();
    assert_ne!(root_cid(&without), whole);
    let restored = without.set(removed.key, removed.value);
    assert_eq!(root_cid(&restored), whole);
}

#[test]
fn a_stored_node_holds_a_bitmap_and_its_places_in_turn() {
    let hamt = Hamt::new()
        .set(key(0x00, 1), value(1))
        .set(key(0x30, 2), value(2))
        .set(key(0x30, 1), value(3));
    let mut store = MemoryBlockStore::new();
    let cid = hamt.store(&mut store).unwrap();
    assert_eq!(cid.codec, CODEC_DAG_CBOR);
    assert_eq!(store.len(), 1);

    let block = store.get_block(&cid).unwrap();
    let entries = match decode(&block).unwrap() {
        Value::StringMap(entries) => entries,
        other => panic!("the block is no map: {other:?}"),
    };
    // the places 0 and 3 are in use
    assert_eq!(map_get(&entries, "bitmap"), Some(&Value::Integer(0b1001)));
    let pair = |k: HashOutput, v: Cid| {
        Value::StringMap(vec![
            ("key".to_string(), Value::Bytes(k.to_vec())),
            ("value".to_string(), Value::Link(v)),
        ])
    };
    assert_eq!(
        map_get(&entries, "slots"),
        Some(&Value::List(vec![
            Value::List(vec![pair(key(0x00, 1), value(1))]),
            Value::List(vec![
                pair(key(0x30, 1), value(3)),
                pair(key(0x30, 2), value(2))
            ]),
        ]))
    );
}

#[test]
fn a_subtree_is_stored_before_the_node_that_points_to_it() {
    let hamt = Hamt::new()
        .set(key(0x10, 1), value(1))
        .set(key(0x10, 2), value(2))
        .set(key(0x10, 3), value(3))
        .set(key(0x10, 4), value(4));
    let mut store = MemoryBlockStore::new();
    let cid = hamt.store(&mut store).unwrap();
    // the keys differ in their last nibble only: one node for each depth
    assert_eq!(store.len(), 64);
    let block = store.get_block(&cid).unwrap();
    let entries = match decode(&block).unwrap() {
        Value::StringMap(entries) => entries,
        other => panic!("the block is no map: {other:?}"),
    };
    assert_eq!(map_get(&entries, "bitmap"), Some(&Value::Integer(0b10)));
    match map_get(&entries, "slots") {
        Some(Value::List(items)) => {
            assert_eq!(items.len(), 1);
            match &items[0] {
                Value::Link(child) => assert!(store.get_block(child).is_ok()),
                other => panic!("the place holds no address: {other:?}"),
            }
        }
        other => panic!("no places: {other:?}"),
    }
}

#[test]
fn a_stored_trie_is_read_back() {
    let mut hamt = Hamt::new();
    for i in 0..300u32 {
        hamt = hamt.set(wnfs::hash::hash(&i.to_le_bytes()), value(i as u8));
    }
    for last in 0..9u8 {
        hamt = hamt.set(key(0x77, last), value(last));
    }
    let mut store = MemoryBlockStore::new();
    let cid = hamt.store(&mut store).unwrap();
    let read = Hamt::load(&cid, &store).unwrap();
    assert_eq!(read, hamt);
    assert_eq!(read.get_by_hash(&key(0x77, 8)), Some(value(8)));
    assert_eq!(read.store(&mut store), Ok(cid));

    let empty = Hamt::new().store(&mut store).unwrap();
    assert_eq!(Hamt::load(&empty, &store), Ok(Hamt::new()));

    let forest = PrivateForest { root: hamt };
    let root = forest.store(&mut store).unwrap();
    assert_eq!(root, cid);
    assert_eq!(PrivateForest::load(&root, &store), Ok(forest));
}

fn pair_value(k: HashOutput, v: Cid) -> Value {
    Value::StringMap(vec![
        ("key".to_string(), Value::Bytes(k.to_vec())),
        ("value".to_string(), Value::Link(v)),
    ])
}

fn node_block(store: &mut MemoryBlockStore, bitmap: i128, slots: Vec<Value>) -> Cid {
    let node = Value::StringMap(vec![
        ("bitmap".to_string(), Value::Integer(bitmap)),
        ("slots".to_string(), Value::List(slots)),
    ]);
    store
        .put_block(wnfs::ipld::encode(&node).unwrap(), CODEC_DAG_CBOR)
        .unwrap()
}

#[test]
fn a_block_that_holds_no_well_formed_node_is_refused() {
    let refused = Err(wnfs::error::FsError::UnexpectedNodeType);
    let mut store = MemoryBlockStore::new();

    // nothing at the address
    assert_eq!(
        Hamt::load(&value(1), &store),
        Err(wnfs::error::FsError::NotFound)
    );

    // no DAG-CBOR at all, and a value that is no map
    let raw = store.put_block(vec![0xff], CODEC_RAW).unwrap();
    assert_eq!(Hamt::load(&raw, &store), refused);
    let list = store.put_block(vec![0x80], CODEC_DAG_CBOR).unwrap();
    assert_eq!(Hamt::load(&list, &store), refused);

    // a well-formed node, for comparison
    let bucket = |pairs: Vec<Value>| Value::List(pairs);
    let good = node_block(
        &mut store,
        0b10,
        vec![bucket(vec![pair_value(key(0x10, 1), value(1))])],
    );
    assert_eq!(
        Hamt::load(&good, &store),
        Ok(Hamt::new().set(key(0x10, 1), value(1)))
    );

    // the bitmap marks a place for which there is no item, or fewer
    // places than there are items
    let missing = node_block(&mut store, 0b11, vec![bucket(vec![pair_value(key(0x00, 1), value(1))])]);
    assert_eq!(Hamt::load(&missing, &store), refused);
    let spare = node_block(&mut store, 0, vec![bucket(vec![pair_value(key(0x00, 1), value(1))])]);
    assert_eq!(Hamt::load(&spare, &store), refused);
    let wide = node_block(&mut store, 65536, vec![]);
    assert_eq!(Hamt::load(&wide, &store), refused);

    // a bucket whose key belongs to another place
    let astray = node_block(
        &mut store,
        0b10,
        vec![bucket(vec![pair_value(key(0x20, 1), value(1))])],
    );
    assert_eq!(Hamt::load(&astray, &store), refused);

    // a bucket that is empty, out of order, or too large
    let hollow = node_block(&mut store, 0b10, vec![bucket(vec![])]);
    assert_eq!(Hamt::load(&hollow, &store), refused);
    let unordered = node_block(
        &mut store,
        0b10,
        vec![bucket(vec![
            pair_value(key(0x10, 2), value(2)),
            pair_value(key(0x10, 1), value(1)),
        ])],
    );
    assert_eq!(Hamt::load(&unordered, &store), refused);
    let twice = node_block(
        &mut store,
        0b10,
        vec![bucket(vec![
            pair_value(key(0x10, 1), value(1)),
            pair_value(key(0x10, 1), value(2)),
        ])],
    );
    assert_eq!(Hamt::load(&twice, &store), refused);
    let crowded = node_block(
        &mut store,
        0b10,
        vec![bucket(
            (1..=4).map(|i| pair_value(key(0x10, i), value(i))).collect(),
        )],
    );
    assert_eq!(Hamt::load(&crowded, &store), refused);

    // a subtree that holds too little to be a subtree
    let small = node_block(
        &mut store,
        0b1,
        vec![bucket(vec![pair_value(key(0x10, 1), value(1))])],
    );
    let lonely = node_block(&mut store, 0b10, vec![Value::Link(small)]);
    assert_eq!(Hamt::load(&lonely, &store), refused);

    // an entry that is no entry
    let odd = node_block(&mut store, 0b10, vec![bucket(vec![Value::Null])]);
    assert_eq!(Hamt::load(&odd, &store), refused);
    let short = node_block(
        &mut store,
        0b10,
        vec![bucket(vec![Value::StringMap(vec![
            ("key".to_string(), Value::Bytes(vec![0x10; 31])),
            ("value".to_string(), Value::Link(value(1))),
        ])])],
    );
    assert_eq!(Hamt::load(&short, &store), refused);
    let text = node_block(&mut store, 0b10, vec![Value::Text("x".to_string())]);
    assert_eq!(Hamt::load(&text, &store), refused);
}

#[test]
fn a_node_without_sixteen_places_is_not_stored() {
    let node = Node { slots: Vec::new() };
    let mut store = MemoryBlockStore::new();
    assert_eq!(
        node.store(&mut store),
        Err(wnfs::error::FsError::UnexpectedNodeType)
    );
    assert_eq!(store.len(), 0);
}

#[test]
fn forests_with_the_same_entries_have_the_same_root() {
    let mut store = MemoryBlockStore::new();
    let mut one = Namefilter::new();
    one.add(b"one");
    let mut two = Namefilter::new();
    two.add(b"two");

    let a = Rc::new(PrivateForest::new())
        .set_encrypted(one, value(1), &mut store)
        .unwrap()
        .set_encrypted(two, value(2), &mut store)
        .unwrap();
    let b = Rc::new(PrivateForest::new())
        .set_encrypted(two, value(2), &mut store)
        .unwrap()
        .set_encrypted(one, value(9), &mut store)
        .unwrap()
        .set_encrypted(one, value(1), &mut store)
        .unwrap();

    assert_eq!(a.store(&mut store), b.store(&mut store));
    assert_eq!(
        a.get_encrypted(&wnfs::hash::hash(&one.to_bytes()), &store),
        Ok(Some(value(1)))
    );
    let empty = PrivateForest::new().store(&mut store).unwrap();
    assert_ne!(a.store(&mut store).unwrap(), empty);
}
