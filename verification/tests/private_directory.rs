use std::rc::Rc;

use proptest::test_runner::{RngAlgorithm, TestRng};
use wnfs::error::FsError;
use wnfs::metadata::UnixFsNodeKind;
use wnfs::private::directory::PrivateOpResult;
use wnfs::private::entropy::Entropy;
use wnfs::private::forest::PrivateForest;
use wnfs::private::movement::forget;
use wnfs::private::namefilter::Namefilter;
use wnfs::private::node::{PrivateDirectory, PrivateFile, PrivateNode, PrivateRef};
use wnfs::private::path::{PrivatePathNodes, PrivatePathNodesResult};
use wnfs::store::MemoryBlockStore;

fn path(segments: &[&str]) -> Vec<String> {
    segments.iter().map(|s| s.to_string()).collect()
}

fn rng() -> Entropy {
    Entropy::from_rng(&mut TestRng::deterministic_rng(RngAlgorithm::ChaCha)).unwrap()
}

struct Fixture {
    root: Rc<PrivateDirectory>,
    forest: Rc<PrivateForest>,
    store: MemoryBlockStore,
    rng: Entropy,
}

fn empty_tree() -> Fixture {
    let mut rng = rng();
    let root = Rc::new(PrivateDirectory::new(Namefilter::new(), 1000, &mut rng));
    Fixture {
        root,
        forest: Rc::new(PrivateForest::new()),
        store: MemoryBlockStore::new(),
        rng,
    }
}

fn write(f: &mut Fixture, at: &[&str], content: &[u8], time: i64) {
    let PrivateOpResult {
        root_dir, forest, ..
    } = Rc::clone(&f.root)
        .write(
            &path(at),
            time,
            content.to_vec(),
            Rc::clone(&f.forest),
            &mut f.store,
            &mut f.rng,
        )
        .unwrap();
    f.root = root_dir;
    f.forest = forest;
}

fn mkdir(f: &mut Fixture, at: &[&str], time: i64) {
    let PrivateOpResult {
        root_dir, forest, ..
    } = Rc::clone(&f.root)
        .mkdir(
            &path(at),
            time,
            Rc::clone(&f.forest),
            &mut f.store,
            &mut f.rng,
        )
        .unwrap();
    f.root = root_dir;
    f.forest = forest;
}

fn read(f: &Fixture, at: &[&str]) -> Result<Vec<u8>, FsError> {
    Rc::clone(&f.root)
        .read(&path(at), Rc::clone(&f.forest), &f.store)
        .map(|op| op.result)
}

fn node(f: &Fixture, at: &[&str]) -> Result<Option<PrivateNode>, FsError> {
    Rc::clone(&f.root)
        .get_node(&path(at), Rc::clone(&f.forest), &f.store)
        .map(|op| op.result)
}

fn private_ref(f: &Fixture, at: &[&str]) -> PrivateRef {
    node(f, at)
        .unwrap()
        .unwrap()
        .get_header()
        .get_private_ref()
        .unwrap()
}

#[test]
fn a_stored_directory_comes_back_from_the_forest() {
    let mut f = empty_tree();
    let private_ref = f.root.header.get_private_ref().unwrap();
    let node = PrivateNode::Dir(Rc::clone(&f.root));
    let forest = Rc::clone(&f.forest)
        .set(
            f.root.header.get_saturated_name(),
            &private_ref,
            &node,
            &mut f.store,
            &mut f.rng,
        )
        .unwrap();
    assert_eq!(forest.get(&private_ref, &f.store), Ok(Some(node)));
}

#[test]
fn a_written_file_can_be_read_and_listed() {
    let mut f = empty_tree();
    write(&mut f, &["docs", "a.txt"], b"hello", 2000);

    assert_eq!(read(&f, &["docs", "a.txt"]), Ok(b"hello".to_vec()));

    let listing = Rc::clone(&f.root)
        .ls(&path(&["docs"]), Rc::clone(&f.forest), &f.store)
        .unwrap()
        .result;
    assert_eq!(listing.len(), 1);
    assert_eq!(listing[0].0, "a.txt");
    assert_eq!(listing[0].1.unix_fs.kind, UnixFsNodeKind::File);
    assert_eq!(listing[0].1.unix_fs.created, 2000);
    assert_eq!(listing[0].1.unix_fs.mode, 644);

    let top = Rc::clone(&f.root)
        .ls(&path(&[]), Rc::clone(&f.forest), &f.store)
        .unwrap()
        .result;
    assert_eq!(top.len(), 1);
    assert_eq!(top[0].0, "docs");
    assert_eq!(top[0].1.unix_fs.kind, UnixFsNodeKind::Dir);
    assert_eq!(top[0].1.unix_fs.created, 2000);
    assert_eq!(top[0].1.unix_fs.modified, 2000);
    assert_eq!(f.root.metadata.unix_fs.created, 1000);
    assert_eq!(f.root.metadata.unix_fs.modified, 2000);
}

#[test]
fn the_latest_version_is_found_from_the_first_capability() {
    let mut f = empty_tree();
    write(&mut f, &["docs", "a.txt"], b"hello", 2000);
    let original_ref = private_ref(&f, &["docs", "a.txt"]);

    write(&mut f, &["docs", "a.txt"], b"hi2", 3000);
    write(&mut f, &["docs", "a.txt"], b"hi3", 4000);

    let first = f.forest.get(&original_ref, &f.store).unwrap().unwrap();
    assert_eq!(first.as_file().unwrap().content, b"hello".to_vec());

    let latest = first.search_latest(&f.forest, &f.store).unwrap();
    let latest = latest.as_file().unwrap();
    assert_eq!(latest.content, b"hi3".to_vec());
    assert_eq!(latest.metadata.unix_fs.created, 2000);
    assert_eq!(latest.metadata.unix_fs.modified, 4000);
    assert_eq!(latest.header.inumber, first.get_header().inumber);
    assert_eq!(read(&f, &["docs", "a.txt"]), Ok(b"hi3".to_vec()));
}

#[test]
fn search_latest_of_a_node_that_is_not_stored_gives_the_node() {
    let mut f = empty_tree();
    let file = PrivateNode::File(Rc::new(PrivateFile::new(
        Namefilter::new(),
        1,
        b"loose".to_vec(),
        &mut f.rng,
    )));
    assert_eq!(file.search_latest(&f.forest, &f.store), Ok(file));
}

#[test]
fn search_latest_finds_the_highest_of_many_versions() {
    let mut f = empty_tree();
    write(&mut f, &["a.txt"], b"v0", 1);
    let original_ref = private_ref(&f, &["a.txt"]);
    for version in 1..20u8 {
        write(&mut f, &["a.txt"], &[version], 1 + version as i64);
    }
    let first = f.forest.get(&original_ref, &f.store).unwrap().unwrap();
    let latest = first.search_latest(&f.forest, &f.store).unwrap();
    assert_eq!(latest.as_file().unwrap().content, vec![19u8]);
}

#[test]
fn a_moved_subtree_gets_new_capabilities() {
    let mut f = empty_tree();
    write(&mut f, &["a", "b", "c.txt"], b"x", 2000);
    mkdir(&mut f, &["a2"], 2500);
    let old_file_ref = private_ref(&f, &["a", "b", "c.txt"]);
    let old_dir_ref = private_ref(&f, &["a", "b"]);
    let old_inumber = node(&f, &["a", "b", "c.txt"])
        .unwrap()
        .unwrap()
        .get_header()
        .inumber;

    let PrivateOpResult {
        root_dir, forest, ..
    } = Rc::clone(&f.root)
        .basic_mv(
            &path(&["a", "b"]),
            &path(&["a2", "b"]),
            3000,
            Rc::clone(&f.forest),
            &mut f.store,
            &mut f.rng,
        )
        .unwrap();
    f.root = root_dir;
    f.forest = forest;

    assert_eq!(f.forest.get(&old_file_ref, &f.store), Ok(None));
    assert_eq!(f.forest.get(&old_dir_ref, &f.store), Ok(None));
    assert_eq!(read(&f, &["a2", "b", "c.txt"]), Ok(b"x".to_vec()));
    assert_eq!(node(&f, &["a", "b"]), Ok(None));
    assert_eq!(read(&f, &["a", "b", "c.txt"]), Err(FsError::NotFound));

    let new_file_ref = private_ref(&f, &["a2", "b", "c.txt"]);
    assert_ne!(new_file_ref, old_file_ref);
    assert_ne!(private_ref(&f, &["a2", "b"]), old_dir_ref);
    let moved = node(&f, &["a2", "b", "c.txt"]).unwrap().unwrap();
    assert_eq!(moved.get_header().inumber, old_inumber);
}

#[test]
fn a_child_carries_the_bare_name_of_its_parent_with_its_identity() {
    let mut f = empty_tree();
    write(&mut f, &["docs", "a.txt"], b"hello", 2000);
    mkdir(&mut f, &["docs", "deep", "deeper"], 2100);
    mkdir(&mut f, &["other"], 2200);
    Rc::clone(&f.root)
        .basic_mv(
            &path(&["docs", "deep"]),
            &path(&["other", "deep"]),
            2300,
            Rc::clone(&f.forest),
            &mut f.store,
            &mut f.rng,
        )
        .map(|op| {
            f.root = op.root_dir;
            f.forest = op.forest;
        })
        .unwrap();

    let checks: [(&[&str], &str); 5] = [
        (&[], "docs"),
        (&["docs"], "a.txt"),
        (&[], "other"),
        (&["other"], "deep"),
        (&["other", "deep"], "deeper"),
    ];
    for (parent_path, name) in checks {
        let parent = node(&f, parent_path).unwrap().unwrap();
        let parent = parent.as_dir().unwrap();
        let found = Rc::clone(&parent)
            .get_node(&path(&[name]), Rc::clone(&f.forest), &f.store)
            .unwrap()
            .result
            .unwrap();
        let mut expected = parent.header.bare_name;
        expected.add(&found.get_header().inumber);
        assert_eq!(found.get_header().bare_name, expected);
    }
}

#[test]
fn update_ancestry_keeps_contents_and_changes_capabilities() {
    let mut f = empty_tree();
    write(&mut f, &["a", "one.txt"], b"1", 2000);
    write(&mut f, &["a", "sub", "two.txt"], b"22", 2000);
    let mut subtree = node(&f, &["a"]).unwrap().unwrap();
    let old_ref = subtree.get_header().get_private_ref().unwrap();
    let old_one = private_ref(&f, &["a", "one.txt"]);
    let old_two = private_ref(&f, &["a", "sub", "two.txt"]);

    let mut new_parent = Namefilter::new();
    new_parent.add(b"somewhere else");
    let forest = subtree
        .update_ancestry(new_parent, Rc::clone(&f.forest), &mut f.store, &mut f.rng)
        .unwrap();

    let new_ref = subtree.get_header().get_private_ref().unwrap();
    assert_ne!(new_ref, old_ref);
    assert_eq!(forest.get(&new_ref, &f.store), Ok(Some(subtree.clone())));
    let mut expected = new_parent;
    expected.add(&subtree.get_header().inumber);
    assert_eq!(subtree.get_header().bare_name, expected);

    let dir = subtree.as_dir().unwrap();
    let one = Rc::clone(&dir)
        .read(&path(&["one.txt"]), Rc::clone(&forest), &f.store)
        .unwrap()
        .result;
    let two = Rc::clone(&dir)
        .read(&path(&["sub", "two.txt"]), Rc::clone(&forest), &f.store)
        .unwrap()
        .result;
    assert_eq!(one, b"1".to_vec());
    assert_eq!(two, b"22".to_vec());
    assert_ne!(dir.lookup("one.txt"), Some(old_one));
    let sub = Rc::clone(&dir)
        .get_node(&path(&["sub"]), Rc::clone(&forest), &f.store)
        .unwrap()
        .result
        .unwrap();
    assert_ne!(sub.as_dir().unwrap().lookup("two.txt"), Some(old_two));
    let mut below = dir.header.bare_name;
    below.add(&sub.get_header().inumber);
    assert_eq!(sub.get_header().bare_name, below);
}

#[test]
fn update_ancestry_of_a_directory_with_a_missing_child_is_not_found() {
    let mut f = empty_tree();
    write(&mut f, &["a", "one.txt"], b"1", 2000);
    let mut subtree = node(&f, &["a"]).unwrap().unwrap();
    let child = private_ref(&f, &["a", "one.txt"]);
    let (forest, _) = Rc::clone(&f.forest)
        .remove_encrypted(&child.saturated_name_hash, &mut f.store)
        .unwrap();
    let before = subtree.clone();
    assert_eq!(
        subtree.update_ancestry(Namefilter::new(), forest, &mut f.store, &mut f.rng),
        Err(FsError::NotFound)
    );
    assert_eq!(subtree, before);
    match (&subtree, &before) {
        (PrivateNode::Dir(now), PrivateNode::Dir(then)) => assert!(Rc::ptr_eq(now, then)),
        _ => panic!("the node is no directory"),
    }
}

#[test]
fn update_ancestry_without_fuel_stops() {
    let mut f = empty_tree();
    write(&mut f, &["a", "one.txt"], b"1", 2000);
    let mut subtree = node(&f, &["a"]).unwrap().unwrap();
    let mut entropy = Entropy::new([9u8; 32]);
    assert_eq!(
        subtree.update_ancestry_within(
            Namefilter::new(),
            Rc::clone(&f.forest),
            &mut f.store,
            &mut entropy,
            1
        ),
        Err(FsError::UnexpectedNodeType)
    );
    assert_eq!(
        forget(&subtree, Rc::clone(&f.forest), &mut f.store, 0),
        Err(FsError::UnexpectedNodeType)
    );
}

#[test]
fn removing_an_entry_leaves_the_node_in_the_forest() {
    let mut f = empty_tree();
    write(&mut f, &["docs", "a.txt"], b"hello", 2000);
    let file_ref = private_ref(&f, &["docs", "a.txt"]);

    let PrivateOpResult {
        root_dir,
        forest,
        result,
    } = Rc::clone(&f.root)
        .rm(
            &path(&["docs", "a.txt"]),
            Rc::clone(&f.forest),
            &mut f.store,
            &mut f.rng,
        )
        .unwrap();
    f.root = root_dir;
    f.forest = forest;

    assert_eq!(result.as_file().unwrap().content, b"hello".to_vec());
    assert_eq!(read(&f, &["docs", "a.txt"]), Err(FsError::NotFound));
    assert_eq!(node(&f, &["docs", "a.txt"]), Ok(None));
    assert_eq!(f.forest.get(&file_ref, &f.store), Ok(Some(result)));
    assert_eq!(f.root.metadata.unix_fs.modified, 2000);

    let (forest, _) = Rc::clone(&f.forest)
        .remove_encrypted(&file_ref.saturated_name_hash, &mut f.store)
        .unwrap();
    assert_eq!(forest.get(&file_ref, &f.store), Ok(None));
}

#[test]
fn walks_reject_files_on_the_way_and_missing_segments() {
    let mut f = empty_tree();
    write(&mut f, &["docs", "a.txt"], b"hello", 2000);

    assert_eq!(
        read(&f, &["docs", "a.txt", "deeper"]),
        Err(FsError::NotADirectory)
    );
    assert_eq!(
        node(&f, &["docs", "a.txt", "deeper"]),
        Err(FsError::NotADirectory)
    );
    assert_eq!(read(&f, &["nothing", "a.txt"]), Err(FsError::NotFound));
    assert_eq!(node(&f, &["nothing", "a.txt"]), Err(FsError::NotFound));
    assert_eq!(read(&f, &["docs"]), Err(FsError::NotAFile));
    assert_eq!(read(&f, &[]), Err(FsError::InvalidPath));
    assert_eq!(read(&f, &["docs", "b.txt"]), Err(FsError::NotFound));
    assert_eq!(
        node(&f, &[]).unwrap(),
        Some(PrivateNode::Dir(Rc::clone(&f.root)))
    );

    let ls = |at: &[&str]| {
        Rc::clone(&f.root)
            .ls(&path(at), Rc::clone(&f.forest), &f.store)
            .map(|op| op.result)
    };
    assert_eq!(ls(&["docs", "a.txt"]).err(), Some(FsError::NotADirectory));
    assert_eq!(ls(&["nothing"]).err(), Some(FsError::NotFound));
}

#[test]
fn writes_reject_what_is_in_their_way() {
    let mut f = empty_tree();
    write(&mut f, &["docs", "a.txt"], b"hello", 2000);
    let mut attempt = |at: &[&str]| {
        Rc::clone(&f.root)
            .write(
                &path(at),
                2100,
                b"again".to_vec(),
                Rc::clone(&f.forest),
                &mut f.store,
                &mut f.rng,
            )
            .err()
    };
    assert_eq!(attempt(&["docs"]), Some(FsError::DirectoryAlreadyExists));
    assert_eq!(attempt(&["docs", "a.txt", "b.txt"]), Some(FsError::NotADirectory));
    assert_eq!(attempt(&[]), Some(FsError::InvalidPath));

    let mkdir_through_a_file = Rc::clone(&f.root)
        .mkdir(
            &path(&["docs", "a.txt", "deeper"]),
            2100,
            Rc::clone(&f.forest),
            &mut f.store,
            &mut f.rng,
        )
        .err();
    assert_eq!(mkdir_through_a_file, Some(FsError::NotADirectory));

    let rm = |at: &[&str], f: &mut Fixture| {
        Rc::clone(&f.root)
            .rm(&path(at), Rc::clone(&f.forest), &mut f.store, &mut f.rng)
            .err()
    };
    assert_eq!(rm(&[], &mut f), Some(FsError::InvalidPath));
    assert_eq!(rm(&["docs", "b.txt"], &mut f), Some(FsError::NotFound));
    assert_eq!(rm(&["nothing", "b.txt"], &mut f), Some(FsError::NotFound));
    assert_eq!(
        rm(&["docs", "a.txt", "b.txt"], &mut f),
        Some(FsError::NotADirectory)
    );
}

#[test]
fn moves_reject_what_is_in_their_way() {
    let mut f = empty_tree();
    write(&mut f, &["docs", "a.txt"], b"hello", 2000);
    write(&mut f, &["docs", "b.txt"], b"there", 2000);
    let mv = |from: &[&str], to: &[&str], f: &mut Fixture| {
        Rc::clone(&f.root)
            .basic_mv(
                &path(from),
                &path(to),
                2100,
                Rc::clone(&f.forest),
                &mut f.store,
                &mut f.rng,
            )
            .err()
    };
    assert_eq!(
        mv(&["docs", "a.txt"], &["docs", "b.txt"], &mut f),
        Some(FsError::FileAlreadyExists)
    );
    assert_eq!(mv(&["docs", "a.txt"], &[], &mut f), Some(FsError::InvalidPath));
    assert_eq!(
        mv(&["docs", "missing"], &["docs", "c.txt"], &mut f),
        Some(FsError::NotFound)
    );
    assert_eq!(
        mv(&["docs", "a.txt"], &["nowhere", "c.txt"], &mut f),
        Some(FsError::NotFound)
    );
    assert_eq!(
        mv(&["docs", "a.txt"], &["docs", "b.txt", "c.txt"], &mut f),
        Some(FsError::NotADirectory)
    );
    assert_eq!(
        mv(&["docs"], &["docs", "inside"], &mut f),
        Some(FsError::NotFound)
    );
    assert_eq!(read(&f, &["docs", "a.txt"]), Ok(b"hello".to_vec()));
}

#[test]
fn a_file_can_be_renamed_in_its_directory() {
    let mut f = empty_tree();
    write(&mut f, &["docs", "a.txt"], b"hello", 2000);
    Rc::clone(&f.root)
        .basic_mv(
            &path(&["docs", "a.txt"]),
            &path(&["docs", "renamed.txt"]),
            2100,
            Rc::clone(&f.forest),
            &mut f.store,
            &mut f.rng,
        )
        .map(|op| {
            f.root = op.root_dir;
            f.forest = op.forest;
        })
        .unwrap();
    assert_eq!(read(&f, &["docs", "renamed.txt"]), Ok(b"hello".to_vec()));
    assert_eq!(read(&f, &["docs", "a.txt"]), Err(FsError::NotFound));
    let moved = node(&f, &["docs", "renamed.txt"]).unwrap().unwrap();
    assert_eq!(moved.as_file().unwrap().metadata.unix_fs.modified, 2100);
    assert_eq!(moved.as_file().unwrap().metadata.unix_fs.created, 2000);
}

#[test]
fn mkdir_of_an_existing_path_keeps_what_is_below() {
    let mut f = empty_tree();
    write(&mut f, &["docs", "a.txt"], b"hello", 2000);
    let before = private_ref(&f, &["docs"]);
    mkdir(&mut f, &["docs"], 2100);
    assert_eq!(read(&f, &["docs", "a.txt"]), Ok(b"hello".to_vec()));
    assert_ne!(private_ref(&f, &["docs"]), before);
    let docs = node(&f, &["docs"]).unwrap().unwrap();
    assert_eq!(docs.as_dir().unwrap().metadata.unix_fs.modified, 2100);
    assert_eq!(docs.as_dir().unwrap().metadata.unix_fs.created, 2000);
}

#[test]
fn path_nodes_of_a_walk_tell_how_far_it_came() {
    let mut f = empty_tree();
    write(&mut f, &["docs", "a.txt"], b"hello", 2000);
    let walk = |at: &[&str]| {
        Rc::clone(&f.root)
            .get_path_nodes(&path(at), &f.forest, &f.store)
            .unwrap()
    };
    match walk(&["docs"]) {
        PrivatePathNodesResult::Complete(PrivatePathNodes { path, tail }) => {
            assert_eq!(path.len(), 1);
            assert_eq!(path[0].1, "docs");
            assert_eq!(path[0].0, f.root);
            assert!(tail.lookup("a.txt").is_some());
        }
        other => panic!("the walk stopped: {other:?}"),
    }
    match walk(&["docs", "pictures", "cats"]) {
        PrivatePathNodesResult::MissingLink(nodes, segment) => {
            assert_eq!(nodes.path.len(), 1);
            assert_eq!(segment, "pictures");
        }
        other => panic!("the walk did not miss a link: {other:?}"),
    }
    match walk(&["docs", "a.txt", "cats"]) {
        PrivatePathNodesResult::NotADirectory(nodes, segment) => {
            assert_eq!(nodes.path.len(), 1);
            assert_eq!(segment, "a.txt");
        }
        other => panic!("the walk did not stop at the file: {other:?}"),
    }
}

#[test]
fn operations_with_one_source_of_entropy_give_one_tree() {
    let build = || {
        let mut entropy = Entropy::new([5u8; 32]);
        let mut store = MemoryBlockStore::new();
        let root = Rc::new(PrivateDirectory::new(
            Namefilter::new(),
            1,
            &mut entropy,
        ));
        let op = root
            .write(
                &path(&["docs", "a.txt"]),
                2,
                b"hello".to_vec(),
                Rc::new(PrivateForest::new()),
                &mut store,
                &mut entropy,
            )
            .unwrap();
        (op.root_dir, op.forest, store.len(), entropy)
    };
    let (root_a, forest_a, blocks_a, entropy_a) = build();
    let (root_b, forest_b, blocks_b, entropy_b) = build();
    assert_eq!(root_a, root_b);
    assert_eq!(forest_a, forest_b);
    assert_eq!(blocks_a, 3);
    assert_eq!(blocks_b, 3);
    assert_eq!(entropy_a, entropy_b);
    // Two values for each of the root, `docs` and the file, and two nonces
    // for each of the three blocks.
    assert_eq!(entropy_a.counter, 12);
}

#[test]
fn a_private_directory_with_names_out_of_order_is_not_read() {
    let mut f = empty_tree();
    write(&mut f, &["a"], b"first", 2000);
    write(&mut f, &["b"], b"second", 2000);
    let key = f.root.header.get_private_ref().unwrap().ratchet_key;
    let nonce = [3u8; 12];

    let kept = PrivateNode::Dir(Rc::clone(&f.root))
        .serialize_with_nonce(&nonce)
        .unwrap();
    let back = PrivateNode::deserialize_from_cbor(&kept, &key).unwrap();
    assert_eq!(back, PrivateNode::Dir(Rc::clone(&f.root)));

    let mut turned = f.root.copy();
    turned.entries.reverse();
    assert_eq!(turned.entries[0].0, "b");
    let header = wnfs::private::codec::seal_header(&turned.header, &nonce).unwrap();
    let value = PrivateNode::Dir(Rc::new(turned)).to_value(header);
    assert_eq!(
        PrivateNode::try_from_value(&value, &key),
        Err(FsError::UnexpectedNodeType)
    );
}

#[test]
fn a_private_listing_is_in_ascending_order_of_names() {
    let mut f = empty_tree();
    for name in ["pear", "apple", "zebra", "Mango", "fig"] {
        write(&mut f, &["box", name], name.as_bytes(), 2000);
    }
    let listed = Rc::clone(&f.root)
        .ls(&path(&["box"]), Rc::clone(&f.forest), &f.store)
        .unwrap()
        .result;
    let names: Vec<&str> = listed.iter().map(|(name, _)| name.as_str()).collect();
    assert_eq!(names, vec!["Mango", "apple", "fig", "pear", "zebra"]);
}
