use std::rc::Rc;

use chrono::Utc;
use wnfs::cid::Cid;
use wnfs::error::FsError;
use wnfs::metadata::{Metadata, UnixFsNodeKind};
use wnfs::public::codec::{decode_node, dir_to_value, node_from_value};
use wnfs::public::node::{PublicDirectory, PublicFile, PublicNode, PublicOpResult};
use wnfs::public::path::PathNodesResult;
use wnfs::store::{BlockStore, MemoryBlockStore};

fn path(segments: &[&str]) -> Vec<String> {
    segments.iter().map(|s| s.to_string()).collect()
}

fn now() -> i64 {
    Utc::now().timestamp()
}

#[test]
fn look_up_can_fetch_file_added_to_directory() {
    let root_dir = Rc::new(PublicDirectory::new(now()));
    let store = MemoryBlockStore::default();
    let content_cid = Cid::default();
    let time = now();

    let PublicOpResult { root_dir, .. } = root_dir
        .write(&path(&["text.txt"]), content_cid, time, &store)
        .unwrap();

    let node = root_dir.lookup_node("text.txt", &store).unwrap();

    assert!(node.is_some());

    assert_eq!(
        node,
        Some(PublicNode::File(Rc::new(PublicFile::new(
            time,
            content_cid
        ))))
    );
}

#[test]
fn look_up_cannot_fetch_file_not_added_to_directory() {
    let root = PublicDirectory::new(now());
    let store = MemoryBlockStore::default();

    let node = root.lookup_node("Unknown", &store);

    assert!(node.is_ok());

    assert_eq!(node.unwrap(), None);
}

#[test]
fn directory_added_to_store_can_be_retrieved() {
    let root = PublicDirectory::new(now());
    let mut store = MemoryBlockStore::default();

    let cid = root.store(&mut store).unwrap();

    let encoded_dir = store.get_block(&cid).unwrap();
    let deserialized_dir = match decode_node(encoded_dir.as_ref()).unwrap() {
        PublicNode::Dir(dir) => dir,
        PublicNode::File(_) => panic!("a file came back"),
    };

    assert_eq!(root, *deserialized_dir);
}

#[test]
fn directory_can_encode_decode_as_cbor() {
    let root = PublicDirectory::new(now());
    let store = &mut MemoryBlockStore::default();

    let cid = root.store(store).unwrap();
    let encoded_dir = store.get_block(&cid).unwrap();
    let decoded_dir = decode_node(encoded_dir.as_ref()).unwrap();

    assert_eq!(PublicNode::Dir(Rc::new(root)), decoded_dir);
}

#[test]
fn mkdir_can_create_new_directory() {
    let time = now();
    let store = MemoryBlockStore::default();

    let PublicOpResult { root_dir, .. } = Rc::new(PublicDirectory::new(time))
        .mkdir(&path(&["tamedun", "pictures"]), time, &store)
        .unwrap();

    let PublicOpResult { result, .. } = root_dir
        .get_node(&path(&["tamedun", "pictures"]), &store)
        .unwrap();

    assert!(result.is_some());
}

#[test]
fn ls_can_list_children_under_directory() {
    let time = now();
    let store = MemoryBlockStore::default();
    let root_dir = Rc::new(PublicDirectory::new(time));

    let PublicOpResult { root_dir, .. } = root_dir
        .mkdir(&path(&["tamedun", "pictures"]), time, &store)
        .unwrap();

    let PublicOpResult { root_dir, .. } = root_dir
        .write(
            &path(&["tamedun", "pictures", "puppy.jpg"]),
            Cid::default(),
            time,
            &store,
        )
        .unwrap();

    let PublicOpResult { root_dir, .. } = root_dir
        .mkdir(&path(&["tamedun", "pictures", "cats"]), time, &store)
        .unwrap();

    let PublicOpResult { result, .. } = root_dir
        .ls(&path(&["tamedun", "pictures"]), &store)
        .unwrap();

    assert_eq!(result.len(), 2);

    assert_eq!(result[0].0, String::from("cats"));

    assert_eq!(result[1].0, String::from("puppy.jpg"));

    assert_eq!(result[0].1.unix_fs.kind, UnixFsNodeKind::Dir);

    assert_eq!(result[1].1.unix_fs.kind, UnixFsNodeKind::File);
}

#[test]
fn rm_can_remove_children_from_directory() {
    let time = now();
    let store = MemoryBlockStore::default();
    let root_dir = Rc::new(PublicDirectory::new(time));

    let PublicOpResult { root_dir, .. } = root_dir
        .mkdir(&path(&["tamedun", "pictures"]), time, &store)
        .unwrap();

    let PublicOpResult { root_dir, .. } = root_dir
        .write(
            &path(&["tamedun", "pictures", "puppy.jpg"]),
            Cid::default(),
            time,
            &store,
        )
        .unwrap();

    let PublicOpResult { root_dir, .. } = root_dir
        .mkdir(&path(&["tamedun", "pictures", "cats"]), time, &store)
        .unwrap();

    let result = root_dir.rm(&path(&["tamedun", "pictures"]), &store);

    assert!(result.is_ok());

    let result = result
        .unwrap()
        .root_dir
        .rm(&path(&["tamedun", "pictures"]), &store);

    assert!(result.is_err());
}

#[test]
fn read_can_fetch_userland_of_file_added_to_directory() {
    let store = MemoryBlockStore::default();
    let content_cid = Cid::default();
    let time = now();

    let PublicOpResult { root_dir, .. } = Rc::new(PublicDirectory::new(time))
        .write(&path(&["text.txt"]), content_cid, time, &store)
        .unwrap();

    let PublicOpResult { result, .. } = root_dir.read(&path(&["text.txt"]), &store).unwrap();

    assert_eq!(result, content_cid);
}

#[test]
fn path_nodes_can_generates_new_path_nodes() {
    let store = MemoryBlockStore::default();
    let time = now();

    let path_nodes = PublicDirectory::create_path_nodes(&path(&["Documents", "Apps"]), time);
    let again = PublicDirectory::create_path_nodes(&path(&["Documents", "Apps"]), time);

    let fixed = PublicDirectory::fix_up_path_nodes(again);
    let result = fixed
        .get_path_nodes(&path(&["Documents", "Apps"]), &store)
        .unwrap();

    match result {
        PathNodesResult::MissingLink(_, segment) => panic!("MissingLink {segment}"),
        PathNodesResult::NotADirectory(_, segment) => panic!("NotADirectory {segment}"),
        PathNodesResult::Complete(path_nodes_2) => {
            assert_eq!(path_nodes.path.len(), path_nodes_2.path.len());
            assert_eq!(path_nodes.path[0].1, path_nodes_2.path[0].1);
            assert_eq!(path_nodes.path[1].1, path_nodes_2.path[1].1);
        }
    }
}

#[test]
fn base_history_on_can_create_a_new_derived_tree_pointing_to_base() {
    let time = now();
    let mut store = MemoryBlockStore::default();
    let root_dir = Rc::new(PublicDirectory::new(time));

    let PublicOpResult {
        root_dir: base_root,
        ..
    } = root_dir
        .write(
            &path(&["pictures", "cats", "tabby.jpg"]),
            Cid::default(),
            time,
            &store,
        )
        .unwrap();

    let PublicOpResult {
        root_dir: updated_root,
        ..
    } = Rc::clone(&base_root)
        .write(
            &path(&["pictures", "cats", "luna.png"]),
            Cid::default(),
            time,
            &store,
        )
        .unwrap();

    let PublicOpResult {
        root_dir: derived_root,
        ..
    } = updated_root
        .base_history_on(Rc::clone(&base_root), &mut store)
        .unwrap();

    // The root points to its old version.
    let derived_previous_cid = derived_root.get_previous();
    let base_cid = base_root.store(&mut store).unwrap();

    assert!(derived_previous_cid.is_some());
    assert_eq!(derived_previous_cid.unwrap(), base_cid);

    // A node that exists in both versions points to its old version.
    let PublicOpResult {
        result: derived_node,
        ..
    } = Rc::clone(&derived_root)
        .get_node(&path(&["pictures", "cats"]), &store)
        .unwrap();

    let PublicOpResult {
        result: base_node, ..
    } = base_root
        .get_node(&path(&["pictures", "cats"]), &store)
        .unwrap();

    assert!(derived_node.is_some());
    assert!(base_node.is_some());

    let derived_previous_cid = derived_node.unwrap().get_previous();
    let base_cid = base_node.unwrap().store(&mut store).unwrap();

    assert!(derived_previous_cid.is_some());
    assert_eq!(derived_previous_cid.unwrap(), base_cid);

    // A node that exists in the later version only points to nothing.
    let PublicOpResult {
        result: derived_node,
        ..
    } = Rc::clone(&derived_root)
        .get_node(&path(&["pictures", "cats", "luna.png"]), &store)
        .unwrap();

    assert!(derived_node.is_some());
    assert!(matches!(derived_node.unwrap().get_previous(), None));
}

#[test]
fn base_history_on_the_same_handle_gives_it_back_and_stores_nothing() {
    let mut store = MemoryBlockStore::default();
    let root_dir = Rc::new(PublicDirectory::new(7));
    let PublicOpResult { root_dir, .. } = root_dir
        .write(&path(&["a.txt"]), Cid::default(), 8, &store)
        .unwrap();

    let PublicOpResult { root_dir: same, .. } = Rc::clone(&root_dir)
        .base_history_on(Rc::clone(&root_dir), &mut store)
        .unwrap();

    assert!(Rc::ptr_eq(&same, &root_dir));
    assert_eq!(same.get_previous(), None);
    assert_eq!(store.len(), 0);

    // another handle to an equal tree is a base like any other
    let twin = Rc::new((*root_dir).clone());
    let PublicOpResult { root_dir: based, .. } = Rc::clone(&root_dir)
        .base_history_on(Rc::clone(&twin), &mut store)
        .unwrap();
    assert_eq!(based.get_previous(), Some(twin.store(&mut store).unwrap()));
}

#[test]
fn mv_can_move_sub_directory_to_another_valid_location() {
    let time = now();
    let store = MemoryBlockStore::default();
    let root_dir = Rc::new(PublicDirectory::new(time));

    let PublicOpResult { root_dir, .. } = root_dir
        .write(
            &path(&["pictures", "cats", "tabby.jpg"]),
            Cid::default(),
            time,
            &store,
        )
        .unwrap();

    let PublicOpResult { root_dir, .. } = root_dir
        .write(
            &path(&["pictures", "cats", "luna.png"]),
            Cid::default(),
            time,
            &store,
        )
        .unwrap();

    let PublicOpResult { root_dir, .. } = root_dir.mkdir(&path(&["images"]), time, &store).unwrap();

    let PublicOpResult { root_dir, .. } = root_dir
        .basic_mv(
            &path(&["pictures", "cats"]),
            &path(&["images", "cats"]),
            now(),
            &store,
        )
        .unwrap();

    let PublicOpResult { root_dir, result } = root_dir.ls(&path(&["images"]), &store).unwrap();

    assert_eq!(result.len(), 1);
    assert_eq!(result[0].0, String::from("cats"));

    let PublicOpResult { result, .. } = root_dir.ls(&path(&["pictures"]), &store).unwrap();

    assert_eq!(result.len(), 0);
}

#[test]
fn mv_cannot_move_sub_directory_to_invalid_location() {
    let time = now();
    let store = MemoryBlockStore::default();
    let root_dir = Rc::new(PublicDirectory::new(time));

    let PublicOpResult { root_dir, .. } = root_dir
        .mkdir(&path(&["videos", "movies", "anime", "ghibli"]), time, &store)
        .unwrap();

    let result = root_dir.basic_mv(
        &path(&["videos", "movies"]),
        &path(&["videos", "movies", "anime"]),
        now(),
        &store,
    );

    assert!(result.is_err());
}

#[test]
fn mv_can_rename_directories() {
    let time = now();
    let store = MemoryBlockStore::default();
    let root_dir = Rc::new(PublicDirectory::new(time));

    let PublicOpResult { root_dir, .. } = root_dir
        .write(&path(&["file.txt"]), Cid::default(), time, &store)
        .unwrap();

    let PublicOpResult { root_dir, .. } = root_dir
        .basic_mv(&path(&["file.txt"]), &path(&["renamed.txt"]), now(), &store)
        .unwrap();

    let PublicOpResult { result, .. } = root_dir.read(&path(&["renamed.txt"]), &store).unwrap();

    assert!(result == Cid::default());
}

#[test]
fn mv_fails_moving_directories_to_files() {
    let time = now();
    let store = MemoryBlockStore::default();
    let root_dir = Rc::new(PublicDirectory::new(time));

    let PublicOpResult { root_dir, .. } = root_dir
        .mkdir(&path(&["movies", "ghibli"]), time, &store)
        .unwrap();

    let PublicOpResult { root_dir, .. } = root_dir
        .write(&path(&["file.txt"]), Cid::default(), time, &store)
        .unwrap();

    let result = root_dir.basic_mv(
        &path(&["movies", "ghibli"]),
        &path(&["file.txt"]),
        now(),
        &store,
    );

    assert!(result.is_err());
}

#[test]
fn basic_merge_example() {
    let time = now();
    let store = &mut MemoryBlockStore::default();
    let root_dir = Rc::new(PublicDirectory::new(time));

    let PublicOpResult { root_dir, .. } = root_dir
        .mkdir(&path(&["movies", "ghibli"]), time, store)
        .unwrap();

    let PublicOpResult { root_dir, .. } = root_dir
        .write(&path(&["file.txt"]), Cid::default(), time, store)
        .unwrap();

    let PublicOpResult {
        root_dir: root_left,
        ..
    } = Rc::clone(&root_dir)
        .write(&path(&["file2.txt"]), Cid::default(), time, store)
        .unwrap();

    let PublicOpResult {
        root_dir: root_right,
        ..
    } = root_dir
        .write(&path(&["movies", "action.txt"]), Cid::default(), time, store)
        .unwrap();

    let merged = root_left.basic_merge(root_right, store).unwrap();

    let PublicOpResult {
        result: read_action,
        ..
    } = Rc::clone(&merged)
        .read(&path(&["movies", "action.txt"]), store)
        .unwrap();

    let PublicOpResult {
        result: read_file, ..
    } = Rc::clone(&merged).read(&path(&["file.txt"]), store).unwrap();

    let PublicOpResult {
        result: read_file2, ..
    } = merged.read(&path(&["file2.txt"]), store).unwrap();

    assert_eq!(read_action, Cid::default());
    assert_eq!(read_file, Cid::default());
    assert_eq!(read_file2, Cid::default());
}

#[test]
fn read_of_a_missing_file_is_not_found() {
    let store = MemoryBlockStore::default();
    let root_dir = Rc::new(PublicDirectory::new(7));
    assert_eq!(
        root_dir.read(&path(&["nothing.txt"]), &store).err(),
        Some(FsError::NotFound)
    );
}

#[test]
fn read_of_a_directory_is_not_a_file() {
    let store = MemoryBlockStore::default();
    let root_dir = Rc::new(PublicDirectory::new(7));
    let PublicOpResult { root_dir, .. } = root_dir.mkdir(&path(&["docs"]), 8, &store).unwrap();
    assert_eq!(
        root_dir.read(&path(&["docs"]), &store).err(),
        Some(FsError::NotAFile)
    );
}

#[test]
fn write_through_a_file_is_an_invalid_path() {
    let store = MemoryBlockStore::default();
    let root_dir = Rc::new(PublicDirectory::new(7));
    let PublicOpResult { root_dir, .. } = root_dir
        .write(&path(&["a.txt"]), Cid::default(), 8, &store)
        .unwrap();
    assert_eq!(
        Rc::clone(&root_dir)
            .write(&path(&["a.txt", "b.txt"]), Cid::default(), 9, &store)
            .err(),
        Some(FsError::InvalidPath)
    );
    assert_eq!(
        Rc::clone(&root_dir)
            .get_node(&path(&["a.txt", "b.txt"]), &store)
            .err(),
        Some(FsError::NotFound)
    );
    assert_eq!(
        root_dir.ls(&path(&["a.txt"]), &store).err(),
        Some(FsError::NotFound)
    );
}

#[test]
fn write_over_a_directory_fails() {
    let store = MemoryBlockStore::default();
    let root_dir = Rc::new(PublicDirectory::new(7));
    let PublicOpResult { root_dir, .. } = root_dir.mkdir(&path(&["docs"]), 8, &store).unwrap();
    assert_eq!(
        root_dir
            .write(&path(&["docs"]), Cid::default(), 9, &store)
            .err(),
        Some(FsError::DirectoryAlreadyExists)
    );
}

#[test]
fn empty_path_is_invalid_for_write_and_rm() {
    let store = MemoryBlockStore::default();
    let root_dir = Rc::new(PublicDirectory::new(7));
    assert_eq!(
        Rc::clone(&root_dir)
            .write(&path(&[]), Cid::default(), 9, &store)
            .err(),
        Some(FsError::InvalidPath)
    );
    assert_eq!(
        root_dir.rm(&path(&[]), &store).err(),
        Some(FsError::InvalidPath)
    );
}

#[test]
fn mv_onto_an_existing_file_fails() {
    let store = MemoryBlockStore::default();
    let root_dir = Rc::new(PublicDirectory::new(7));
    let PublicOpResult { root_dir, .. } = root_dir
        .write(&path(&["a.txt"]), Cid::default(), 8, &store)
        .unwrap();
    let PublicOpResult { root_dir, .. } = root_dir
        .write(&path(&["b.txt"]), Cid::default(), 8, &store)
        .unwrap();
    assert_eq!(
        root_dir
            .basic_mv(&path(&["a.txt"]), &path(&["b.txt"]), 9, &store)
            .err(),
        Some(FsError::FileAlreadyExists)
    );
}

#[test]
fn write_makes_missing_directories_at_the_time_of_writing() {
    let store = MemoryBlockStore::default();
    let root_dir = Rc::new(PublicDirectory::new(100));
    let PublicOpResult { root_dir, .. } = root_dir
        .write(&path(&["docs", "a.txt"]), Cid::default(), 250, &store)
        .unwrap();
    assert_eq!(root_dir.metadata.unix_fs.created, 100);
    assert_eq!(root_dir.metadata.unix_fs.modified, 100);
    let PublicOpResult { root_dir, result } = root_dir.ls(&path(&[]), &store).unwrap();
    assert_eq!(result.len(), 1);
    assert_eq!(result[0].0, "docs");
    assert_eq!(result[0].1.unix_fs.mode, 755);
    let PublicOpResult { result, .. } = root_dir.ls(&path(&["docs"]), &store).unwrap();
    assert_eq!(result[0].1.unix_fs.mode, 644);
    assert_eq!(result[0].1.unix_fs.created, 250);
}

#[test]
fn merge_of_two_branches_commutes() {
    let store = &mut MemoryBlockStore::default();
    let base = Rc::new(PublicDirectory::new(1));
    let one = cid_of(b"1");
    let two = cid_of(b"2");
    let PublicOpResult { root_dir: left, .. } =
        Rc::clone(&base).write(&path(&["x"]), one, 1, store).unwrap();
    let PublicOpResult { root_dir: right, .. } =
        Rc::clone(&base).write(&path(&["y"]), two, 1, store).unwrap();

    let left_first = Rc::clone(&left)
        .basic_merge(Rc::clone(&right), store)
        .unwrap();
    let right_first = right.basic_merge(left, store).unwrap();

    assert_eq!(
        left_first.store(store).unwrap(),
        right_first.store(store).unwrap()
    );
    let PublicOpResult { result, .. } = Rc::clone(&left_first).read(&path(&["x"]), store).unwrap();
    assert_eq!(result, one);
    let PublicOpResult { result, .. } = left_first.read(&path(&["y"]), store).unwrap();
    assert_eq!(result, two);
}

#[test]
fn merge_of_two_files_takes_the_lower_address() {
    let store = &mut MemoryBlockStore::default();
    let base = Rc::new(PublicDirectory::new(1));
    let one = cid_of(b"1");
    let two = cid_of(b"2");
    let PublicOpResult { root_dir: left, .. } =
        Rc::clone(&base).write(&path(&["x"]), one, 1, store).unwrap();
    let PublicOpResult { root_dir: right, .. } =
        Rc::clone(&base).write(&path(&["x"]), two, 1, store).unwrap();

    let merged = Rc::clone(&left)
        .basic_merge(Rc::clone(&right), store)
        .unwrap();
    let swapped = right.basic_merge(left, store).unwrap();
    let PublicOpResult { result: a, .. } = merged.read(&path(&["x"]), store).unwrap();
    let PublicOpResult { result: b, .. } = swapped.read(&path(&["x"]), store).unwrap();
    assert_eq!(a, b);
    assert!(a == one || a == two);
}

#[test]
fn history_lists_previous_versions() {
    let store = &mut MemoryBlockStore::default();
    let base = Rc::new(PublicDirectory::new(1));
    let PublicOpResult { root_dir: next, .. } = Rc::clone(&base)
        .write(&path(&["x"]), Cid::default(), 2, store)
        .unwrap();
    let PublicOpResult { root_dir: next, .. } =
        next.base_history_on(Rc::clone(&base), store).unwrap();
    let base_cid = base.store(store).unwrap();
    assert_eq!(Rc::clone(&next).get_history(10, store).unwrap(), vec![base_cid]);
    assert_eq!(next.get_history(0, store).unwrap(), Vec::<Cid>::new());
}

fn cid_of(bytes: &[u8]) -> Cid {
    wnfs::store::cid_of_block(wnfs::cid::CODEC_RAW, bytes)
}

#[test]
fn a_directory_value_with_names_out_of_order_is_no_node() {
    let metadata = Metadata::new(7, UnixFsNodeKind::Dir);
    let a = cid_of(b"a");
    let b = cid_of(b"b");

    let in_order = dir_to_value(
        &metadata,
        vec![("a".to_string(), a), ("b".to_string(), b)],
        &None,
    );
    let dir = match node_from_value(&in_order).unwrap() {
        PublicNode::Dir(dir) => dir,
        PublicNode::File(_) => panic!("a directory was written"),
    };
    assert_eq!(dir.userland.len(), 2);
    assert_eq!(dir.userland[0].0, "a");
    assert_eq!(dir.userland[1].0, "b");

    let out_of_order = dir_to_value(
        &metadata,
        vec![("b".to_string(), b), ("a".to_string(), a)],
        &None,
    );
    assert!(node_from_value(&out_of_order).is_none());

    let twice = dir_to_value(
        &metadata,
        vec![("a".to_string(), a), ("a".to_string(), b)],
        &None,
    );
    assert!(node_from_value(&twice).is_none());
}

#[test]
fn ls_gives_the_names_in_ascending_order_whatever_the_order_of_writing() {
    let time = now();
    let store = MemoryBlockStore::default();
    let mut root_dir = Rc::new(PublicDirectory::new(time));
    for name in ["pear", "apple", "zebra", "Mango", "fig"] {
        root_dir = root_dir
            .write(&path(&["box", name]), cid_of(name.as_bytes()), time, &store)
            .unwrap()
            .root_dir;
    }
    root_dir = root_dir.rm(&path(&["box", "zebra"]), &store).unwrap().root_dir;
    let listed = root_dir.ls(&path(&["box"]), &store).unwrap().result;
    let names: Vec<&str> = listed.iter().map(|(name, _)| name.as_str()).collect();
    assert_eq!(names, vec!["Mango", "apple", "fig", "pear"]);
}

#[test]
fn a_merge_has_its_names_in_order_whatever_was_written_first() {
    let time = now();
    let store = &mut MemoryBlockStore::default();
    let mut left = Rc::new(PublicDirectory::new(time));
    for name in ["pear", "apple"] {
        left = left
            .write(&path(&["box", name]), cid_of(name.as_bytes()), time, store)
            .unwrap()
            .root_dir;
    }
    let mut right = Rc::new(PublicDirectory::new(time));
    for name in ["zebra", "banana", "apple"] {
        right = right
            .write(&path(&["box", name]), cid_of(name.as_bytes()), time, store)
            .unwrap()
            .root_dir;
    }
    let merged = left.basic_merge(right, store).unwrap();
    let listed = merged.ls(&path(&["box"]), store).unwrap().result;
    let names: Vec<&str> = listed.iter().map(|(name, _)| name.as_str()).collect();
    assert_eq!(names, vec!["apple", "banana", "pear", "zebra"]);
}
