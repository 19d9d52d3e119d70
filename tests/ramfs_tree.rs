use axfs_ramfs::path::{split_parent, split_path};
use axfs_ramfs::ramfs::{DirEntry, DirNode, FsError, NodeKind, RamFs, DIR_SIZE};

fn blank(n: usize) -> Vec<DirEntry> {
    let mut v = Vec::new();
    for _ in 0..n {
        v.push(DirEntry { name: Vec::new(), kind: NodeKind::Fifo });
    }
    v
}

fn names(v: &[DirEntry], n: usize) -> Vec<Vec<u8>> {
    v[..n].iter().map(|e| e.name.clone()).collect()
}

#[test]
fn end_to_end_scenario() {
    let mut fs = RamFs::new();
    let root = fs.root();
    assert_eq!(fs.create(root, "/tmp", NodeKind::Dir), Ok(()));
    assert_eq!(fs.create(root, "/tmp", NodeKind::Dir), Err(FsError::AlreadyExists));
    assert_eq!(fs.create(root, "/tmp/f1", NodeKind::File), Ok(()));
    let f1 = fs.lookup(root, "/tmp/f1").unwrap();
    assert_eq!(fs.get_attr(f1).kind, NodeKind::File);
    assert_eq!(fs.remove(root, "/tmp"), Err(FsError::DirectoryNotEmpty));
    assert_eq!(fs.remove(root, "/tmp/f1"), Ok(()));
    assert_eq!(fs.remove(root, "/tmp"), Ok(()));
    assert_eq!(fs.lookup(root, "/tmp"), Err(FsError::NotFound));
}

#[test]
fn create_then_lookup_gives_file() {
    let mut fs = RamFs::new();
    let root = fs.root();
    fs.create(root, "d", NodeKind::Dir).unwrap();
    assert_eq!(fs.create(root, "d/n", NodeKind::File), Ok(()));
    let n = fs.lookup(root, "d/n").unwrap();
    assert_eq!(fs.get_attr(n).kind, NodeKind::File);
    assert_eq!(fs.get_attr(n).size, 0);
}

#[test]
fn create_twice_keeps_first() {
    let mut fs = RamFs::new();
    let root = fs.root();
    fs.create(root, "/a", NodeKind::Dir).unwrap();
    let a = fs.lookup(root, "/a").unwrap();
    assert_eq!(fs.create(root, "/a", NodeKind::File), Err(FsError::AlreadyExists));
    assert_eq!(fs.lookup(root, "/a"), Ok(a));
    assert_eq!(fs.get_attr(a).kind, NodeKind::Dir);
}

#[test]
fn create_unsupported_kind() {
    let mut fs = RamFs::new();
    let root = fs.root();
    assert_eq!(fs.create(root, "/s", NodeKind::SymLink), Err(FsError::Unsupported));
    assert_eq!(fs.lookup(root, "/s"), Err(FsError::NotFound));
}

#[test]
fn create_needs_existing_parents() {
    let mut fs = RamFs::new();
    let root = fs.root();
    assert_eq!(fs.create(root, "/x/y", NodeKind::File), Err(FsError::NotFound));
    assert_eq!(fs.create(root, "/.", NodeKind::File), Ok(()));
    assert_eq!(fs.create(root, "/..", NodeKind::File), Ok(()));
}

#[test]
fn create_under_file_is_not_a_directory() {
    let mut fs = RamFs::new();
    let root = fs.root();
    fs.create(root, "/f", NodeKind::File).unwrap();
    assert_eq!(fs.create(root, "/f/g", NodeKind::File), Err(FsError::NotADirectory));
    assert_eq!(fs.lookup(root, "/f/g"), Err(FsError::NotADirectory));
    let f = fs.lookup(root, "/f").unwrap();
    let mut buf = blank(2);
    assert_eq!(fs.read_dir(f, 0, &mut buf), Err(FsError::NotADirectory));
}

#[test]
fn remove_nonempty_then_empty() {
    let mut fs = RamFs::new();
    let root = fs.root();
    fs.create(root, "/d", NodeKind::Dir).unwrap();
    fs.create(root, "/d/a", NodeKind::File).unwrap();
    fs.create(root, "/d/b", NodeKind::Dir).unwrap();
    assert_eq!(fs.remove(root, "/d"), Err(FsError::DirectoryNotEmpty));
    assert_eq!(fs.remove(root, "/d/a"), Ok(()));
    assert_eq!(fs.remove(root, "/d"), Err(FsError::DirectoryNotEmpty));
    assert_eq!(fs.remove(root, "/d/b"), Ok(()));
    assert_eq!(fs.remove(root, "/d"), Ok(()));
}

#[test]
fn remove_special_and_missing() {
    let mut fs = RamFs::new();
    let root = fs.root();
    fs.create(root, "/d", NodeKind::Dir).unwrap();
    assert_eq!(fs.remove(root, "/d/."), Err(FsError::InvalidInput));
    assert_eq!(fs.remove(root, "/d/.."), Err(FsError::InvalidInput));
    assert_eq!(fs.remove(root, ""), Err(FsError::InvalidInput));
    assert_eq!(fs.remove(root, "/nope"), Err(FsError::NotFound));
}

#[test]
fn dot_and_dotdot() {
    let mut fs = RamFs::new();
    let root = fs.root();
    fs.create(root, "/d", NodeKind::Dir).unwrap();
    let d = fs.lookup(root, "/d").unwrap();
    assert_eq!(fs.lookup(d, "."), Ok(d));
    assert_eq!(fs.lookup(root, "."), Ok(root));
    assert_eq!(fs.lookup(root, ".."), Err(FsError::NotFound));
    assert_eq!(fs.lookup(d, ".."), Ok(root));
    assert_eq!(fs.lookup(root, "/d/../d/."), Ok(d));
    assert_eq!(fs.parent(root), None);
    assert_eq!(fs.parent(d), Some(root));
}

#[test]
fn rename_within_directory() {
    let mut fs = RamFs::new();
    let root = fs.root();
    fs.create(root, "/a", NodeKind::File).unwrap();
    let a = fs.lookup(root, "/a").unwrap();
    assert_eq!(fs.rename(root, "/a", "/b"), Ok(()));
    assert_eq!(fs.lookup(root, "/b"), Ok(a));
    assert_eq!(fs.lookup(root, "/a"), Err(FsError::NotFound));
}

#[test]
fn rename_across_directories_moves_subtree() {
    let mut fs = RamFs::new();
    let root = fs.root();
    fs.create(root, "/src", NodeKind::Dir).unwrap();
    fs.create(root, "/dst", NodeKind::Dir).unwrap();
    fs.create(root, "/src/sub", NodeKind::Dir).unwrap();
    fs.create(root, "/src/sub/f", NodeKind::File).unwrap();
    let sub = fs.lookup(root, "/src/sub").unwrap();
    let f = fs.lookup(root, "/src/sub/f").unwrap();
    let dst = fs.lookup(root, "/dst").unwrap();
    assert_eq!(fs.rename(root, "/src/sub", "/dst/moved"), Ok(()));
    assert_eq!(fs.lookup(root, "/dst/moved"), Ok(sub));
    assert_eq!(fs.lookup(root, "/dst/moved/f"), Ok(f));
    assert_eq!(fs.lookup(root, "/src/sub"), Err(FsError::NotFound));
    assert_eq!(fs.lookup(sub, ".."), Ok(dst));
    assert_eq!(fs.lookup(root, "/dst/moved/.."), Ok(dst));
}

#[test]
fn rename_errors() {
    let mut fs = RamFs::new();
    let root = fs.root();
    fs.create(root, "/a", NodeKind::File).unwrap();
    fs.create(root, "/b", NodeKind::File).unwrap();
    fs.create(root, "/d", NodeKind::Dir).unwrap();
    assert_eq!(fs.rename(root, "/a", "/b"), Err(FsError::AlreadyExists));
    assert_eq!(fs.rename(root, "/zz", "/c"), Err(FsError::NotFound));
    assert_eq!(fs.rename(root, "/q/a", "/c"), Err(FsError::NotFound));
    assert_eq!(fs.rename(root, "a", "/c"), Err(FsError::InvalidInput));
    assert_eq!(fs.rename(root, "/a", "/a/x"), Err(FsError::NotADirectory));
    assert_eq!(fs.rename(root, "/a", "/d/.."), Err(FsError::InvalidInput));
    assert_eq!(fs.rename(root, "/d", "/d/x"), Err(FsError::InvalidInput));
    assert!(fs.lookup(root, "/a").is_ok());
}

#[test]
fn read_dir_pages() {
    let mut fs = RamFs::new();
    let root = fs.root();
    fs.create(root, "/x", NodeKind::File).unwrap();
    fs.create(root, "/y", NodeKind::Dir).unwrap();
    fs.create(root, "/z", NodeKind::File).unwrap();
    let mut all = blank(8);
    assert_eq!(fs.read_dir(root, 0, &mut all), Ok(5));
    assert_eq!(
        names(&all, 5),
        vec![b".".to_vec(), b"..".to_vec(), b"x".to_vec(), b"y".to_vec(), b"z".to_vec()]
    );
    assert_eq!(all[0].kind, NodeKind::Dir);
    assert_eq!(all[1].kind, NodeKind::Dir);
    assert_eq!(all[2].kind, NodeKind::File);
    assert_eq!(all[3].kind, NodeKind::Dir);
    assert_eq!(all[5].kind, NodeKind::Fifo);
    let mut tail = blank(8);
    assert_eq!(fs.read_dir(root, 2, &mut tail), Ok(3));
    assert_eq!(names(&tail, 3), names(&all, 5)[2..].to_vec());
    let mut two = blank(2);
    assert_eq!(fs.read_dir(root, 1, &mut two), Ok(2));
    assert_eq!(names(&two, 2), vec![b"..".to_vec(), b"x".to_vec()]);
    let mut none = blank(3);
    assert_eq!(fs.read_dir(root, 9, &mut none), Ok(0));
}

#[test]
fn dir_node_queries() {
    let mut fs = RamFs::new();
    let root = fs.root();
    assert_eq!(fs.create_node(root, b"b", NodeKind::File), Ok(()));
    assert_eq!(fs.create_node(root, b"a", NodeKind::Dir), Ok(()));
    assert_eq!(fs.create_node(root, b"a", NodeKind::Dir), Err(FsError::AlreadyExists));
    assert_eq!(fs.create_node(root, b"x/y", NodeKind::File), Err(FsError::InvalidInput));
    assert_eq!(fs.create_node(root, b"..", NodeKind::File), Err(FsError::InvalidInput));
    assert_eq!(fs.remove_node(root, b"none"), Err(FsError::NotFound));
    assert_eq!(fs.get_attr(root).size, DIR_SIZE);
    assert_eq!(fs.get_attr(root).kind, NodeKind::Dir);
    let d = DirNode::new(None);
    assert!(d.get_entries().is_empty());
    assert!(!d.exist(b"a"));
}

#[test]
fn removed_parent_is_gone() {
    let mut fs = RamFs::new();
    let root = fs.root();
    fs.create(root, "/p", NodeKind::Dir).unwrap();
    fs.create(root, "/p/c", NodeKind::Dir).unwrap();
    let c = fs.lookup(root, "/p/c").unwrap();
    fs.remove(root, "/p/c").unwrap();
    fs.remove(root, "/p").unwrap();
    assert_eq!(fs.parent(c), None);
}

#[test]
fn path_splitting() {
    assert_eq!(split_path(b"/a/b/c"), (&b"a"[..], Some(&b"b/c"[..])));
    assert_eq!(split_path(b"abc"), (&b"abc"[..], None));
    assert_eq!(split_path(b"/"), (&b""[..], None));
    assert_eq!(split_path(b"//a"), (&b""[..], Some(&b"a"[..])));
    assert_eq!(split_parent(b"/tmp/f1"), Some((&b"/tmp"[..], &b"f1"[..])));
    assert_eq!(split_parent(b"/f1/"), Some((&b"/"[..], &b"f1"[..])));
    assert_eq!(split_parent(b"/a/b/c"), Some((&b"/a/b"[..], &b"c"[..])));
    assert_eq!(split_parent(b"f1"), None);
}

#[test]
fn rename_below_itself_refused() {
    let mut fs = RamFs::new();
    let root = fs.root();
    fs.create(root, "/d", NodeKind::Dir).unwrap();
    fs.create(root, "/d/e", NodeKind::Dir).unwrap();
    assert_eq!(fs.rename(root, "/d", "/d/e/x"), Err(FsError::InvalidInput));
    assert!(fs.lookup(root, "/d/e").is_ok());
}

#[test]
fn entries_of_a_tree_directory() {
    let mut fs = RamFs::new();
    let root = fs.root();
    fs.create(root, "/b", NodeKind::File).unwrap();
    fs.create(root, "/a", NodeKind::Dir).unwrap();
    let d = fs.dir(root).unwrap();
    assert_eq!(d.get_entries(), vec![b"a".to_vec(), b"b".to_vec()]);
    assert!(d.exist(b"a"));
    assert!(!d.exist(b"c"));
    let f = fs.lookup(root, "/b").unwrap();
    assert!(fs.dir(f).is_none());
}

#[test]
fn listing_is_in_name_order() {
    let mut fs = RamFs::new();
    let root = fs.root();
    fs.create(root, "/zeta", NodeKind::File).unwrap();
    fs.create(root, "/b", NodeKind::Dir).unwrap();
    fs.create(root, "/ab", NodeKind::File).unwrap();
    fs.create(root, "/a", NodeKind::File).unwrap();
    fs.create(root, "/B", NodeKind::File).unwrap();
    let mut all = blank(8);
    assert_eq!(fs.read_dir(root, 0, &mut all), Ok(7));
    assert_eq!(
        names(&all, 7),
        vec![
            b".".to_vec(),
            b"..".to_vec(),
            b"B".to_vec(),
            b"a".to_vec(),
            b"ab".to_vec(),
            b"b".to_vec(),
            b"zeta".to_vec()
        ]
    );
    let mut tail = blank(8);
    assert_eq!(fs.read_dir(root, 2, &mut tail), Ok(5));
    assert_eq!(names(&tail, 5), names(&all, 7)[2..].to_vec());
    fs.rename(root, "/zeta", "/aa").unwrap();
    assert_eq!(
        fs.dir(root).unwrap().get_entries(),
        vec![b"B".to_vec(), b"a".to_vec(), b"aa".to_vec(), b"ab".to_vec(), b"b".to_vec()]
    );
}

#[test]
fn rename_to_taken_name_below_itself() {
    let mut fs = RamFs::new();
    let root = fs.root();
    fs.create(root, "/a", NodeKind::Dir).unwrap();
    fs.create(root, "/a/b", NodeKind::Dir).unwrap();
    assert_eq!(fs.rename(root, "/a", "/a/b"), Err(FsError::AlreadyExists));
}

#[test]
fn rename_missing_source_before_destination_kind() {
    let mut fs = RamFs::new();
    let root = fs.root();
    fs.create(root, "/f", NodeKind::File).unwrap();
    assert_eq!(fs.rename(root, "/missing", "/f/x"), Err(FsError::NotFound));
}
