use servefs::fuse::{
    access, calc_size, create_dir_attr, create_file_attr, file_id_to_ino, getattr, lookup,
    read_by_ino, read_slice, readdir_entries, release, AttrQuery, LookupResult, Store,
    INODE_SPLIT,
};
use servefs::vfs::{Directory, FSConnection, File, FileType};

#[test]
fn inode_split_partitions_ids() {
    assert_eq!(INODE_SPLIT, u64::MAX / 2);
    assert_eq!(file_id_to_ino(1), 1 + INODE_SPLIT);
    assert_eq!(file_id_to_ino(0), INODE_SPLIT);
    assert!(file_id_to_ino(7) >= INODE_SPLIT);
}

#[test]
fn calc_size_clamps_to_length() {
    let data: Vec<u8> = vec![1, 2, 3, 4, 5];
    assert_eq!(calc_size(2, 1, &data), 3);
    assert_eq!(calc_size(10, 2, &data), 5);
    assert_eq!(calc_size(0, 0, &data), 0);
    assert_eq!(calc_size(3, 9, &data), 5);
}

#[test]
fn read_slice_windows() {
    let data: Vec<u8> = vec![10, 20, 30, 40];
    assert_eq!(read_slice(&data, 0, 2), vec![10, 20]);
    assert_eq!(read_slice(&data, 1, 10), vec![20, 30, 40]);
    assert_eq!(read_slice(&data, 4, 2), Vec::<u8>::new());
    assert_eq!(read_slice(&data, 9, 2), Vec::<u8>::new());
}

#[test]
fn store_caches_per_handle() {
    let mut store = Store::new();
    let fh1 = store.insert(b"hello".to_vec());
    let fh2 = store.insert(b"world".to_vec());
    assert_ne!(fh1, fh2);
    assert!(store.contains(&fh1));
    assert_eq!(store.get(&fh1).unwrap(), &b"hello".to_vec());
    assert_eq!(store.get(&fh2).unwrap(), &b"world".to_vec());
    release(&mut store, INODE_SPLIT, fh1);
    assert!(!store.contains(&fh1));
    assert!(store.contains(&fh2));
    release(&mut store, 1, fh2);
    assert!(store.contains(&fh2));
}

#[test]
fn attrs_follow_the_kind() {
    let dir_attr = create_dir_attr(1, 1000, 1000);
    assert!(dir_attr.is_dir);
    assert_eq!(dir_attr.perm, 0o755);
    assert_eq!(dir_attr.nlink, 2);
    assert_eq!(dir_attr.size, 0);

    match create_file_attr(INODE_SPLIT + 1, 1, FileType::Text, "hello\n", 1000, 1000) {
        AttrQuery::Ready(a) => {
            assert!(!a.is_dir);
            assert_eq!(a.size, 6);
            assert_eq!(a.perm, 0o644);
            assert_eq!(a.ino, INODE_SPLIT + 1);
        }
        AttrQuery::StatHost(_, _) => panic!("text attrs are synthesized"),
    }
    match create_file_attr(INODE_SPLIT + 2, 1, FileType::Exec, "echo hi", 0, 0) {
        AttrQuery::Ready(a) => assert_eq!(a.size, 1),
        AttrQuery::StatHost(_, _) => panic!("exec attrs are synthesized"),
    }
    match create_file_attr(INODE_SPLIT + 3, 1, FileType::File, "/etc/hostname", 0, 0) {
        AttrQuery::Ready(_) => panic!("host-backed attrs come from a stat"),
        AttrQuery::StatHost(ino, path) => {
            assert_eq!(ino, INODE_SPLIT + 3);
            assert_eq!(path, "/etc/hostname");
        }
    }
}

#[test]
fn mounted_tree_listing() {
    let mut fs_conn = FSConnection::new("servefs_");

    // An empty tree lists only the dot entries under the root inode.
    let entries = readdir_entries(&fs_conn, 1, 0).unwrap();
    assert_eq!(entries.len(), 2);
    assert_eq!(entries[0].name, ".");
    assert_eq!(entries[1].name, "..");

    let file = File::new("/hi").unwrap();
    file.mk("hello\n", &FileType::Text, &mut fs_conn).unwrap();
    Directory::new("/sub/").unwrap().mk(&mut fs_conn).unwrap();
    Directory::new("/sub/deep/").unwrap().mk(&mut fs_conn).unwrap();

    let entries = readdir_entries(&fs_conn, 1, 0).unwrap();
    // Dots, the file, the immediate child; the deeper directory is
    // not an immediate child of the root.
    assert_eq!(entries.len(), 4);
    assert_eq!(entries[2].name, "hi");
    assert!(!entries[2].is_dir);
    assert_eq!(entries[3].name, "sub");
    assert!(entries[3].is_dir);
    assert_eq!(entries[2].offset, 3);
    assert_eq!(entries[3].offset, 4);

    // Resuming from an offset skips what was already sent.
    let resumed = readdir_entries(&fs_conn, 1, 3).unwrap();
    assert_eq!(resumed.len(), 1);
    assert_eq!(resumed[0].name, "sub");

    // A file inode has no listing.
    assert!(readdir_entries(&fs_conn, INODE_SPLIT + 1, 0).is_none());

    // Lookup of the file under the root: inode and attributes.
    let id = file.get_id(&fs_conn).unwrap();
    match lookup(&fs_conn, 1, "hi", 1000, 1000) {
        LookupResult::FileEntry(AttrQuery::Ready(a)) => {
            assert_eq!(a.ino, id + INODE_SPLIT);
            assert_eq!(a.size, 6);
            assert_eq!(a.perm, 0o644);
        }
        _ => panic!("the file resolves to synthesized attributes"),
    }
    match lookup(&fs_conn, 1, "sub", 1000, 1000) {
        LookupResult::DirEntry(a) => {
            assert!(a.is_dir);
            assert_eq!(a.perm, 0o755);
        }
        _ => panic!("the sub-directory resolves as a directory"),
    }
    assert!(matches!(
        lookup(&fs_conn, 1, "absent", 0, 0),
        LookupResult::NotFound
    ));

    // getattr mirrors the same attributes by inode.
    match getattr(&fs_conn, id + INODE_SPLIT, 1000, 1000).unwrap() {
        AttrQuery::Ready(a) => {
            assert_eq!(a.size, 6);
            assert_eq!(a.ino, id + INODE_SPLIT);
        }
        AttrQuery::StatHost(_, _) => panic!("text attrs are synthesized"),
    }
    assert!(getattr(&fs_conn, INODE_SPLIT - 7, 0, 0).is_none());

    // access answers by existence alone.
    assert!(access(&fs_conn, 1));
    assert!(access(&fs_conn, id + INODE_SPLIT));
    assert!(!access(&fs_conn, id + INODE_SPLIT + 1));

    // What an open materializes from.
    let (data, kind) = read_by_ino(&fs_conn, id + INODE_SPLIT).unwrap();
    assert_eq!(data, "hello\n");
    assert_eq!(kind, FileType::Text);
    assert!(read_by_ino(&fs_conn, 1).is_none());
}
