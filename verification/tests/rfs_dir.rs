use lib::blockdev::RamDisk;
use lib::cache::BlockCacheManager;
use lib::fs::Fs;
use lib::layout::InodeType;

const TEST_BLOCKS: usize = 8192;
const TEST_NINODES: usize = 512;

fn format_on(ram: RamDisk) -> Fs<RamDisk> {
    Fs::format(BlockCacheManager::new(ram), TEST_BLOCKS, TEST_NINODES)
}

fn mount_on(ram: RamDisk) -> Fs<RamDisk> {
    Fs::mount(BlockCacheManager::new(ram))
}

fn fresh() -> Fs<RamDisk> {
    format_on(RamDisk::new(TEST_BLOCKS))
}

fn names(fs: &mut Fs<RamDisk>, dir: u32) -> Vec<String> {
    let mut v: Vec<String> = fs.dir_list(dir).iter().map(|e| e.name().to_string()).collect();
    v.sort();
    v
}

#[test]
fn create_then_lookup() {
    let mut fs = fresh();
    let root = fs.root_inode();
    let f = fs.create(root, "hello.txt", InodeType::File).unwrap();
    assert_eq!(fs.dir_lookup(root, "hello.txt"), Some(f));
    assert_eq!(fs.dir_lookup(root, "nope"), None);
    assert_eq!(fs.inode_type(f), Some(InodeType::File));
}

#[test]
fn duplicate_and_invalid_names_rejected() {
    let mut fs = fresh();
    let root = fs.root_inode();
    assert!(fs.create(root, "a", InodeType::File).is_some());
    assert_eq!(fs.create(root, "a", InodeType::File), None, "duplicate refused");
    assert_eq!(fs.create(root, "", InodeType::File), None, "empty name refused");
    assert_eq!(fs.create(root, "a/b", InodeType::File), None, "name with slash refused");
    let too_long = "x".repeat(64);
    assert_eq!(fs.create(root, &too_long, InodeType::File), None, "over-long name refused");
}

#[test]
fn ls_lists_live_children() {
    let mut fs = fresh();
    let root = fs.root_inode();
    for n in ["a", "b", "c"] {
        fs.create(root, n, InodeType::File).unwrap();
    }
    assert_eq!(names(&mut fs, root), ["a", "b", "c"].map(String::from));
}

#[test]
fn nested_directories_and_path_resolution() {
    let mut fs = fresh();
    let root = fs.root_inode();
    let d = fs.create(root, "d", InodeType::Dir).unwrap();
    let e = fs.create(d, "e", InodeType::Dir).unwrap();
    let f = fs.create(e, "f.txt", InodeType::File).unwrap();

    assert_eq!(fs.resolve("/"), Some(root));
    assert_eq!(fs.resolve("/d"), Some(d));
    assert_eq!(fs.resolve("/d/e"), Some(e));
    assert_eq!(fs.resolve("/d/e/f.txt"), Some(f));
    assert_eq!(fs.resolve("/d/missing"), None);
    assert_eq!(fs.resolve("/d/e/f.txt/x"), None, "cannot descend into a file");
}

#[test]
fn path_ignores_redundant_slashes() {
    let mut fs = fresh();
    let root = fs.root_inode();
    let d = fs.create(root, "d", InodeType::Dir).unwrap();
    let f = fs.create(d, "f", InodeType::File).unwrap();
    assert_eq!(fs.resolve("//d//f/"), Some(f));
}

#[test]
fn read_write_file_via_resolved_path() {
    let mut fs = fresh();
    let root = fs.root_inode();
    let d = fs.create(root, "docs", InodeType::Dir).unwrap();
    let f = fs.create(d, "note", InodeType::File).unwrap();
    fs.write_at(f, 0, b"content");

    let id = fs.resolve("/docs/note").unwrap();
    let mut buf = [0u8; 16];
    let n = fs.read_at(id, 0, &mut buf);
    assert_eq!(&buf[..n], b"content");
}

#[test]
fn remove_file_frees_inode() {
    let mut fs = fresh();
    let root = fs.root_inode();
    let f = fs.create(root, "tmp", InodeType::File).unwrap();
    fs.write_at(f, 0, b"stuff");
    assert!(fs.remove(root, "tmp"));
    assert_eq!(fs.dir_lookup(root, "tmp"), None);
    assert_eq!(fs.create(root, "again", InodeType::File), Some(f));
}

#[test]
fn cannot_remove_nonempty_directory() {
    let mut fs = fresh();
    let root = fs.root_inode();
    let d = fs.create(root, "d", InodeType::Dir).unwrap();
    fs.create(d, "child", InodeType::File).unwrap();
    assert!(!fs.remove(root, "d"), "non-empty directory must not be removed");
    assert_eq!(fs.dir_lookup(root, "d"), Some(d), "directory still present");
}

#[test]
fn remove_empty_directory() {
    let mut fs = fresh();
    let root = fs.root_inode();
    fs.create(root, "d", InodeType::Dir).unwrap();
    assert!(fs.remove(root, "d"));
    assert_eq!(fs.dir_lookup(root, "d"), None);
}

#[test]
fn removing_a_middle_entry_compacts_and_shrinks() {
    let mut fs = fresh();
    let root = fs.root_inode();
    for n in ["a", "b", "c", "d"] {
        fs.create(root, n, InodeType::File).unwrap();
    }
    let size_before = fs.inode_size(root);

    assert!(fs.remove(root, "b"));
    assert_eq!(fs.inode_size(root), size_before - 32, "one record shorter");
    assert_eq!(names(&mut fs, root), ["a", "c", "d"].map(String::from), "survivors all reachable");
    assert_eq!(fs.dir_list(root).len(), 3, "no free slots to skip");

    fs.create(root, "e", InodeType::File).unwrap();
    assert_eq!(fs.inode_size(root), size_before, "back to four records");
    assert_eq!(names(&mut fs, root), ["a", "c", "d", "e"].map(String::from));
}

#[test]
fn removing_the_last_entry_needs_no_move() {
    let mut fs = fresh();
    let root = fs.root_inode();
    for n in ["a", "b"] {
        fs.create(root, n, InodeType::File).unwrap();
    }
    assert!(fs.remove(root, "b"));
    assert_eq!(names(&mut fs, root), ["a"].map(String::from));
    assert_eq!(fs.inode_size(root), 32);
}

#[test]
fn a_drained_directory_costs_nothing() {
    let mut fs = fresh();
    let root = fs.root_inode();
    let d = fs.create(root, "d", InodeType::Dir).unwrap();
    for n in ["x", "y", "z"] {
        fs.create(d, n, InodeType::File).unwrap();
    }
    for n in ["y", "x", "z"] {
        assert!(fs.remove(d, n));
    }
    assert_eq!(fs.inode_size(d), 0, "an emptied directory is size 0");
    assert!(fs.dir_is_empty(d));
    assert_eq!(fs.dir_list(d).len(), 0);
    assert!(fs.remove(root, "d"), "and it can then be removed");
}

#[test]
fn directory_spanning_blocks_survives_churn() {
    let mut fs = fresh();
    let root = fs.root_inode();
    let d = fs.create(root, "d", InodeType::Dir).unwrap();
    let all: Vec<String> = (0..40).map(|i| format!("f{i}")).collect();
    for n in &all {
        fs.create(d, n, InodeType::File).unwrap();
    }
    assert_eq!(fs.inode_size(d), 40 * 32);

    let gone: Vec<String> = all.iter().step_by(2).cloned().collect();
    let mut kept: Vec<String> = all.iter().skip(1).step_by(2).cloned().collect();
    for n in &gone {
        assert!(fs.remove(d, n), "removing {n}");
    }

    kept.sort();
    assert_eq!(names(&mut fs, d), kept, "every survivor still resolves");
    assert_eq!(fs.inode_size(d), 20 * 32, "directory shrank by exactly what was removed");
    for n in &gone {
        assert_eq!(fs.dir_lookup(d, n), None, "{n} is gone");
    }
}

#[test]
fn hard_link_shares_one_inode() {
    let mut fs = fresh();
    let root = fs.root_inode();
    let f = fs.create(root, "original", InodeType::File).unwrap();
    fs.write_at(f, 0, b"shared");

    assert!(fs.link(root, "alias", f), "second name accepted");
    assert_eq!(fs.dir_lookup(root, "alias"), Some(f), "both names, one inode");
    assert_eq!(fs.read_disk_inode(f).nlink, 2);

    assert!(fs.remove(root, "original"));
    assert_eq!(fs.dir_lookup(root, "original"), None);
    let mut buf = [0u8; 8];
    let n = fs.read_at(f, 0, &mut buf);
    assert_eq!(&buf[..n], b"shared", "content survives via the remaining name");
    assert_eq!(fs.read_disk_inode(f).nlink, 1);

    assert!(fs.remove(root, "alias"));
    assert_eq!(fs.create(root, "reused", InodeType::File), Some(f), "inode reclaimed");
}

#[test]
fn link_refuses_directories_and_duplicates() {
    let mut fs = fresh();
    let root = fs.root_inode();
    let d = fs.create(root, "d", InodeType::Dir).unwrap();
    let f = fs.create(root, "f", InodeType::File).unwrap();
    assert!(!fs.link(root, "d_alias", d), "linking a directory would allow cycles");
    assert!(!fs.link(root, "f", f), "duplicate name refused");
    assert!(!fs.link(root, "bad/name", f), "invalid name refused");
    let freed = fs.create(root, "gone", InodeType::File).unwrap();
    assert!(fs.remove(root, "gone"));
    assert!(!fs.link(root, "ghost", freed), "a freed inode is not a link target");
    assert_eq!(fs.read_disk_inode(f).nlink, 1, "no refusal bumped the link count");
}

#[test]
fn tree_survives_reopen() {
    let ram = {
        let mut fs = format_on(RamDisk::new(TEST_BLOCKS));
        let root = fs.root_inode();
        let d = fs.create(root, "d", InodeType::Dir).unwrap();
        let f = fs.create(d, "f", InodeType::File).unwrap();
        fs.write_at(f, 0, b"persisted");
        fs.sync();
        fs.into_device()
    };
    let mut fs = mount_on(ram);
    let id = fs.resolve("/d/f").unwrap();
    let mut buf = [0u8; 16];
    let n = fs.read_at(id, 0, &mut buf);
    assert_eq!(&buf[..n], b"persisted");
}

#[test]
fn churned_tree_survives_reopen() {
    let ram = {
        let mut fs = format_on(RamDisk::new(TEST_BLOCKS));
        let root = fs.root_inode();
        let d = fs.create(root, "d", InodeType::Dir).unwrap();
        for i in 0..20 {
            fs.create(d, &format!("f{i}"), InodeType::File).unwrap();
        }
        let keeper = fs.dir_lookup(d, "f7").unwrap();
        fs.write_at(keeper, 0, b"kept");
        fs.link(d, "f7_alias", keeper);
        for i in (0..20).step_by(2) {
            assert!(fs.remove(d, &format!("f{i}")));
        }
        fs.sync();
        fs.into_device()
    };
    let mut fs = mount_on(ram);
    let d = fs.resolve("/d").unwrap();
    let mut expected: Vec<String> = (0..20)
        .filter(|i| i % 2 == 1)
        .map(|i| format!("f{i}"))
        .chain(["f7_alias".to_string()])
        .collect();
    expected.sort();
    assert_eq!(names(&mut fs, d), expected, "the compacted directory reads back intact");

    let keeper = fs.resolve("/d/f7").unwrap();
    assert_eq!(fs.resolve("/d/f7_alias"), Some(keeper), "hard link survived the remount");
    assert_eq!(fs.read_disk_inode(keeper).nlink, 2);
    let mut buf = [0u8; 8];
    let n = fs.read_at(keeper, 0, &mut buf);
    assert_eq!(&buf[..n], b"kept");
}

#[test]
fn a_directory_at_its_size_limit_takes_no_more_entries() {
    let mut fs = fresh();
    let root = fs.root_inode();
    let max = lib::layout::MAX_FILE_SIZE;
    fs.set_len(root, max);
    assert_eq!(fs.create(root, "x", InodeType::File), None);
    assert_eq!(fs.alloc_inode(InodeType::File), Some(1), "the refused create took no inode");
}

#[test]
fn removing_what_create_made_restores_the_directory() {
    let mut fs = fresh();
    let root = fs.root_inode();
    let a = fs.create(root, "a", InodeType::File).unwrap();
    let b = fs.create(root, "b", InodeType::Dir).unwrap();
    let len_before = fs.inode_size(root);
    let used_before = fs.used_data_blocks();

    let c = fs.create(root, "c", InodeType::File).unwrap();
    assert_eq!(fs.dir_lookup(root, "c"), Some(c));
    assert!(fs.remove(root, "c"), "removing the entry create just made succeeds");

    assert_eq!(fs.inode_size(root), len_before, "the directory is its old length again");
    assert_eq!(fs.dir_lookup(root, "c"), None);
    assert_eq!(fs.dir_lookup(root, "a"), Some(a));
    assert_eq!(fs.dir_lookup(root, "b"), Some(b));
    assert_eq!(names(&mut fs, root), vec!["a", "b"]);
    assert_eq!(fs.inode_type(c), Some(InodeType::Free), "the inode went with its last link");
    assert_eq!(fs.used_data_blocks(), used_before);
}
