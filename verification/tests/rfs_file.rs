use lib::blockdev::RamDisk;
use lib::cache::BlockCacheManager;
use lib::fs::Fs;
use lib::layout::InodeType;

const TEST_BLOCKS: usize = 8192;
const TEST_NINODES: usize = 512;

fn format_on(ram: RamDisk) -> Fs<RamDisk> {
    Fs::format(BlockCacheManager::new(ram), TEST_BLOCKS, TEST_NINODES)
}

fn mount_on(ram: RamDisk) -> Fs<RamDisk> {
    Fs::mount(BlockCacheManager::new(ram))
}

fn fresh() -> Fs<RamDisk> {
    format_on(RamDisk::new(TEST_BLOCKS))
}

fn pattern(len: usize) -> Vec<u8> {
    (0..len).map(|i| (i % 251) as u8).collect()
}

#[test]
fn create_write_open_read() {
    let mut fs = fresh();
    fs.create_path("/dir", InodeType::Dir).unwrap();
    {
        let mut f = fs.create_file("/dir/greeting").unwrap();
        assert_eq!(f.write(&mut fs, b"hello "), 6);
        assert_eq!(f.write(&mut fs, b"world"), 5);
        assert_eq!(f.len(&mut fs), 11);
        assert_eq!(f.pos(), 11);
    }
    let mut f = fs.open("/dir/greeting").unwrap();
    let mut out = Vec::new();
    f.read_to_end(&mut fs, &mut out);
    assert_eq!(out, b"hello world".to_vec());
}

#[test]
fn cursor_seek_and_partial_read() {
    let mut fs = fresh();
    let mut f = fs.create_file("/f").unwrap();
    f.write(&mut fs, b"0123456789");
    f.seek(3);
    let mut buf = [0u8; 4];
    assert_eq!(f.read(&mut fs, &mut buf), 4);
    assert_eq!(&buf, b"3456");
    assert_eq!(f.pos(), 7);
    f.rewind();
    assert_eq!(f.pos(), 0);
}

#[test]
fn open_missing_or_wrong_type() {
    let mut fs = fresh();
    fs.create_path("/d", InodeType::Dir).unwrap();
    assert!(fs.open("/nope").is_none(), "missing path is not openable");
    assert!(fs.open("/d").is_none(), "a directory is not openable as a file");
}

#[test]
fn create_file_requires_existing_parent() {
    let mut fs = fresh();
    assert!(fs.create_file("/missing/f").is_none(), "parent directory must exist");
    assert!(fs.create_file("/f").is_some());
    assert!(fs.create_file("/f").is_none(), "cannot create over an existing name");
}

#[test]
fn remove_path_deletes() {
    let mut fs = fresh();
    let mut f = fs.create_file("/f").unwrap();
    f.write(&mut fs, b"data");
    assert!(fs.remove_path("/f"));
    assert!(fs.open("/f").is_none());
    assert!(!fs.remove_path("/f"), "removing a gone file reports false");
}

#[test]
fn set_len_shortens_and_extends_through_the_handle() {
    let mut fs = fresh();
    let mut f = fs.create_file("/f").unwrap();
    f.write(&mut fs, &pattern(10_000));

    f.set_len(&mut fs, 1_000);
    assert_eq!(f.len(&mut fs), 1_000);
    f.rewind();
    let mut out = Vec::new();
    f.read_to_end(&mut fs, &mut out);
    assert_eq!(out, pattern(1_000), "keeps the head, drops the tail");

    f.set_len(&mut fs, 1_500);
    f.rewind();
    out.clear();
    f.read_to_end(&mut fs, &mut out);
    assert_eq!(out.len(), 1_500);
    assert!(out[1_000..].iter().all(|&b| b == 0), "extension reads as zeros");
}

#[test]
fn link_path_shares_content_between_two_paths() {
    let mut fs = fresh();
    fs.create_path("/a", InodeType::Dir).unwrap();
    fs.create_path("/b", InodeType::Dir).unwrap();
    let mut f = fs.create_file("/a/f").unwrap();
    f.write(&mut fs, b"linked");

    assert!(fs.link_path("/a/f", "/b/g"), "ln /a/f /b/g");
    let mut out = Vec::new();
    fs.open("/b/g").unwrap().read_to_end(&mut fs, &mut out);
    assert_eq!(out, b"linked".to_vec(), "same bytes through the new path");

    assert!(fs.remove_path("/a/f"));
    out.clear();
    fs.open("/b/g").unwrap().read_to_end(&mut fs, &mut out);
    assert_eq!(out, b"linked".to_vec(), "unlinking one path keeps the file");

    assert!(!fs.link_path("/nope", "/b/h"), "missing source refused");
    assert!(!fs.link_path("/b/g", "/missing/h"), "missing parent refused");
}

#[test]
fn large_file_through_handle() {
    let mut fs = fresh();
    let data = pattern(100_000);
    {
        let mut f = fs.create_file("/big").unwrap();
        assert_eq!(f.write(&mut fs, &data), data.len());
    }
    let mut f = fs.open("/big").unwrap();
    let mut out = Vec::new();
    f.read_to_end(&mut fs, &mut out);
    assert_eq!(out, data, "large file round-trips through the File handle");
}

#[test]
fn end_to_end_across_remount() {
    let ram = {
        let mut fs = format_on(RamDisk::new(TEST_BLOCKS));
        fs.create_path("/etc", InodeType::Dir).unwrap();
        let mut f = fs.create_file("/etc/motd").unwrap();
        f.write(&mut fs, b"welcome to rfs\n");
        fs.sync();
        fs.into_device()
    };
    let mut fs = mount_on(ram);
    let mut f = fs.open("/etc/motd").unwrap();
    let mut out = Vec::new();
    f.read_to_end(&mut fs, &mut out);
    assert_eq!(out, b"welcome to rfs\n".to_vec());
}

#[test]
fn paths_with_trailing_slashes_name_their_last_component() {
    let mut fs = fresh();
    let d = fs.create_path("/d/", InodeType::Dir).unwrap();
    assert_eq!(fs.resolve("/d"), Some(d));
    assert_eq!(fs.create_path("///", InodeType::File), None, "no final component");
    assert_eq!(fs.create_path("", InodeType::File), None, "empty path");
    let f = fs.create_path("d/x", InodeType::File).unwrap();
    assert_eq!(fs.resolve("/d/x"), Some(f), "a relative path starts at the root");
}

#[test]
fn creating_under_a_file_is_refused() {
    let mut fs = fresh();
    fs.create_file("/f").unwrap();
    assert!(fs.create_file("/f/g").is_none(), "a file is no parent directory");
    assert!(!fs.remove_path("/f/g"));
}

#[test]
fn read_to_end_past_the_end_reads_nothing() {
    let mut fs = fresh();
    let mut f = fs.create_file("/f").unwrap();
    f.write(&mut fs, b"abc");
    f.seek(10);
    let mut out = vec![7u8];
    assert_eq!(f.read_to_end(&mut fs, &mut out), 0);
    assert_eq!(out, vec![7u8]);
    assert_eq!(f.pos(), 10);
}
