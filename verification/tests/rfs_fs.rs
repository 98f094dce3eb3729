use lib::blockdev::{RamDisk, BLOCK_SIZE};
use lib::cache::BlockCacheManager;
use lib::fs::Fs;
use lib::layout::{InodeType, DIRECT_COUNT, FS_MAGIC, POINTERS_PER_BLOCK, ROOT_INODE};

const TEST_BLOCKS: usize = 8192;
const TEST_NINODES: usize = 512;

fn format_on(ram: RamDisk) -> Fs<RamDisk> {
    Fs::format(BlockCacheManager::new(ram), TEST_BLOCKS, TEST_NINODES)
}

fn mount_on(ram: RamDisk) -> Fs<RamDisk> {
    Fs::mount(BlockCacheManager::new(ram))
}

fn fresh() -> Fs<RamDisk> {
    format_on(RamDisk::new(TEST_BLOCKS))
}

fn pattern(len: usize) -> Vec<u8> {
    (0..len).map(|i| (i % 251) as u8).collect()
}

#[test]
fn format_layout_is_ordered_and_bounded() {
    let fs = fresh();
    let sb = fs.superblock();
    assert_eq!(sb.magic, FS_MAGIC);
    assert_eq!(sb.inode_bitmap_start, 1, "metadata begins right after superblock");
    assert_eq!(sb.data_bitmap_start, sb.inode_bitmap_start + sb.inode_bitmap_len);
    assert_eq!(sb.inode_table_start, sb.data_bitmap_start + sb.data_bitmap_len);
    assert_eq!(sb.data_start, sb.inode_table_start + sb.inode_table_len);
    assert_eq!(sb.data_start + sb.data_len, sb.total_blocks, "regions tile the whole disk");
}

#[test]
fn format_sizes_each_region() {
    let fs = fresh();
    let sb = fs.superblock();
    assert_eq!(sb.inode_bitmap_len, 1);
    assert_eq!(sb.inode_table_len, 128);
    assert_eq!(sb.data_bitmap_len, 2);
    assert_eq!(sb.data_len, 8192 - 1 - 1 - 128 - 2);
}

#[test]
fn root_is_an_empty_directory() {
    let mut fs = fresh();
    assert_eq!(fs.root_inode(), ROOT_INODE);
    assert_eq!(fs.inode_type(ROOT_INODE), Some(InodeType::Dir));
    assert_eq!(fs.inode_size(ROOT_INODE), 0);
}

#[test]
fn small_file_round_trip() {
    let mut fs = fresh();
    let id = fs.alloc_inode(InodeType::File).unwrap();
    let data = b"hello, rfs";
    assert_eq!(fs.write_at(id, 0, data), data.len());
    assert_eq!(fs.inode_size(id), data.len());

    let mut buf = [0u8; 32];
    let n = fs.read_at(id, 0, &mut buf);
    assert_eq!(n, data.len());
    assert_eq!(&buf[..n], data);
}

#[test]
fn write_read_across_direct_blocks() {
    let mut fs = fresh();
    let id = fs.alloc_inode(InodeType::File).unwrap();
    let data = pattern(5000);
    fs.write_at(id, 0, &data);

    let mut buf = vec![0u8; data.len()];
    assert_eq!(fs.read_at(id, 0, &mut buf), data.len());
    assert_eq!(buf, data, "content survives multi-block direct write");
}

#[test]
fn write_read_into_single_indirect() {
    let mut fs = fresh();
    let id = fs.alloc_inode(InodeType::File).unwrap();
    let data = pattern(20_000);
    fs.write_at(id, 0, &data);
    assert_ne!(fs.read_disk_inode(id).indirect, 0, "single-indirect block used");

    let mut buf = vec![0u8; data.len()];
    assert_eq!(fs.read_at(id, 0, &mut buf), data.len());
    assert_eq!(buf, data);
}

#[test]
fn write_read_into_double_indirect() {
    let mut fs = fresh();
    let id = fs.alloc_inode(InodeType::File).unwrap();
    let data = pattern(100_000);
    fs.write_at(id, 0, &data);
    assert_ne!(fs.read_disk_inode(id).double_indirect, 0, "double-indirect used");

    let mut buf = vec![0u8; data.len()];
    assert_eq!(fs.read_at(id, 0, &mut buf), data.len());
    assert_eq!(buf, data);
}

#[test]
fn partial_overwrite_leaves_neighbours_intact() {
    let mut fs = fresh();
    let id = fs.alloc_inode(InodeType::File).unwrap();
    let mut expect = pattern(2000);
    fs.write_at(id, 0, &expect);

    let patch = [0xFFu8; 100];
    fs.write_at(id, 500, &patch);
    expect[500..600].copy_from_slice(&patch);

    let mut buf = vec![0u8; 2000];
    fs.read_at(id, 0, &mut buf);
    assert_eq!(buf, expect, "overwrite touches only its own range");
}

#[test]
fn read_is_clamped_to_size() {
    let mut fs = fresh();
    let id = fs.alloc_inode(InodeType::File).unwrap();
    fs.write_at(id, 0, &pattern(100));

    let mut buf = [0u8; 200];
    assert_eq!(fs.read_at(id, 0, &mut buf), 100, "read past EOF is clamped");
    assert_eq!(fs.read_at(id, 100, &mut buf), 0, "read at EOF yields nothing");
    assert_eq!(fs.read_at(id, 500, &mut buf), 0, "read beyond EOF yields nothing");
}

#[test]
fn sparse_write_reads_hole_as_zeros() {
    let mut fs = fresh();
    let id = fs.alloc_inode(InodeType::File).unwrap();
    fs.write_at(id, 5000, b"tail");
    assert_eq!(fs.inode_size(id), 5004);

    let mut buf = vec![0u8; 5004];
    fs.read_at(id, 0, &mut buf);
    assert!(buf[..5000].iter().all(|&b| b == 0), "the hole reads as zeros");
    assert_eq!(&buf[5000..], b"tail");
}

#[test]
fn set_len_zero_frees_every_block() {
    let mut fs = fresh();
    let id = fs.alloc_inode(InodeType::File).unwrap();
    fs.write_at(id, 0, &pattern(100_000));
    assert!(fs.used_data_blocks() > 0);

    fs.set_len(id, 0);
    assert_eq!(fs.inode_size(id), 0);
    assert_eq!(fs.used_data_blocks(), 0, "truncate returns all data and indirect blocks");
}

#[test]
fn shrink_frees_exactly_the_blocks_past_the_end() {
    const D: usize = DIRECT_COUNT * BLOCK_SIZE;
    const S: usize = D + POINTERS_PER_BLOCK * BLOCK_SIZE;
    for &(orig, len) in &[
        (160_000usize, S + POINTERS_PER_BLOCK * BLOCK_SIZE),
        (160_000, 90_000),
        (100_000, S),
        (100_000, 40_000),
        (100_000, D),
        (100_000, 5_000),
        (100_000, 600),
        (100_000, 1),
        (100_000, 0),
    ] {
        let mut fs = fresh();
        let id = fs.alloc_inode(InodeType::File).unwrap();
        let data = pattern(orig);
        fs.write_at(id, 0, &data);

        let mut reference = fresh();
        let ref_id = reference.alloc_inode(InodeType::File).unwrap();
        reference.write_at(ref_id, 0, &data[..len]);

        fs.set_len(id, len);
        assert_eq!(fs.inode_size(id), len, "length is exactly what was asked for");
        assert_eq!(
            fs.used_data_blocks(),
            reference.used_data_blocks(),
            "{orig} shrunk to {len} must hold the same blocks as writing {len} bytes"
        );

        let mut buf = vec![0u8; len + 16];
        assert_eq!(fs.read_at(id, 0, &mut buf), len, "read clamps to the new length");
        assert_eq!(buf[..len], data[..len], "surviving bytes are untouched");
    }
}

#[test]
fn shrink_does_not_leave_dangling_pointers() {
    let mut fs = fresh();
    let victim = fs.alloc_inode(InodeType::File).unwrap();
    let big = pattern(100_000);
    fs.write_at(victim, 0, &big);
    fs.set_len(victim, 40_000);

    let other = fs.alloc_inode(InodeType::File).unwrap();
    let theirs = pattern(60_000).iter().map(|b| !b).collect::<Vec<u8>>();
    fs.write_at(other, 0, &theirs);

    fs.write_at(victim, 40_000, &big[40_000..]);

    let mut buf = vec![0u8; theirs.len()];
    fs.read_at(other, 0, &mut buf);
    assert_eq!(buf, theirs, "regrowing must not scribble on another file's blocks");
    let mut buf = vec![0u8; big.len()];
    fs.read_at(victim, 0, &mut buf);
    assert_eq!(buf, big, "and the regrown file is itself intact");
}

#[test]
fn shrink_then_grow_reads_zeros_not_old_bytes() {
    let mut fs = fresh();
    let id = fs.alloc_inode(InodeType::File).unwrap();
    fs.write_at(id, 0, &[0xAA; 400]);

    fs.set_len(id, 100);
    fs.set_len(id, 400);
    let mut buf = [0xFFu8; 400];
    assert_eq!(fs.read_at(id, 0, &mut buf), 400);
    assert!(buf[..100].iter().all(|&b| b == 0xAA), "kept bytes survive");
    assert!(buf[100..].iter().all(|&b| b == 0), "dropped bytes do not come back");
}

#[test]
fn grow_by_set_len_is_a_hole() {
    let mut fs = fresh();
    let id = fs.alloc_inode(InodeType::File).unwrap();
    fs.set_len(id, 4096);
    assert_eq!(fs.inode_size(id), 4096);
    assert_eq!(fs.used_data_blocks(), 0, "growing allocates nothing until written");

    let mut buf = [0xFFu8; 4096];
    assert_eq!(fs.read_at(id, 0, &mut buf), 4096);
    assert!(buf.iter().all(|&b| b == 0), "the new range reads as zeros");
}

#[test]
fn free_inode_reclaims_inode_and_data() {
    let mut fs = fresh();
    let id = fs.alloc_inode(InodeType::File).unwrap();
    fs.write_at(id, 0, &pattern(30_000));
    fs.free_inode(id);
    assert_eq!(fs.used_data_blocks(), 0, "freeing an inode frees its data");
    assert_eq!(fs.alloc_inode(InodeType::File), Some(id), "freed inode is reused");
}

#[test]
fn survives_reopen() {
    let (ram, id, data) = {
        let mut fs = format_on(RamDisk::new(TEST_BLOCKS));
        let id = fs.alloc_inode(InodeType::File).unwrap();
        let data = pattern(40_000);
        fs.write_at(id, 0, &data);
        fs.sync();
        (fs.into_device(), id, data)
    };
    let mut fs = mount_on(ram);
    let mut buf = vec![0u8; data.len()];
    assert_eq!(fs.read_at(id, 0, &mut buf), data.len());
    assert_eq!(buf, data, "file content persists across a remount");
}

#[test]
fn inodes_run_out() {
    let mut fs = Fs::format(BlockCacheManager::new(RamDisk::new(64)), 64, 3);
    assert_eq!(fs.alloc_inode(InodeType::File), Some(1));
    assert_eq!(fs.alloc_inode(InodeType::File), Some(2));
    assert_eq!(fs.alloc_inode(InodeType::File), None, "bits past the inode count are never handed out");
    fs.free_inode(1);
    assert_eq!(fs.alloc_inode(InodeType::Dir), Some(1));
    assert_eq!(fs.inode_type(1), Some(InodeType::Dir));
    assert_eq!(fs.read_disk_inode(1).nlink, 1);
}

#[test]
fn a_write_stops_when_data_blocks_run_out() {
    let mut fs = Fs::format(BlockCacheManager::new(RamDisk::new(16)), 16, 4);
    let data_len = fs.superblock().data_len as usize;
    let id = fs.alloc_inode(InodeType::File).unwrap();
    let data = pattern((data_len + 4) * BLOCK_SIZE);
    let n = fs.write_at(id, 0, &data);
    assert_eq!(n, data_len * BLOCK_SIZE, "every free block took part of the write");
    assert_eq!(fs.inode_size(id), n, "the file grew only over what was written");
    assert_eq!(fs.used_data_blocks(), data_len);
    let mut buf = vec![0u8; n];
    assert_eq!(fs.read_at(id, 0, &mut buf), n);
    assert_eq!(buf, data[..n]);
}

#[test]
fn write_then_read_gives_back_the_bytes_written() {
    let mut fs = fresh();
    let id = fs.alloc_inode(InodeType::File).unwrap();
    fs.write_at(id, 700, b"xyz");
    let mut buf = [0u8; 3];
    assert_eq!(fs.read_at(id, 700, &mut buf), 3);
    assert_eq!(&buf, b"xyz");
    assert_eq!(fs.inode_size(id), 703);
}
