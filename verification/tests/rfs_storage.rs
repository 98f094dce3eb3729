use lib::bitmap::{Bitmap, BITS_PER_BLOCK};
use lib::blockdev::{BlockDevice, RamDisk, BLOCK_SIZE};
use lib::cache::BlockCacheManager;
use lib::layout::{
    DirEntry, DiskInode, InodeType, SuperBlock, DIRECT_COUNT, DIRENT_SIZE, INODES_PER_BLOCK, INODE_SIZE, MAX_FILE_BLOCKS,
    MAX_FILE_SIZE, NAME_MAX,
    POINTERS_PER_BLOCK, SUPERBLOCK_SIZE,
};

fn u32_at(dev: &RamDisk, block: usize) -> u32 {
    let mut buf = [0u8; BLOCK_SIZE];
    dev.read_block(block, &mut buf);
    u32::from_le_bytes(buf[0..4].try_into().unwrap())
}

fn read_u32(mgr: &mut BlockCacheManager<RamDisk>, block: usize) -> u32 {
    let v = mgr.read(block, 0, 4);
    u32::from_le_bytes(v[0..4].try_into().unwrap())
}

fn fixture(bitmap_blocks: usize) -> (BlockCacheManager<RamDisk>, Bitmap) {
    let ram = RamDisk::new(1 + bitmap_blocks);
    (BlockCacheManager::new(ram), Bitmap::new(1, bitmap_blocks))
}

#[test]
fn write_back_reaches_disk_only_after_sync() {
    let mut mgr = BlockCacheManager::new(RamDisk::new(16));
    mgr.modify(5, 0, &0xDEAD_BEEFu32.to_le_bytes());
    assert_eq!(u32_at(mgr.device(), 5), 0, "dirty block must not hit disk before sync");

    mgr.sync_all();
    assert_eq!(u32_at(mgr.device(), 5), 0xDEAD_BEEF, "sync flushes the dirty block");
}

#[test]
fn reads_are_served_and_persist_across_teardown() {
    let ram = {
        let mut mgr = BlockCacheManager::new(RamDisk::new(16));
        mgr.modify(3, 0, &42u32.to_le_bytes());
        mgr.sync_all();
        mgr.into_device()
    };
    let mut mgr = BlockCacheManager::new(ram);
    assert_eq!(read_u32(&mut mgr, 3), 42, "value survives cache teardown via the device");
}

#[test]
fn clean_blocks_are_never_written() {
    let mut mgr = BlockCacheManager::new(RamDisk::new(16));
    for id in 0..8 {
        let _ = mgr.read(id, 0, 4);
    }
    mgr.sync_all();
    assert_eq!(mgr.device().writes(), 0, "reading blocks must not write them");

    mgr.modify(2, 0, &7u32.to_le_bytes());
    mgr.sync_all();
    assert_eq!(mgr.device().writes(), 1, "exactly one dirty block flushed");

    mgr.sync_all();
    assert_eq!(mgr.device().writes(), 1, "a second sync writes nothing when nothing is dirty");
}

#[test]
fn eviction_flushes_dirty_blocks() {
    let mut mgr = BlockCacheManager::new(RamDisk::new(128));
    for id in 0..100usize {
        mgr.modify(id, 0, &(id as u32 + 1).to_le_bytes());
    }
    assert_eq!(u32_at(mgr.device(), 0), 1, "evicted block was flushed");
    assert_eq!(u32_at(mgr.device(), 99), 0, "resident block not yet flushed");

    mgr.sync_all();
    assert_eq!(u32_at(mgr.device(), 99), 100, "sync flushes the stragglers");
}

#[test]
fn cache_reads_back_what_was_modified() {
    let mut mgr = BlockCacheManager::new(RamDisk::new(40));
    mgr.modify(7, 10, &[1, 2, 3]);
    assert_eq!(mgr.read(7, 9, 5), vec![0, 1, 2, 3, 0]);
    for id in 8..40usize {
        mgr.modify(id, 0, &[9]);
    }
    assert_eq!(mgr.read(7, 10, 3), vec![1, 2, 3], "an evicted block reads back from the device");
    let dev = mgr.into_device();
    let mut buf = [0u8; BLOCK_SIZE];
    dev.read_block(7, &mut buf);
    assert_eq!(&buf[10..13], &[1, 2, 3], "handing the device back writes everything");
}

#[test]
fn allocates_lowest_free_in_order() {
    let (mut mgr, bm) = fixture(1);
    for expect in 0..8 {
        assert_eq!(bm.allocate(&mut mgr), Some(expect), "sequential allocation");
    }
}

#[test]
fn dealloc_frees_for_reuse() {
    let (mut mgr, bm) = fixture(1);
    let a = bm.allocate(&mut mgr);
    let b = bm.allocate(&mut mgr);
    let c = bm.allocate(&mut mgr);
    assert_eq!((a, b, c), (Some(0), Some(1), Some(2)));

    bm.dealloc(&mut mgr, 1);
    assert_eq!(bm.allocate(&mut mgr), Some(1), "lowest freed bit is reused first");
    assert_eq!(bm.allocate(&mut mgr), Some(3), "then allocation continues past the high-water mark");
}

#[test]
fn is_allocated_tracks_state() {
    let (mut mgr, bm) = fixture(1);
    let bit = bm.allocate(&mut mgr).unwrap();
    assert!(bm.is_allocated(&mut mgr, bit), "just-allocated bit reads as set");
    bm.dealloc(&mut mgr, bit);
    assert!(!bm.is_allocated(&mut mgr, bit), "freed bit reads as clear");
}

#[test]
fn fills_then_returns_none() {
    let (mut mgr, bm) = fixture(1);
    assert_eq!(bm.capacity(), BITS_PER_BLOCK);
    for _ in 0..BITS_PER_BLOCK {
        assert!(bm.allocate(&mut mgr).is_some());
    }
    assert_eq!(bm.allocate(&mut mgr), None, "a full bitmap yields None");
}

#[test]
fn allocation_crosses_block_boundary() {
    let (mut mgr, bm) = fixture(2);
    assert_eq!(bm.capacity(), 2 * BITS_PER_BLOCK);
    for _ in 0..BITS_PER_BLOCK {
        bm.allocate(&mut mgr).unwrap();
    }
    assert_eq!(bm.allocate(&mut mgr), Some(BITS_PER_BLOCK), "spills into the second bitmap block");
}

#[test]
fn survives_reopen_via_device() {
    let ram = {
        let mut mgr = BlockCacheManager::new(RamDisk::new(2));
        let bm = Bitmap::new(1, 1);
        assert_eq!(bm.allocate(&mut mgr), Some(0));
        assert_eq!(bm.allocate(&mut mgr), Some(1));
        mgr.sync_all();
        mgr.into_device()
    };
    let mut mgr = BlockCacheManager::new(ram);
    let bm = Bitmap::new(1, 1);
    assert!(bm.is_allocated(&mut mgr, 0));
    assert!(bm.is_allocated(&mut mgr, 1));
    assert_eq!(bm.allocate(&mut mgr), Some(2), "allocation continues after the persisted bits");
}

#[test]
fn bitmap_locates_bits() {
    let bm = Bitmap::new(3, 2);
    assert_eq!(bm.locate(0), (0, 0, 0));
    assert_eq!(bm.locate(65), (0, 1, 1));
    assert_eq!(bm.locate(4096 + 130), (1, 2, 2));
}

#[test]
fn on_disk_sizes_are_fixed() {
    assert_eq!(SUPERBLOCK_SIZE, 52, "SuperBlock");
    assert_eq!(INODE_SIZE, 128, "DiskInode");
    assert_eq!(DIRENT_SIZE, 32, "DirEntry");
    assert_eq!(INODES_PER_BLOCK, 4, "inodes per block");
    assert_eq!(POINTERS_PER_BLOCK, 128, "pointers per indirect block");
}

#[test]
fn max_file_size_spans_double_indirect() {
    assert_eq!(MAX_FILE_BLOCKS, 26 + 128 + 128 * 128, "direct + single + double indirect");
    assert_eq!(MAX_FILE_SIZE, MAX_FILE_BLOCKS * BLOCK_SIZE);
}

#[test]
fn inode_type_roundtrips_and_rejects_garbage() {
    for t in [InodeType::Free, InodeType::File, InodeType::Dir] {
        assert_eq!(InodeType::from_raw(t.as_raw()), Some(t), "roundtrip {t:?}");
    }
    assert_eq!(InodeType::from_raw(3), None, "unknown discriminant rejected");
    assert_eq!(InodeType::from_raw(u32::MAX), None, "garbage rejected");
}

#[test]
fn dir_entry_name_roundtrip() {
    let entry = DirEntry::new(7, "hello.txt");
    assert_eq!(entry.inode, 7);
    assert_eq!(entry.name_len as usize, "hello.txt".len(), "length stored explicitly");
    assert_eq!(entry.name(), "hello.txt");
}

#[test]
fn dir_entry_name_fills_the_field_and_truncates() {
    let full = "a".repeat(NAME_MAX);
    assert_eq!(DirEntry::new(1, &full).name(), full, "a full-width name survives");

    let long = "abcdefghijklmnopqrstuvwxyz0123456789";
    let entry = DirEntry::new(1, long);
    assert_eq!(entry.name_len as usize, NAME_MAX, "name truncated to NAME_MAX");
    assert_eq!(entry.name(), &long[..NAME_MAX]);
}

#[test]
fn dir_entry_clamps_a_corrupt_length() {
    let mut entry = DirEntry::new(1, "ok");
    entry.name_len = u8::MAX;
    assert_eq!(entry.name().len(), NAME_MAX, "clamped to the field, no panic");
}

#[test]
fn dir_entry_with_invalid_utf8_shows_no_name() {
    let mut entry = DirEntry::new(1, "ok");
    entry.name[0] = 0xFF;
    assert_eq!(entry.name(), "", "invalid bytes read as the empty name");
}

#[test]
fn dir_entry_encoding_roundtrips() {
    let entry = DirEntry::new(0x0102_0304, "abc");
    let mut bytes = vec![0u8; 40];
    entry.encode(&mut bytes, 4);
    assert_eq!(&bytes[4..12], &[4, 3, 2, 1, 3, b'a', b'b', b'c']);
    assert_eq!(DirEntry::decode(&bytes, 4), entry);
}

#[test]
fn disk_inode_encoding_roundtrips() {
    let mut direct = [0u32; DIRECT_COUNT];
    for (k, slot) in direct.iter_mut().enumerate() {
        *slot = 100 + k as u32;
    }
    let inode = DiskInode {
        type_: 1,
        size: 0x1234_5678,
        nlink: 3,
        _reserved: 0,
        direct,
        indirect: 77,
        double_indirect: 0xdead_beef,
    };
    let mut bytes = vec![0xAAu8; INODE_SIZE * 2];
    inode.encode(&mut bytes, INODE_SIZE);
    assert!(bytes[..INODE_SIZE].iter().all(|&b| b == 0xAA), "bytes before the record stay");
    assert_eq!(&bytes[INODE_SIZE + 4..INODE_SIZE + 8], &[0x78, 0x56, 0x34, 0x12], "little-endian size");
    assert_eq!(DiskInode::decode(&bytes, INODE_SIZE), inode);
    assert_eq!(DiskInode::decode(&vec![0u8; INODE_SIZE], 0), DiskInode::zeroed());
}

#[test]
fn superblock_encoding_roundtrips() {
    let sb = SuperBlock {
        magic: 0x5246_5331,
        block_size: 512,
        total_blocks: 4096,
        ninodes: 64,
        inode_bitmap_start: 1,
        inode_bitmap_len: 1,
        data_bitmap_start: 2,
        data_bitmap_len: 1,
        inode_table_start: 3,
        inode_table_len: 16,
        data_start: 19,
        data_len: 4077,
        root_inode: 0,
    };
    let mut bytes = vec![0x55u8; BLOCK_SIZE];
    sb.encode(&mut bytes);
    assert_eq!(&bytes[0..4], &[0x31, 0x53, 0x46, 0x52], "the magic reads RFS1 backwards");
    assert_eq!(SuperBlock::decode(&bytes), sb);
    assert!(bytes[SUPERBLOCK_SIZE..].iter().all(|&b| b == 0x55), "the rest of the block stays");
}
