use lib::access::{Identity, LinearOffset};
use lib::addr::PhysicalAddr;
use lib::kernel::{align_down, align_up, format_size, FrameAllocator, GIGABYTE, KILOBYTE, MEGABYTE, TERABYTE};

#[test]
fn format_size_picks_the_largest_unit_with_at_least_two() {
    assert_eq!(format_size(0), "0 B");
    assert_eq!(format_size(512), "512 B");
    assert_eq!(format_size(2047), "2047 B", "one and a bit kilobytes stay in bytes");
    assert_eq!(format_size(2048), "2 KB");
    assert_eq!(format_size(3 * KILOBYTE as usize + 1023), "3 KB", "rounded down");
    assert_eq!(format_size(2 * MEGABYTE as usize), "2 MB");
    assert_eq!(format_size(2 * MEGABYTE as usize - 1), "2047 KB");
    assert_eq!(format_size(3 * GIGABYTE as usize), "3 GB");
    assert_eq!(format_size(5 * TERABYTE as usize), "5 TB");
    assert_eq!(format_size(2048 * TERABYTE as usize), "2048 TB", "terabytes are the largest unit");
}

#[test]
fn kernel_align_down_and_up() {
    assert_eq!(align_down(0x1234, 0x1000), 0x1000);
    assert_eq!(align_down(0x1000, 0x1000), 0x1000);
    assert_eq!(align_up(0x1234, 0x1000), 0x2000);
    assert_eq!(align_up(0x1000, 0x1000), 0x1000);
    assert_eq!(align_down(0x1234, 0), 0x1234, "alignment zero leaves the address alone");
    assert_eq!(align_up(0x1234, 0), 0x1233, "align_up(a, 0) is align_down(a - 1, 0)");
    assert_eq!(align_up(0, 1), 0);
}

#[test]
fn frame_allocator_hands_back_the_most_recent_frame_first() {
    let mut pool = FrameAllocator::new();
    assert_eq!(pool.allocate(), None, "an empty pool has nothing");
    pool.dealloc(10);
    pool.dealloc(11);
    pool.dealloc(12);
    assert_eq!(pool.allocate(), Some(12));
    pool.dealloc(20);
    assert_eq!(pool.allocate(), Some(20), "a frame given back is the next to go out");
    assert_eq!(pool.allocate(), Some(11));
    assert_eq!(pool.allocate(), Some(10));
    assert_eq!(pool.allocate(), None);
}

#[test]
fn physical_frames_are_reached_through_the_access_policy() {
    let pa = PhysicalAddr::new(0x8020_0000);
    assert_eq!(Identity.address(pa), 0x8020_0000);
    assert_eq!(LinearOffset(0xffff_ffc0_0000_0000).address(pa), 0xffff_ffc0_8020_0000);
    assert_eq!(LinearOffset(usize::MAX).address(PhysicalAddr::new(1)), 0, "the offset wraps");
}
