use lib::heap::Allocator;

#[test]
fn a_heap_is_cut_into_the_largest_blocks_that_fit() {
    let heap = Allocator::new(0x1000, 0x1000 + 0x1_0000);
    assert_eq!(heap.total(), 0x1_0000);
    assert_eq!(heap.allocated(), 0);
    assert_eq!(heap.free_blocks(16), vec![0x1000]);
    for order in 0..16 {
        assert!(heap.free_blocks(order).is_empty(), "order {order} holds nothing");
    }
}

#[test]
fn bounds_are_rounded_inward_and_a_short_tail_stays_out() {
    let heap = Allocator::new(0x1001, 0x1055);
    assert_eq!(heap.total(), 64, "0x1010..0x1050 is one 64-byte block");
    assert_eq!(heap.free_blocks(6), vec![0x1010]);

    let heap = Allocator::new(0x1000, 0x1030);
    assert_eq!(heap.total(), 32, "48 bytes give one 32-byte block; 16 stay out");
    assert_eq!(heap.free_blocks(5), vec![0x1000]);
    assert!(heap.free_blocks(4).is_empty());

    let heap = Allocator::new(0x1000, 0x1000 + 96);
    assert_eq!(heap.total(), 96);
    assert_eq!(heap.free_blocks(6), vec![0x1000]);
    assert_eq!(heap.free_blocks(5), vec![0x1040]);
}

#[test]
fn adjacent_free_blocks_merge() {
    let mut heap = Allocator::new(0, 0);
    assert_eq!(heap.total(), 0);
    heap.add_to_heap(0x2000, 0x2020);
    assert_eq!(heap.free_blocks(5), vec![0x2000]);
    heap.add_to_heap(0x2020, 0x2040);
    assert!(heap.free_blocks(5).is_empty(), "the two 32-byte blocks became one");
    assert_eq!(heap.free_blocks(6), vec![0x2000]);
    assert_eq!(heap.total(), 64);
}

#[test]
fn allocation_splits_the_least_block_that_serves() {
    let mut heap = Allocator::new(0x1000, 0x1000 + 0x1_0000);
    let a = heap.allocate(10, 8).expect("a small request is served");
    assert_eq!(a, 0x1000 + 0x1_0000 - 16, "the block is cut from the end");
    assert_eq!(heap.allocated(), 16, "no request is served with less than a list head");
    assert!(heap.free_blocks(16).is_empty());
    for order in 4..16 {
        assert_eq!(heap.free_blocks(order), vec![0x1000 + (1 << order) - 16], "piece of order {order}");
    }
    let b = heap.allocate(16, 16).expect("the order-4 piece serves the next");
    assert_eq!(b, 0x1000);
    assert!(heap.free_blocks(4).is_empty());
    assert_eq!(heap.allocated(), 32);
}

#[test]
fn alignment_raises_the_order() {
    let mut heap = Allocator::new(0x1000, 0x1000 + 0x1_0000);
    let a = heap.allocate(8, 256).expect("served");
    assert_eq!(heap.allocated(), 256, "a 256-aligned request takes a 256-byte block");
    assert_eq!(a % 256, 0x1000 % 256);
}

#[test]
fn requests_no_block_can_serve_are_refused() {
    let mut heap = Allocator::new(0x1000, 0x1000 + 0x1000);
    assert_eq!(heap.allocate(0x2000, 8), None, "larger than the heap");
    assert_eq!(heap.allocate(1 << 32, 8), None, "larger than the largest block");
    assert_eq!(heap.allocated(), 0);
    let mut empty = Allocator::new(0, 0);
    assert_eq!(empty.allocate(1, 1), None);
}

#[test]
fn freed_bytes_are_free_again() {
    let mut heap = Allocator::new(0x1000, 0x1000 + 0x1_0000);
    let a = heap.allocate(10, 8).expect("served");
    heap.dealloc(a, 10, 8);
    assert_eq!(heap.allocated(), 0);
    assert_eq!(heap.total(), 0x1_0000);
    assert_eq!(heap.free_blocks(4), vec![0x1000, a], "no free neighbour of its size: it stays apart");
}

#[test]
fn freeing_next_to_a_free_block_merges_them() {
    let mut heap = Allocator::new(0x1000, 0x1040);
    let a = heap.allocate(32, 32).expect("first half");
    let b = heap.allocate(32, 32).expect("second half");
    assert_eq!((a, b), (0x1020, 0x1000));
    assert_eq!(heap.allocate(1, 1), None, "the heap is full");
    heap.dealloc(a, 32, 32);
    heap.dealloc(b, 32, 32);
    assert_eq!(heap.free_blocks(6), vec![0x1000], "the two halves merged back");
    assert!(heap.free_blocks(5).is_empty());
    assert_eq!(heap.allocated(), 0);
}

#[test]
fn a_heap_may_hold_more_than_four_gib_in_separate_areas() {
    let mut heap = Allocator::new(0, 0);
    heap.add_to_heap(0x1_0000_0000, 0x1_8000_0000);
    heap.add_to_heap(0x3_0000_0000, 0x3_8000_0000);
    heap.add_to_heap(0x5_0000_0000, 0x5_8000_0000);
    assert_eq!(heap.total(), 3 * 0x8000_0000);
    assert_eq!(heap.free_blocks(31), vec![0x1_0000_0000, 0x3_0000_0000, 0x5_0000_0000]);
}
