use lib::RangeAllocator;

#[test]
fn test_basic_allocation() {
    let mut alloc = RangeAllocator::new(0..10);
    // Test if an allocation works
    assert_eq!(alloc.allocate_range(4), Ok(0..4));
    assert!(alloc.allocated_ranges().into_iter().eq(std::iter::once(0..4)));
    // Free the prior allocation
    alloc.free_range(0..4);
    // Make sure the free actually worked
    assert_eq!(*alloc.free_ranges(), vec![0..10]);
    assert!(alloc.allocated_ranges().into_iter().eq(std::iter::empty()));
}

#[test]
fn test_out_of_space() {
    let mut alloc = RangeAllocator::new(0..10);
    // Test if the allocator runs out of space correctly
    assert_eq!(alloc.allocate_range(10), Ok(0..10));
    assert!(alloc.allocated_ranges().into_iter().eq(std::iter::once(0..10)));
    assert!(alloc.allocate_range(4).is_err());
    alloc.free_range(0..10);
}

#[test]
fn test_grow() {
    let mut alloc = RangeAllocator::new(0..11);
    // Test if the allocator runs out of space correctly
    assert_eq!(alloc.allocate_range(10), Ok(0..10));
    assert!(alloc.allocated_ranges().into_iter().eq(std::iter::once(0..10)));
    assert!(alloc.allocate_range(4).is_err());
    alloc.grow_to(20);
    assert_eq!(alloc.allocate_range(4), Ok(10..14));
    alloc.free_range(0..14);
}

#[test]
fn test_grow_with_hole_at_start() {
    let mut alloc = RangeAllocator::new(0..6);

    assert_eq!(alloc.allocate_range(3), Ok(0..3));
    assert_eq!(alloc.allocate_range(3), Ok(3..6));
    alloc.free_range(0..3);

    alloc.grow_to(9);
    assert_eq!(alloc.allocated_ranges(), [3..6]);
}

#[test]
fn test_grow_with_hole_in_middle() {
    let mut alloc = RangeAllocator::new(0..6);

    assert_eq!(alloc.allocate_range(2), Ok(0..2));
    assert_eq!(alloc.allocate_range(2), Ok(2..4));
    assert_eq!(alloc.allocate_range(2), Ok(4..6));
    alloc.free_range(2..4);

    alloc.grow_to(9);
    assert_eq!(alloc.allocated_ranges(), [0..2, 4..6]);
}

#[test]
fn test_dont_use_block_that_is_too_small() {
    let mut alloc = RangeAllocator::new(0..10);
    // Allocate three blocks then free the middle one and check for correct state
    assert_eq!(alloc.allocate_range(3), Ok(0..3));
    assert_eq!(alloc.allocate_range(3), Ok(3..6));
    assert_eq!(alloc.allocate_range(3), Ok(6..9));
    alloc.free_range(3..6);
    assert_eq!(*alloc.free_ranges(), vec![3..6, 9..10]);
    assert_eq!(alloc.allocated_ranges(), vec![0..3, 6..9]);
    // Now request space that the middle block can fill, but the end one can't.
    assert_eq!(alloc.allocate_range(3), Ok(3..6));
}

#[test]
fn test_free_blocks_in_middle() {
    let mut alloc = RangeAllocator::new(0..100);
    // Allocate many blocks then free every other block.
    assert_eq!(alloc.allocate_range(10), Ok(0..10));
    assert_eq!(alloc.allocate_range(10), Ok(10..20));
    assert_eq!(alloc.allocate_range(10), Ok(20..30));
    assert_eq!(alloc.allocate_range(10), Ok(30..40));
    assert_eq!(alloc.allocate_range(10), Ok(40..50));
    assert_eq!(alloc.allocate_range(10), Ok(50..60));
    assert_eq!(alloc.allocate_range(10), Ok(60..70));
    assert_eq!(alloc.allocate_range(10), Ok(70..80));
    assert_eq!(alloc.allocate_range(10), Ok(80..90));
    assert_eq!(alloc.allocate_range(10), Ok(90..100));
    assert_eq!(*alloc.free_ranges(), vec![]);
    assert!(alloc.allocated_ranges().into_iter().eq(std::iter::once(0..100)));
    alloc.free_range(10..20);
    alloc.free_range(30..40);
    alloc.free_range(50..60);
    alloc.free_range(70..80);
    alloc.free_range(90..100);
    // Check that the right blocks were freed.
    assert_eq!(
        *alloc.free_ranges(),
        vec![10..20, 30..40, 50..60, 70..80, 90..100]
    );
    assert_eq!(
        alloc.allocated_ranges(),
        vec![0..10, 20..30, 40..50, 60..70, 80..90]
    );
    // Fragment the memory on purpose a bit.
    assert_eq!(alloc.allocate_range(6), Ok(10..16));
    assert_eq!(alloc.allocate_range(6), Ok(30..36));
    assert_eq!(alloc.allocate_range(6), Ok(50..56));
    assert_eq!(alloc.allocate_range(6), Ok(70..76));
    assert_eq!(alloc.allocate_range(6), Ok(90..96));
    // Check for fragmentation.
    assert_eq!(
        *alloc.free_ranges(),
        vec![16..20, 36..40, 56..60, 76..80, 96..100]
    );
    assert_eq!(
        alloc.allocated_ranges(),
        vec![0..16, 20..36, 40..56, 60..76, 80..96]
    );
    // Fill up the fragmentation
    assert_eq!(alloc.allocate_range(4), Ok(16..20));
    assert_eq!(alloc.allocate_range(4), Ok(36..40));
    assert_eq!(alloc.allocate_range(4), Ok(56..60));
    assert_eq!(alloc.allocate_range(4), Ok(76..80));
    assert_eq!(alloc.allocate_range(4), Ok(96..100));
    // Check that nothing is free.
    assert_eq!(*alloc.free_ranges(), vec![]);
    assert!(alloc.allocated_ranges().into_iter().eq(std::iter::once(0..100)));
}

#[test]
fn test_ignore_block_if_another_fits_better() {
    let mut alloc = RangeAllocator::new(0..10);
    // Allocate blocks such that the only free spaces available are 3..6 and 9..10
    // in order to prepare for the next test.
    assert_eq!(alloc.allocate_range(3), Ok(0..3));
    assert_eq!(alloc.allocate_range(3), Ok(3..6));
    assert_eq!(alloc.allocate_range(3), Ok(6..9));
    alloc.free_range(3..6);
    assert_eq!(*alloc.free_ranges(), vec![3..6, 9..10]);
    assert_eq!(alloc.allocated_ranges(), vec![0..3, 6..9]);
    // Now request space that can be filled by 3..6 but should be filled by 9..10
    // because 9..10 is a perfect fit.
    assert_eq!(alloc.allocate_range(1), Ok(9..10));
}

#[test]
fn test_merge_neighbors() {
    let mut alloc = RangeAllocator::new(0..9);
    assert_eq!(alloc.allocate_range(3), Ok(0..3));
    assert_eq!(alloc.allocate_range(3), Ok(3..6));
    assert_eq!(alloc.allocate_range(3), Ok(6..9));
    alloc.free_range(0..3);
    alloc.free_range(6..9);
    alloc.free_range(3..6);
    assert_eq!(*alloc.free_ranges(), vec![0..9]);
    assert!(alloc.allocated_ranges().into_iter().eq(std::iter::empty()));
}

#[test]
fn test_aligned_already_aligned() {
    let mut alloc = RangeAllocator::new(0..20);
    // Start is already aligned to 4, no padding needed.
    assert_eq!(alloc.allocate_range_aligned(4, 4), Ok(0..4));
    assert_eq!(*alloc.free_ranges(), vec![4..20]);
}

#[test]
fn test_aligned_with_padding() {
    let mut alloc = RangeAllocator::new(0..20);
    // Occupy 1 byte to offset the free range start.
    assert_eq!(alloc.allocate_range(1), Ok(0..1));
    // Free range is now 1..20. Alignment 4 rounds up to 4.
    assert_eq!(alloc.allocate_range_aligned(4, 4), Ok(4..8));
    // Prefix 1..4 and suffix 8..20 remain free.
    assert_eq!(*alloc.free_ranges(), vec![1..4, 8..20]);
}

#[test]
fn test_aligned_prefix_is_reusable() {
    let mut alloc = RangeAllocator::new(0..20);
    assert_eq!(alloc.allocate_range(1), Ok(0..1));
    assert_eq!(alloc.allocate_range_aligned(4, 4), Ok(4..8));
    // The prefix 1..4 should be usable for a smaller allocation.
    assert_eq!(alloc.allocate_range(3), Ok(1..4));
    assert_eq!(*alloc.free_ranges(), vec![8..20]);
}

#[test]
fn test_aligned_no_fit() {
    let mut alloc = RangeAllocator::new(0..5);
    assert_eq!(alloc.allocate_range(1), Ok(0..1));
    // Free range is 1..5. Alignment 4 rounds to 4, usable = 5-4 = 1 < 4.
    assert!(alloc.allocate_range_aligned(4, 4).is_err());
}

#[test]
fn test_aligned_exact_fit_after_padding() {
    let mut alloc = RangeAllocator::new(0..8);
    assert_eq!(alloc.allocate_range(1), Ok(0..1));
    // Free range is 1..8. Alignment 4 rounds to 4, usable = 8-4 = 4 == 4.
    assert_eq!(alloc.allocate_range_aligned(4, 4), Ok(4..8));
    // Prefix 1..4 remains, suffix consumed entirely.
    assert_eq!(*alloc.free_ranges(), vec![1..4]);
}

#[test]
fn test_aligned_best_fit() {
    let mut alloc = RangeAllocator::new(0..32);
    // Create two gaps with different usable sizes after alignment.
    assert_eq!(alloc.allocate_range(4), Ok(0..4));
    assert_eq!(alloc.allocate_range(4), Ok(4..8));
    assert_eq!(alloc.allocate_range(4), Ok(8..12));
    assert_eq!(alloc.allocate_range(4), Ok(12..16));
    assert_eq!(alloc.allocate_range(4), Ok(16..20));
    assert_eq!(alloc.allocate_range(12), Ok(20..32));

    // Free two ranges: 4..8 (already aligned to 4, usable 4) and
    // 12..20 (already aligned to 4, usable 8).
    alloc.free_range(4..8);
    alloc.free_range(12..20);
    assert_eq!(*alloc.free_ranges(), vec![4..8, 12..20]);

    // Allocate 4 aligned to 4. Both fit, but 4..8 is the tighter fit.
    assert_eq!(alloc.allocate_range_aligned(4, 4), Ok(4..8));
}

#[test]
fn test_aligned_non_power_of_two() {
    let mut alloc = RangeAllocator::new(0..20);
    assert_eq!(alloc.allocate_range(1), Ok(0..1));
    // Free range: 1..20. Alignment 3 rounds 1 up to 3.
    assert_eq!(alloc.allocate_range_aligned(2, 3), Ok(3..5));
    assert_eq!(*alloc.free_ranges(), vec![1..3, 5..20]);
}

#[test]
fn test_aligned_multiple_allocations() {
    let mut alloc = RangeAllocator::new(0..32);
    assert_eq!(alloc.allocate_range_aligned(4, 8), Ok(0..4));
    // Free: 4..32. Next align-8 start is 8.
    assert_eq!(alloc.allocate_range_aligned(4, 8), Ok(8..12));
    // Free: 4..8, 12..32. Next align-8 start in 12..32 is 16.
    assert_eq!(alloc.allocate_range_aligned(4, 8), Ok(16..20));
    // Free: 4..8, 12..16, 20..32.
    assert_eq!(*alloc.free_ranges(), vec![4..8, 12..16, 20..32]);
}

#[test]
fn test_aligned_allocation_then_free_merges() {
    let mut alloc = RangeAllocator::new(0..16);
    assert_eq!(alloc.allocate_range(1), Ok(0..1));
    assert_eq!(alloc.allocate_range_aligned(4, 4), Ok(4..8));
    // Free: 1..4, 8..16
    // Free the aligned range; it should not merge (not adjacent to either).
    alloc.free_range(4..8);
    // 1..4 and 4..8 merge into 1..8, then 1..8 and 8..16 merge into 1..16.
    assert_eq!(*alloc.free_ranges(), vec![1..16]);
}

#[test]
fn test_allocate_range_delegates_correctly() {
    // Verify allocate_range still behaves identically to the original.
    let mut alloc = RangeAllocator::new(0..10);
    assert_eq!(alloc.allocate_range(4), Ok(0..4));
    assert_eq!(alloc.allocate_range(3), Ok(4..7));
    assert_eq!(*alloc.free_ranges(), vec![7..10]);
    alloc.free_range(0..4);
    assert_eq!(*alloc.free_ranges(), vec![0..4, 7..10]);
}
