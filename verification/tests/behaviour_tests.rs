use lib::{RangeAllocationError, RangeAllocator};
use std::ops::Range;

fn length_of(ranges: &[Range<u64>]) -> u64 {
    ranges.iter().map(|r| r.end - r.start).sum()
}

/// Free and allocated lengths add up to the allocator's range.
fn assert_conserved(alloc: &RangeAllocator) {
    let bounds = alloc.initial_range().clone();
    assert_eq!(
        alloc.total_available() + length_of(&alloc.allocated_ranges()),
        bounds.end - bounds.start
    );
}

#[test]
fn readme_example() {
    let mut alloc = RangeAllocator::new(0u64..1024);
    let a = alloc.allocate_range(256).unwrap();
    assert_eq!(a, 0..256);
    let b = alloc.allocate_range_aligned(64, 128).unwrap();
    assert_eq!(b, 256..320);
    alloc.free_range(a);
    alloc.grow_to(2048);
    assert_eq!(alloc.initial_range(), &(0..2048));
    assert_eq!(*alloc.free_ranges(), vec![0..256, 320..2048]);
}

#[test]
fn two_allocations_then_free() {
    let mut alloc = RangeAllocator::new(0..1024);
    let a = alloc.allocate_range(256).unwrap();
    let b = alloc.allocate_range(128).unwrap();
    assert_eq!(a, 0..256);
    assert_eq!(b, 256..384);
    alloc.free_range(a);
    assert_eq!(alloc.allocated_ranges(), vec![256..384]);
}

#[test]
fn aligned_gap_stays_usable() {
    let mut alloc = RangeAllocator::new(0..256);
    assert_eq!(alloc.allocate_range(1), Ok(0..1));
    assert_eq!(alloc.allocate_range_aligned(16, 16), Ok(16..32));
    assert_eq!(alloc.allocate_range(15), Ok(1..16));
}

#[test]
fn grow_when_out_of_space() {
    let mut alloc = RangeAllocator::new(0..10);
    alloc.allocate_range(10).unwrap();
    alloc.grow_to(20);
    assert_eq!(alloc.allocate_range(5), Ok(10..15));
}

#[test]
fn adjacent_allocations_are_one_range() {
    let mut alloc = RangeAllocator::new(0..30);
    alloc.allocate_range(10).unwrap();
    alloc.allocate_range(10).unwrap();
    assert_eq!(alloc.allocated_ranges(), vec![0..20]);
}

#[test]
fn reset_frees_everything() {
    let mut alloc = RangeAllocator::new(0..10);
    alloc.allocate_range(10).unwrap();
    assert!(!alloc.is_empty());
    alloc.reset();
    assert!(alloc.is_empty());
    assert_eq!(*alloc.free_ranges(), vec![0..10]);
}

#[test]
fn new_allocator_is_empty() {
    let alloc = RangeAllocator::new(0..1024);
    assert!(alloc.is_empty());
    assert_eq!(alloc.total_available(), 1024);
    assert_eq!(alloc.allocated_ranges(), vec![]);
}

#[test]
fn total_available_after_allocation() {
    let mut alloc = RangeAllocator::new(0..100);
    alloc.allocate_range(30).unwrap();
    assert_eq!(alloc.total_available(), 70);
}

#[test]
fn error_reports_free_length() {
    let mut alloc = RangeAllocator::new(0..10);
    assert_eq!(alloc.allocate_range(4), Ok(0..4));
    assert_eq!(alloc.allocate_range(4), Ok(4..8));
    assert_eq!(
        alloc.allocate_range(3),
        Err(RangeAllocationError { fragmented_free_length: 2 })
    );
    // A failed allocation leaves the free list as it was.
    assert_eq!(*alloc.free_ranges(), vec![8..10]);
}

#[test]
fn error_reports_fragmented_free_length() {
    let mut alloc = RangeAllocator::new(0..10);
    assert_eq!(alloc.allocate_range(3), Ok(0..3));
    assert_eq!(alloc.allocate_range(3), Ok(3..6));
    assert_eq!(alloc.allocate_range(3), Ok(6..9));
    alloc.free_range(3..6);
    // Four positions are free, but not four in a row.
    let err = alloc.allocate_range(4).unwrap_err();
    assert_eq!(err.fragmented_free_length, 4);
    assert_eq!(err.clone(), RangeAllocationError { fragmented_free_length: 4 });
}

#[test]
fn aligned_start_beyond_the_largest_position_does_not_fit() {
    let mut alloc = RangeAllocator::new(u64::MAX - 10..u64::MAX);
    assert_eq!(alloc.allocate_range(1), Ok(u64::MAX - 10..u64::MAX - 9));
    // The next multiple of 2^63 after u64::MAX - 9 is past u64::MAX.
    assert_eq!(
        alloc.allocate_range_aligned(1, 1 << 63),
        Err(RangeAllocationError { fragmented_free_length: 9 })
    );
    assert_eq!(alloc.allocate_range_aligned(2, 4), Ok(u64::MAX - 7..u64::MAX - 5));
}

#[test]
fn aligned_allocations_land_on_multiples() {
    let mut alloc = RangeAllocator::new(0..200);
    assert_eq!(alloc.allocate_range_aligned(10, 64), Ok(0..10));
    assert_eq!(alloc.allocate_range_aligned(10, 64), Ok(64..74));
    assert_eq!(alloc.allocate_range_aligned(10, 64), Ok(128..138));
    assert_eq!(*alloc.free_ranges(), vec![10..64, 74..128, 138..200]);
    assert_conserved(&alloc);
}

#[test]
fn best_fit_prefers_first_of_equal_fits() {
    let mut alloc = RangeAllocator::new(0..20);
    assert_eq!(alloc.allocate_range(20), Ok(0..20));
    alloc.free_range(2..5);
    alloc.free_range(8..11);
    alloc.free_range(14..20);
    // 2..5 and 8..11 leave the same room; the first one is taken.
    assert_eq!(alloc.allocate_range(2), Ok(2..4));
    assert_eq!(*alloc.free_ranges(), vec![4..5, 8..11, 14..20]);
}

#[test]
fn free_undoes_allocation() {
    let mut alloc = RangeAllocator::new(0..40);
    assert_eq!(alloc.allocate_range(1), Ok(0..1));
    assert_eq!(alloc.allocate_range(9), Ok(1..10));
    assert_eq!(alloc.allocate_range(10), Ok(10..20));
    alloc.free_range(1..10);
    let before = alloc.free_ranges().clone();
    assert_eq!(before, vec![1..10, 20..40]);
    // Taken from the middle of a free range: a prefix and a suffix remain.
    let r = alloc.allocate_range_aligned(5, 4).unwrap();
    assert_eq!(r, 4..9);
    assert_eq!(*alloc.free_ranges(), vec![1..4, 9..10, 20..40]);
    alloc.free_range(r);
    assert_eq!(*alloc.free_ranges(), before);
    // Taken whole.
    let r = alloc.allocate_range(9).unwrap();
    assert_eq!(r, 1..10);
    alloc.free_range(r);
    assert_eq!(*alloc.free_ranges(), before);
}

#[test]
fn allocations_do_not_overlap() {
    let mut alloc = RangeAllocator::new(0..64);
    let mut handed_out: Vec<Range<u64>> = Vec::new();
    for (length, alignment) in [(3, 1), (5, 4), (1, 8), (7, 2), (2, 16)] {
        let r = alloc.allocate_range_aligned(length, alignment).unwrap();
        assert_eq!(r.end - r.start, length);
        assert_eq!(r.start % alignment, 0);
        for other in &handed_out {
            assert!(r.end <= other.start || other.end <= r.start);
        }
        handed_out.push(r);
        assert_conserved(&alloc);
    }
}

#[test]
fn grow_keeps_allocations() {
    let mut alloc = RangeAllocator::new(0..12);
    assert_eq!(alloc.allocate_range(4), Ok(0..4));
    assert_eq!(alloc.allocate_range(4), Ok(4..8));
    assert_eq!(alloc.allocate_range(4), Ok(8..12));
    alloc.free_range(4..8);
    let before = alloc.allocated_ranges();
    alloc.grow_to(20);
    assert_eq!(alloc.allocated_ranges(), before);
    assert_eq!(*alloc.free_ranges(), vec![4..8, 12..20]);
    assert_conserved(&alloc);
}

#[test]
fn grow_to_same_end_with_tail_allocated() {
    let mut alloc = RangeAllocator::new(0..10);
    assert_eq!(alloc.allocate_range(10), Ok(0..10));
    alloc.grow_to(10);
    assert_eq!(*alloc.free_ranges(), vec![10..10]);
    assert_eq!(alloc.allocated_ranges(), vec![0..10]);
    assert!(!alloc.is_empty());
    alloc.free_range(0..10);
    assert_eq!(*alloc.free_ranges(), vec![0..10]);
    assert!(alloc.is_empty());
}

#[test]
fn empty_allocator_range() {
    let mut alloc = RangeAllocator::new(5..5);
    assert!(alloc.is_empty());
    assert_eq!(alloc.total_available(), 0);
    assert_eq!(alloc.allocated_ranges(), vec![]);
    assert_eq!(
        alloc.allocate_range(1),
        Err(RangeAllocationError { fragmented_free_length: 0 })
    );
    alloc.grow_to(8);
    assert_eq!(*alloc.free_ranges(), vec![5..8]);
    assert!(alloc.is_empty());
}

#[test]
fn empty_means_nothing_allocated() {
    let mut alloc = RangeAllocator::new(10..30);
    assert!(alloc.is_empty() && alloc.allocated_ranges().is_empty());
    let r = alloc.allocate_range(5).unwrap();
    assert!(!alloc.is_empty() && !alloc.allocated_ranges().is_empty());
    alloc.free_range(r);
    assert!(alloc.is_empty() && alloc.allocated_ranges().is_empty());
}

#[test]
fn free_inserts_in_order_without_merging() {
    let mut alloc = RangeAllocator::new(0..30);
    assert_eq!(alloc.allocate_range(30), Ok(0..30));
    alloc.free_range(20..25);
    alloc.free_range(5..10);
    alloc.free_range(12..14);
    assert_eq!(*alloc.free_ranges(), vec![5..10, 12..14, 20..25]);
    assert_eq!(alloc.allocated_ranges(), vec![0..5, 10..12, 14..20, 25..30]);
    assert_conserved(&alloc);
    // Joining both neighbours at once.
    alloc.free_range(10..12);
    assert_eq!(*alloc.free_ranges(), vec![5..14, 20..25]);
}
