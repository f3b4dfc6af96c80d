//! The allocator itself: a range of positions and the ordered list of the
//! parts of it that are free.
use crate::error::RangeAllocationError;
use crate::laws::{
    law_empty_means_nothing_allocated, law_free_and_allocated_fill_bounds,
    law_fresh_allocator_is_empty, law_grow_keeps_allocations, law_unit_alignment,
};
use crate::lemmas::{
    lemma_align_up, lemma_best_fit_unique, lemma_carve, lemma_first_after_unique, lemma_grown,
    lemma_release, lemma_release_shape, lemma_total_take,
};
use crate::spec::{
    align_up, aligned_start, allocated, allocation_outcome, best_fit, carve, covered, fits,
    free_list_wf, grown, has_fit, insert_index, is_best_fit, is_first_after, range_of, release,
    slack, span, total_len,
};
use std::ops::Range;
use vstd::prelude::*;

verus! {

/// A best-fit range allocator over `u64` positions.
///
/// `RangeAllocator` manages a single contiguous range and hands out
/// non-overlapping sub-ranges on request. Freed ranges are automatically
/// merged with their neighbors.
#[derive(Debug)]
pub struct RangeAllocator {
    /// The range this allocator covers.
    initial_range: Range<u64>,
    /// The ranges of this allocator that are unused, in ascending order, no
    /// two of them overlapping or touching.
    free_ranges: Vec<Range<u64>>,
}

/// The start of the first multiple of `alignment` at or after `start`, or
/// `None` when that multiple is beyond `u64::MAX`.
fn align_start(start: u64, alignment: u64) -> (r: Option<u64>)
    requires
        alignment > 0,
    ensures
        match r {
            Some(a) => a == align_up(start as int, alignment as int),
            None => align_up(start as int, alignment as int) > u64::MAX,
        },
{
    let rem = start % alignment;
    let padding = (alignment - rem) % alignment;
    proof {
        lemma_align_up(start as int, alignment as int);
        vstd::arithmetic::div_mod::lemma_mod_pos_bound(start as int, alignment as int);
        if rem == 0 {
            vstd::arithmetic::div_mod::lemma_mod_self_0(alignment as int);
        } else {
            vstd::arithmetic::div_mod::lemma_small_mod(
                (alignment - rem) as nat,
                alignment as nat,
            );
        }
        assert(start + padding == align_up(start as int, alignment as int));
    }
    start.checked_add(padding)
}

impl RangeAllocator {
    /// The range this allocator covers.
    pub closed spec fn bounds(&self) -> Range<u64> {
        self.initial_range
    }

    /// The free ranges, in ascending order.
    pub closed spec fn free_list(&self) -> Seq<Range<u64>> {
        self.free_ranges@
    }

    /// The allocator's state is consistent: its free list is well-formed
    /// inside its bounds.
    pub open spec fn wf(&self) -> bool {
        free_list_wf(self.bounds(), self.free_list())
    }

    /// Creates a new allocator that manages the given range.
    ///
    /// The entire range starts as free and available for allocation.
    pub fn new(range: Range<u64>) -> (alloc: Self)
        requires
            range.start <= range.end,
        ensures
            alloc.wf(),
            alloc.bounds() == range,
            alloc.free_list() == seq![range],
            allocated(alloc.bounds(), alloc.free_list()).len() == 0,
    {
        let initial_range = Range { start: range.start, end: range.end };
        let alloc = RangeAllocator { initial_range, free_ranges: vec![range] };
        assert(alloc.free_ranges@ =~= seq![range]);
        proof {
            law_fresh_allocator_is_empty(range);
        }
        alloc
    }

    /// Returns the full range this allocator was created with
    /// (including any extensions from [`grow_to`](Self::grow_to)).
    pub fn initial_range(&self) -> (r: &Range<u64>)
        ensures
            *r == self.bounds(),
    {
        &self.initial_range
    }

    /// The free ranges, in ascending order.
    pub fn free_ranges(&self) -> (r: &Vec<Range<u64>>)
        ensures
            r@ == self.free_list(),
    {
        &self.free_ranges
    }

    /// Extends the allocator's range to a new end value.
    ///
    /// The newly added region (`old_end..new_end`) becomes available for
    /// allocation. If the last free range is adjacent to the old end, it
    /// is extended in place rather than creating a new entry.
    pub fn grow_to(&mut self, new_end: u64)
        requires
            old(self).wf(),
            old(self).bounds().end <= new_end,
        ensures
            final(self).wf(),
            final(self).bounds() == range_of(old(self).bounds().start, new_end),
            final(self).free_list() == grown(old(self).bounds(), old(self).free_list(), new_end),
            covered(final(self).free_list()) == covered(old(self).free_list()).union(
                span(range_of(old(self).bounds().end, new_end)),
            ),
            allocated(final(self).bounds(), final(self).free_list()) == allocated(
                old(self).bounds(),
                old(self).free_list(),
            ),
    {
        let initial_range_end = self.initial_range.end;
        let n = self.free_ranges.len();
        if n > 0 && self.free_ranges[n - 1].end == initial_range_end {
            let last_start = self.free_ranges[n - 1].start;
            self.free_ranges.set(n - 1, Range { start: last_start, end: new_end });
        } else {
            self.free_ranges.push(Range { start: initial_range_end, end: new_end });
        }
        self.initial_range.end = new_end;
        proof {
            lemma_grown(old(self).bounds(), old(self).free_list(), new_end);
            law_grow_keeps_allocations(old(self).bounds(), old(self).free_list(), new_end);
        }
    }

    /// Scans the free ranges for the best fit of `length` positions aligned
    /// to `alignment`: the index and aligned start of the best fit, or,
    /// when nothing fits, the summed length of the free ranges.
    fn find_best_fit(&self, length: u64, alignment: u64) -> (res: Result<(usize, u64), u64>)
        requires
            self.wf(),
            length > 0,
            alignment > 0,
        ensures
            match res {
                Ok((k, a)) => {
                    &&& is_best_fit(self.free_list(), length as int, alignment as int, k as int)
                    &&& a == aligned_start(self.free_list()[k as int], alignment as int)
                },
                Err(total) => {
                    &&& !has_fit(self.free_list(), length as int, alignment as int)
                    &&& total == total_len(self.free_list())
                },
            },
    {
        let ghost free = self.free_list();
        let ghost bounds = self.bounds();
        let ghost len = length as int;
        let ghost align = alignment as int;
        let n = self.free_ranges.len();
        let mut fragmented_free_length: u64 = 0;
        let mut best_fit: Option<(usize, u64)> = None;
        let mut index: usize = 0;
        while index < n
            invariant
                self.wf(),
                free == self.free_list(),
                bounds == self.bounds(),
                len == length as int,
                align == alignment as int,
                length > 0,
                alignment > 0,
                n == free.len(),
                index <= n,
                fragmented_free_length == total_len(free.take(index as int)),
                forall|j: int|
                    0 <= j < index && #[trigger] fits(free[j], len, align) ==> slack(free[j], align)
                        > len,
                match best_fit {
                    None => forall|j: int| 0 <= j < index ==> !#[trigger] fits(free[j], len, align),
                    Some((k, a)) => {
                        &&& k < index
                        &&& is_best_fit(free.take(index as int), len, align, k as int)
                        &&& a == aligned_start(free[k as int], align)
                    },
                },
            decreases n - index,
        {
            let range_start = self.free_ranges[index].start;
            let range_end = self.free_ranges[index].end;
            proof {
                lemma_total_take(bounds, free, index as int);
                assert(free.take(index as int + 1)[index as int] == free[index as int]);
                assert forall|j: int| 0 <= j < index implies #[trigger] free.take(
                    index as int + 1,
                )[j] == free[j] && free.take(index as int)[j] == free[j] by {}
            }
            let range_length = range_end - range_start;
            fragmented_free_length = fragmented_free_length + range_length;
            let ghost before = best_fit;
            match align_start(range_start, alignment) {
                None => {},
                Some(aligned) => {
                    if aligned < range_end {
                        let usable_length = range_end - aligned;
                        if usable_length >= length {
                            if usable_length == length {
                                // A perfect fit: nothing can fit better.
                                return Ok((index, aligned));
                            }
                            best_fit = match best_fit {
                                Some((best_index, best_aligned_start)) => {
                                    let best_usable = self.free_ranges[best_index].end
                                        - best_aligned_start;
                                    if usable_length < best_usable {
                                        Some((index, aligned))
                                    } else {
                                        Some((best_index, best_aligned_start))
                                    }
                                },
                                None => Some((index, aligned)),
                            };
                        }
                    }
                },
            }
            proof {
                let t = free.take(index as int + 1);
                match best_fit {
                    None => {},
                    Some((k, a)) => {
                        assert(t[k as int] == free[k as int]);
                        assert forall|j: int|
                            0 <= j < t.len() && #[trigger] fits(t[j], len, align) implies slack(
                                t[k as int],
                                align,
                            ) <= slack(t[j], align) by {
                            assert(t[j] == free[j]);
                            if j < index {
                                assert(free.take(index as int)[j] == free[j]);
                            }
                            match before {
                                Some((bk, ba)) => {
                                    assert(free.take(index as int)[bk as int] == free[bk as int]);
                                },
                                None => {},
                            }
                        }
                        assert forall|j: int|
                            0 <= j < k && #[trigger] fits(t[j], len, align) implies slack(
                                t[k as int],
                                align,
                            ) < slack(t[j], align) by {
                            assert(t[j] == free[j]);
                            assert(free.take(index as int)[j] == free[j]);
                            match before {
                                Some((bk, ba)) => {
                                    assert(free.take(index as int)[bk as int] == free[bk as int]);
                                },
                                None => {},
                            }
                        }
                    },
                }
            }
            index = index + 1;
        }
        proof {
            assert(free.take(n as int) =~= free);
        }
        match best_fit {
            Some((k, a)) => Ok((k, a)),
            None => Err(fragmented_free_length),
        }
    }

    /// Allocates `length` positions at the start of the first multiple of
    /// `alignment` in the best-fitting free range.
    fn allocate_range_impl(&mut self, length: u64, alignment: u64) -> (result: Result<
        Range<u64>,
        RangeAllocationError<u64>,
    >)
        requires
            old(self).wf(),
            length > 0,
            alignment > 0,
        ensures
            final(self).wf(),
            final(self).bounds() == old(self).bounds(),
            allocation_outcome(
                old(self).free_list(),
                length as int,
                alignment as int,
                result,
                final(self).free_list(),
            ),
            result matches Ok(r) ==> {
                &&& span(r).subset_of(covered(old(self).free_list()))
                &&& covered(final(self).free_list()) == covered(old(self).free_list()).difference(
                    span(r),
                )
            },
    {
        match self.find_best_fit(length, alignment) {
            Ok((index, aligned_start)) => {
                let range_start = self.free_ranges[index].start;
                let range_end = self.free_ranges[index].end;
                proof {
                    lemma_align_up(range_start as int, alignment as int);
                }
                let alloc_end = aligned_start + length;

                let has_prefix = aligned_start > range_start;
                let has_suffix = alloc_end < range_end;

                match (has_prefix, has_suffix) {
                    (false, false) => {
                        self.free_ranges.remove(index);
                    },
                    (false, true) => {
                        self.free_ranges.set(index, Range { start: alloc_end, end: range_end });
                    },
                    (true, false) => {
                        self.free_ranges.set(index, Range { start: range_start, end: aligned_start });
                    },
                    (true, true) => {
                        assert(index < self.free_ranges.len());
                        self.free_ranges.set(index, Range { start: range_start, end: aligned_start });
                        self.free_ranges.insert(index + 1, Range { start: alloc_end, end: range_end });
                    },
                }
                let taken = Range { start: aligned_start, end: alloc_end };
                proof {
                    let old_free = old(self).free_list();
                    lemma_best_fit_unique(old_free, length as int, alignment as int, index as int);
                    lemma_carve(old(self).bounds(), old_free, index as int, taken);
                    assert(self.free_ranges@ =~= carve(old_free, index as int, taken));
                }
                Ok(taken)
            },
            Err(fragmented_free_length) => Err(RangeAllocationError { fragmented_free_length }),
        }
    }

    /// Allocates a sub-range of the given `length`.
    ///
    /// Uses a best-fit strategy: the smallest free range that can satisfy
    /// the request is chosen to minimise fragmentation.
    pub fn allocate_range(&mut self, length: u64) -> (result: Result<
        Range<u64>,
        RangeAllocationError<u64>,
    >)
        requires
            old(self).wf(),
            length > 0,
        ensures
            final(self).wf(),
            final(self).bounds() == old(self).bounds(),
            allocation_outcome(old(self).free_list(), length as int, 1, result, final(self).free_list()),
            result matches Ok(r) ==> {
                &&& r.start == old(self).free_list()[best_fit(old(self).free_list(), length as int, 1)].start
                &&& span(r).subset_of(covered(old(self).free_list()))
                &&& covered(final(self).free_list()) == covered(old(self).free_list()).difference(
                    span(r),
                )
            },
    {
        let result = self.allocate_range_impl(length, 1);
        proof {
            if result is Ok {
                let k = best_fit(old(self).free_list(), length as int, 1);
                law_unit_alignment(old(self).free_list()[k], length as int);
            }
        }
        result
    }

    /// Allocates a sub-range of the given `length` whose start is aligned
    /// to a multiple of `alignment`.
    ///
    /// Any space before the aligned start within a free range is kept free
    /// and available for future allocations -- no space is wasted on
    /// alignment padding.
    ///
    /// Uses the same best-fit strategy as [`allocate_range`](Self::allocate_range).
    pub fn allocate_range_aligned(&mut self, length: u64, alignment: u64) -> (result: Result<
        Range<u64>,
        RangeAllocationError<u64>,
    >)
        requires
            old(self).wf(),
            length > 0,
            alignment > 0,
        ensures
            final(self).wf(),
            final(self).bounds() == old(self).bounds(),
            allocation_outcome(
                old(self).free_list(),
                length as int,
                alignment as int,
                result,
                final(self).free_list(),
            ),
            result matches Ok(r) ==> {
                &&& r.start % alignment == 0
                &&& span(r).subset_of(covered(old(self).free_list()))
                &&& covered(final(self).free_list()) == covered(old(self).free_list()).difference(
                    span(r),
                )
            },
    {
        let result = self.allocate_range_impl(length, alignment);
        proof {
            if result is Ok {
                let k = best_fit(old(self).free_list(), length as int, alignment as int);
                lemma_align_up(old(self).free_list()[k].start as int, alignment as int);
            }
        }
        result
    }

    /// Returns a previously allocated range to the free pool.
    ///
    /// Adjacent free ranges are automatically merged to reduce
    /// fragmentation.
    pub fn free_range(&mut self, range: Range<u64>)
        requires
            old(self).wf(),
            old(self).bounds().start <= range.start,
            range.end <= old(self).bounds().end,
            range.start < range.end,
            covered(old(self).free_list()).disjoint(span(range)),
        ensures
            final(self).wf(),
            final(self).bounds() == old(self).bounds(),
            final(self).free_list() == release(old(self).free_list(), range),
            covered(final(self).free_list()) == covered(old(self).free_list()).union(span(range)),
    {
        let ghost free = self.free_list();
        proof {
            lemma_release_shape(self.bounds(), free, range);
            lemma_release(self.bounds(), free, range);
        }
        // Get insertion position.
        let n = self.free_ranges.len();
        let mut i: usize = 0;
        while i < n && self.free_ranges[i].start <= range.start
            invariant
                free == self.free_list(),
                n == free.len(),
                i <= n,
                forall|j: int| 0 <= j < i ==> #[trigger] free[j].start <= range.start,
            decreases n - i,
        {
            i = i + 1;
        }
        proof {
            assert(is_first_after(free, range.start as int, i as int));
            lemma_first_after_unique(
                free,
                range.start as int,
                i as int,
                insert_index(free, range.start as int),
            );
        }
        // Try merging with neighboring ranges in the free list.
        // Before: |left|-(range)-|right|
        if i > 0 && range.start == self.free_ranges[i - 1].end {
            // Merge with |left|, and with |right| too when it touches.
            let new_end = if i < n && range.end == self.free_ranges[i].start {
                let right = self.free_ranges.remove(i);
                right.end
            } else {
                range.end
            };
            let left_start = self.free_ranges[i - 1].start;
            self.free_ranges.set(i - 1, Range { start: left_start, end: new_end });
        } else if i < n && range.end == self.free_ranges[i].start {
            // Merge with |right|.
            let right_end = self.free_ranges[i].end;
            self.free_ranges.set(i, Range { start: range.start, end: right_end });
        } else {
            self.free_ranges.insert(i, range);
        }
        proof {
            assert(self.free_ranges@ =~= release(free, range));
        }
    }

    /// Frees all allocations, restoring the allocator to its initial state.
    pub fn reset(&mut self)
        requires
            old(self).wf(),
        ensures
            final(self).wf(),
            final(self).bounds() == old(self).bounds(),
            final(self).free_list() == seq![old(self).bounds()],
            allocated(final(self).bounds(), final(self).free_list()).len() == 0,
    {
        self.free_ranges.clear();
        self.free_ranges.push(Range { start: self.initial_range.start, end: self.initial_range.end });
        proof {
            assert(self.free_ranges@ =~= seq![self.initial_range]);
            law_fresh_allocator_is_empty(self.initial_range);
        }
    }

    /// Returns `true` if nothing is currently allocated.
    pub fn is_empty(&self) -> (r: bool)
        ensures
            r == (self.free_list().len() == 1 && self.free_list()[0] == self.bounds()),
            self.wf() ==> (r <==> allocated(self.bounds(), self.free_list()).len() == 0),
    {
        proof {
            if self.wf() {
                law_empty_means_nothing_allocated(self.bounds(), self.free_list());
            }
        }
        self.free_ranges.len() == 1 && self.free_ranges[0].start == self.initial_range.start
            && self.free_ranges[0].end == self.initial_range.end
    }

    /// Returns the total length of all free ranges combined.
    ///
    /// This may be spread across multiple non-contiguous ranges, so an
    /// allocation of this size is not guaranteed to succeed.
    pub fn total_available(&self) -> (total: u64)
        requires
            self.wf(),
        ensures
            total == total_len(self.free_list()),
            total + total_len(allocated(self.bounds(), self.free_list())) == self.bounds().end
                - self.bounds().start,
    {
        let ghost free = self.free_list();
        let n = self.free_ranges.len();
        let mut total: u64 = 0;
        let mut i: usize = 0;
        while i < n
            invariant
                self.wf(),
                free == self.free_list(),
                n == free.len(),
                i <= n,
                total == total_len(free.take(i as int)),
            decreases n - i,
        {
            proof {
                lemma_total_take(self.bounds(), free, i as int);
            }
            total = total + (self.free_ranges[i].end - self.free_ranges[i].start);
            i = i + 1;
        }
        proof {
            assert(free.take(n as int) =~= free);
            law_free_and_allocated_fill_bounds(self.bounds(), free);
        }
        total
    }

    /// Returns all currently allocated (non-free) ranges, in ascending
    /// order.
    pub fn allocated_ranges(&self) -> (ranges: Vec<Range<u64>>)
        ensures
            ranges@ == allocated(self.bounds(), self.free_list()),
    {
        let ghost free = self.free_list();
        let ghost bounds = self.bounds();
        let n = self.free_ranges.len();
        let mut ranges: Vec<Range<u64>> = Vec::new();
        if n == 0 {
            ranges.push(Range { start: self.initial_range.start, end: self.initial_range.end });
            proof {
                assert(ranges@ =~= allocated(bounds, free));
            }
            return ranges;
        }
        let first_start = self.free_ranges[0].start;
        if first_start > self.initial_range.start {
            ranges.push(Range { start: self.initial_range.start, end: first_start });
        }
        let ghost head = ranges@;
        let mut i: usize = 0;
        while i + 1 < n
            invariant
                free == self.free_list(),
                n == free.len(),
                n > 0,
                i < n,
                ranges@ == head + Seq::new(
                    i as nat,
                    |j: int| range_of(free[j].end, free[j + 1].start),
                ),
            decreases n - i,
        {
            ranges.push(Range { start: self.free_ranges[i].end, end: self.free_ranges[i + 1].start });
            i = i + 1;
            proof {
                assert(ranges@ =~= head + Seq::new(
                    i as nat,
                    |j: int| range_of(free[j].end, free[j + 1].start),
                ));
            }
        }
        let last_end = self.free_ranges[n - 1].end;
        if last_end < self.initial_range.end {
            ranges.push(Range { start: last_end, end: self.initial_range.end });
        }
        proof {
            assert(ranges@ =~= allocated(bounds, free));
        }
        ranges
    }

}

} // verus!
