//! The mathematical model of an allocator: its bounds, the ordered list of
//! free ranges, and what each operation does to that list.
use crate::error::RangeAllocationError;
use std::ops::Range;
use vstd::prelude::*;

verus! {

/// Does position `p` lie inside the half-open range `r`?
pub open spec fn holds(r: Range<u64>, p: int) -> bool {
    r.start <= p < r.end
}

/// The positions of the half-open range `r`.
pub open spec fn span(r: Range<u64>) -> Set<int> {
    Set::new(|p: int| holds(r, p))
}

/// The positions that lie in some range of `rs`.
pub open spec fn covered(rs: Seq<Range<u64>>) -> Set<int> {
    Set::new(|p: int| exists|i: int| 0 <= i < rs.len() && #[trigger] holds(rs[i], p))
}

/// A range built from its two ends.
pub open spec fn range_of(start: u64, end: u64) -> Range<u64> {
    Range { start, end }
}

/// The well-formedness of a free list inside `bounds`: every range lies in
/// `bounds`, the ranges ascend with a non-empty gap between any two of them
/// (so no two free ranges overlap or touch), a range is empty only when it
/// is the last one and sits at the end of `bounds`, and empty bounds are
/// their own only free range.
pub open spec fn free_list_wf(bounds: Range<u64>, free: Seq<Range<u64>>) -> bool {
    &&& bounds.start <= bounds.end
    &&& forall|i: int|
        0 <= i < free.len() ==> bounds.start <= #[trigger] free[i].start <= free[i].end
            <= bounds.end
    &&& forall|i: int, j: int|
        0 <= i < j < free.len() ==> #[trigger] free[i].end < #[trigger] free[j].start
    &&& forall|i: int|
        0 <= i < free.len() && #[trigger] free[i].start == free[i].end ==> i == free.len() - 1
            && free[i].start == bounds.end
    &&& bounds.start == bounds.end ==> free == seq![bounds]
}

/// The smallest multiple of `alignment` that is not below `start`.
pub open spec fn align_up(start: int, alignment: int) -> int {
    if start % alignment == 0 {
        start
    } else {
        start - start % alignment + alignment
    }
}

/// Where an allocation aligned to `alignment` would start inside `r`.
pub open spec fn aligned_start(r: Range<u64>, alignment: int) -> int {
    align_up(r.start as int, alignment)
}

/// Can `r` hold `length` positions starting at its aligned start?
pub open spec fn fits(r: Range<u64>, length: int, alignment: int) -> bool {
    aligned_start(r, alignment) + length <= r.end
}

/// The room in `r` from its aligned start to its end.
pub open spec fn slack(r: Range<u64>, alignment: int) -> int {
    r.end - aligned_start(r, alignment)
}

/// Does some free range fit the request?
pub open spec fn has_fit(free: Seq<Range<u64>>, length: int, alignment: int) -> bool {
    exists|j: int| 0 <= j < free.len() && #[trigger] fits(free[j], length, alignment)
}

/// Index `k` is the best fit: among the ranges that fit, it leaves the least
/// room, and it is the first one that does so.
pub open spec fn is_best_fit(free: Seq<Range<u64>>, length: int, alignment: int, k: int) -> bool {
    &&& 0 <= k < free.len()
    &&& fits(free[k], length, alignment)
    &&& forall|j: int|
        0 <= j < free.len() && #[trigger] fits(free[j], length, alignment) ==> slack(
            free[k],
            alignment,
        ) <= slack(free[j], alignment)
    &&& forall|j: int|
        0 <= j < k && #[trigger] fits(free[j], length, alignment) ==> slack(free[k], alignment)
            < slack(free[j], alignment)
}

/// The index of the best fit (meaningful when `has_fit` holds).
pub open spec fn best_fit(free: Seq<Range<u64>>, length: int, alignment: int) -> int {
    choose|k: int| is_best_fit(free, length, alignment, k)
}

/// What is left of the free range `f` once `taken` is cut out of it: the
/// part before `taken` and the part after it, each only when not empty.
pub open spec fn leftovers(f: Range<u64>, taken: Range<u64>) -> Seq<Range<u64>> {
    let before: Seq<Range<u64>> = if f.start < taken.start {
        seq![range_of(f.start, taken.start)]
    } else {
        Seq::empty()
    };
    let after: Seq<Range<u64>> = if taken.end < f.end {
        seq![range_of(taken.end, f.end)]
    } else {
        Seq::empty()
    };
    before + after
}

/// The free list after `taken` is cut out of the free range at index `k`:
/// that range is replaced by its leftovers.
pub open spec fn carve(free: Seq<Range<u64>>, k: int, taken: Range<u64>) -> Seq<Range<u64>> {
    free.take(k) + leftovers(free[k], taken) + free.skip(k + 1)
}

/// `i` is the index of the first range that starts after `s` (or the
/// length, when there is none).
pub open spec fn is_first_after(free: Seq<Range<u64>>, s: int, i: int) -> bool {
    &&& 0 <= i <= free.len()
    &&& forall|j: int| 0 <= j < i ==> #[trigger] free[j].start <= s
    &&& i < free.len() ==> free[i].start > s
}

/// Where a range starting at `s` goes in the free list.
pub open spec fn insert_index(free: Seq<Range<u64>>, s: int) -> int {
    choose|i: int| is_first_after(free, s, i)
}

/// Does `r` start where the free range before its place ends?
pub open spec fn joins_left(free: Seq<Range<u64>>, r: Range<u64>) -> bool {
    let i = insert_index(free, r.start as int);
    i > 0 && free[i - 1].end == r.start
}

/// Does `r` end where the free range at its place starts?
pub open spec fn joins_right(free: Seq<Range<u64>>, r: Range<u64>) -> bool {
    let i = insert_index(free, r.start as int);
    i < free.len() && free[i].start == r.end
}

/// The free list after `r` is given back: `r` and the free neighbours that
/// it touches (the one ending where it starts, the one starting where it
/// ends) become a single free range, in order among the others.
pub open spec fn release(free: Seq<Range<u64>>, r: Range<u64>) -> Seq<Range<u64>> {
    let i = insert_index(free, r.start as int);
    let lo = if joins_left(free, r) { i - 1 } else { i };
    let hi = if joins_right(free, r) { i + 1 } else { i };
    let merged = range_of(
        if joins_left(free, r) { free[i - 1].start } else { r.start },
        if joins_right(free, r) { free[i].end } else { r.end },
    );
    free.take(lo) + seq![merged] + free.skip(hi)
}

/// The free list after the bounds grow to end at `new_end`: the last free
/// range is stretched when it reaches the old end, otherwise the new part is
/// appended as a range of its own.
pub open spec fn grown(bounds: Range<u64>, free: Seq<Range<u64>>, new_end: u64) -> Seq<
    Range<u64>,
> {
    if free.len() > 0 && free.last().end == bounds.end {
        free.update(free.len() - 1, range_of(free.last().start, new_end))
    } else {
        free.push(range_of(bounds.end, new_end))
    }
}

/// The allocated ranges: the part of `bounds` before the first free range,
/// the gaps between consecutive free ranges, and the part after the last
/// one, each present only when it is not empty; all of `bounds` when
/// nothing is free.
pub open spec fn allocated(bounds: Range<u64>, free: Seq<Range<u64>>) -> Seq<Range<u64>> {
    let n = free.len();
    if n == 0 {
        seq![bounds]
    } else {
        let head = if free[0].start > bounds.start {
            seq![range_of(bounds.start, free[0].start)]
        } else {
            Seq::empty()
        };
        let gaps = Seq::new((n - 1) as nat, |i: int| range_of(free[i].end, free[i + 1].start));
        let tail = if free[n - 1].end < bounds.end {
            seq![range_of(free[n - 1].end, bounds.end)]
        } else {
            Seq::empty()
        };
        head + gaps + tail
    }
}

/// The summed length of the ranges of `rs`.
pub open spec fn total_len(rs: Seq<Range<u64>>) -> int
    decreases rs.len(),
{
    if rs.len() == 0 {
        0
    } else {
        total_len(rs.drop_last()) + (rs.last().end - rs.last().start)
    }
}

/// What an allocation of `length` positions aligned to `alignment` gives
/// from the free list `free`, with `after` the free list it leaves: the
/// best fit's aligned start and the `length` positions from it, cut out of
/// that free range; or, when no free range fits, an error that carries the
/// summed length of the free ranges, and the free list as it was.
pub open spec fn allocation_outcome(
    free: Seq<Range<u64>>,
    length: int,
    alignment: int,
    result: Result<Range<u64>, RangeAllocationError<u64>>,
    after: Seq<Range<u64>>,
) -> bool {
    match result {
        Ok(r) => {
            let k = best_fit(free, length, alignment);
            &&& has_fit(free, length, alignment)
            &&& r.start == aligned_start(free[k], alignment)
            &&& r.end == r.start + length
            &&& after == carve(free, k, r)
        },
        Err(e) => {
            &&& !has_fit(free, length, alignment)
            &&& e.fragmented_free_length == total_len(free)
            &&& after == free
        },
    }
}

} // verus!
