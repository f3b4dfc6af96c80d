//! What holds of the allocator across its operations, stated over the
//! model that the operations' contracts use.
use crate::lemmas::{
    lemma_align_up, lemma_align_up_unique, lemma_carve, lemma_covered_empty, lemma_first_after_unique, lemma_grown,
    lemma_insert_index, lemma_total_take,
};
use crate::spec::{
    aligned_start, allocated, allocation_outcome, best_fit, carve, covered, fits, free_list_wf,
    grown, has_fit, holds, insert_index, is_best_fit, is_first_after, joins_left, joins_right,
    range_of, release, slack, span, total_len,
};
use std::ops::Range;
use vstd::prelude::*;

verus! {

/// Whenever some free range fits a request, a best fit exists.
pub proof fn lemma_best_fit_exists(free: Seq<Range<u64>>, length: int, alignment: int)
    requires
        has_fit(free, length, alignment),
    ensures
        is_best_fit(free, length, alignment, best_fit(free, length, alignment)),
    decreases free.len(),
{
    let n = free.len() as int;
    let d = free.drop_last();
    let last = free[n - 1];
    assert forall|j: int| 0 <= j < d.len() implies #[trigger] d[j] == free[j] by {}
    let k: int;
    if has_fit(d, length, alignment) {
        lemma_best_fit_exists(d, length, alignment);
        let kd = best_fit(d, length, alignment);
        assert(d[kd] == free[kd]);
        if fits(last, length, alignment) && slack(last, alignment) < slack(free[kd], alignment) {
            k = n - 1;
            assert forall|j: int|
                0 <= j < n && #[trigger] fits(free[j], length, alignment) implies slack(
                    free[k],
                    alignment,
                ) <= slack(free[j], alignment) by {
                if j < n - 1 {
                    assert(fits(d[j], length, alignment));
                }
            }
            assert forall|j: int|
                0 <= j < k && #[trigger] fits(free[j], length, alignment) implies slack(
                    free[k],
                    alignment,
                ) < slack(free[j], alignment) by {
                assert(fits(d[j], length, alignment));
            }
        } else {
            k = kd;
            assert forall|j: int|
                0 <= j < n && #[trigger] fits(free[j], length, alignment) implies slack(
                    free[k],
                    alignment,
                ) <= slack(free[j], alignment) by {
                if j < n - 1 {
                    assert(fits(d[j], length, alignment));
                }
            }
            assert forall|j: int|
                0 <= j < k && #[trigger] fits(free[j], length, alignment) implies slack(
                    free[k],
                    alignment,
                ) < slack(free[j], alignment) by {
                assert(fits(d[j], length, alignment));
            }
        }
    } else {
        let j = choose|j: int| 0 <= j < n && #[trigger] fits(free[j], length, alignment);
        if j < n - 1 {
            assert(fits(d[j], length, alignment));
        }
        k = n - 1;
        assert forall|j: int| 0 <= j < n - 1 implies !#[trigger] fits(free[j], length, alignment) by {
            if fits(free[j], length, alignment) {
                assert(fits(d[j], length, alignment));
            }
        }
    }
    assert(is_best_fit(free, length, alignment, k));
}

/// The range a successful allocation hands out lies inside the best-fitting
/// free range.
pub proof fn lemma_allocation_inside(
    bounds: Range<u64>,
    free: Seq<Range<u64>>,
    length: int,
    alignment: int,
    r: Range<u64>,
    after: Seq<Range<u64>>,
)
    requires
        free_list_wf(bounds, free),
        length > 0,
        alignment > 0,
        allocation_outcome(free, length, alignment, Ok(r), after),
    ensures
        ({
            let k = best_fit(free, length, alignment);
            &&& is_best_fit(free, length, alignment, k)
            &&& free[k].start <= r.start < r.end <= free[k].end
            &&& after == carve(free, k, r)
        }),
{
    lemma_best_fit_exists(free, length, alignment);
    let k = best_fit(free, length, alignment);
    lemma_align_up(free[k].start as int, alignment);
}

/// `s` is the first multiple of `alignment` at or after `start`.
pub open spec fn first_multiple_from(start: int, alignment: int, s: int) -> bool {
    s % alignment == 0 && start <= s < start + alignment
}

/// Best fit, stated on the free list itself. A successful allocation of
/// `length` positions aligned to `alignment` is cut from some free range
/// `free[k]`: it starts at the first multiple of `alignment` at or after
/// that range's start, and it ends inside the range. The room left from its
/// start to the end of `free[k]` is no more than the room from the first
/// aligned position to the end of any free range that has room for the
/// request, and strictly less than that of any such range before `free[k]`.
pub proof fn law_allocation_is_tightest_fit(
    bounds: Range<u64>,
    free: Seq<Range<u64>>,
    length: int,
    alignment: int,
    r: Range<u64>,
    after: Seq<Range<u64>>,
)
    requires
        free_list_wf(bounds, free),
        length > 0,
        alignment > 0,
        allocation_outcome(free, length, alignment, Ok(r), after),
    ensures
        exists|k: int|
            #![trigger free[k]]
            {
                &&& 0 <= k < free.len()
                &&& (r.start as int) % alignment == 0
                &&& free[k].start <= r.start < free[k].start + alignment
                &&& r.end == r.start + length
                &&& r.end <= free[k].end
                &&& forall|j: int, s: int|
                    0 <= j < free.len() && #[trigger] first_multiple_from(free[j].start as int, alignment, s)
                        && s + length <= free[j].end ==> free[k].end
                        - r.start <= free[j].end - s
                &&& forall|j: int, s: int|
                    0 <= j < k && #[trigger] first_multiple_from(free[j].start as int, alignment, s)
                        && s + length <= free[j].end ==> free[k].end - r.start
                        < free[j].end - s
            },
{
    lemma_allocation_inside(bounds, free, length, alignment, r, after);
    let k = best_fit(free, length, alignment);
    lemma_align_up(free[k].start as int, alignment);
    assert forall|j: int, s: int|
        0 <= j < free.len() && #[trigger] first_multiple_from(free[j].start as int, alignment, s)
            && s + length <= free[j].end implies free[k].end - r.start
        <= free[j].end - s && (j < k ==> free[k].end - r.start < free[j].end - s) by {
        lemma_align_up_unique(free[j].start as int, alignment, s);
        assert(fits(free[j], length, alignment));
    }
    assert(free[k] == free[k]);
}

/// Best fit without alignment: a successful allocation of `length`
/// positions starts at the start of some free range `free[k]`, and that
/// range is the shortest of the free ranges at least `length` long, and
/// strictly shorter than any such range before it.
pub proof fn law_unaligned_allocation_is_tightest_fit(
    bounds: Range<u64>,
    free: Seq<Range<u64>>,
    length: int,
    r: Range<u64>,
    after: Seq<Range<u64>>,
)
    requires
        free_list_wf(bounds, free),
        length > 0,
        allocation_outcome(free, length, 1, Ok(r), after),
    ensures
        exists|k: int|
            #![trigger free[k]]
            {
                &&& 0 <= k < free.len()
                &&& r.start == free[k].start
                &&& r.end == r.start + length
                &&& r.end <= free[k].end
                &&& forall|j: int|
                    0 <= j < free.len() && length <= #[trigger] free[j].end - free[j].start
                        ==> free[k].end - free[k].start <= free[j].end - free[j].start
                &&& forall|j: int|
                    0 <= j < k && length <= #[trigger] free[j].end - free[j].start ==> free[k].end
                        - free[k].start < free[j].end - free[j].start
            },
{
    law_allocation_is_tightest_fit(bounds, free, length, 1, r, after);
    let k = choose|k: int|
        #![trigger free[k]]
        {
            &&& 0 <= k < free.len()
            &&& (r.start as int) % 1 == 0
            &&& free[k].start <= r.start < free[k].start + 1
            &&& r.end == r.start + length
            &&& r.end <= free[k].end
            &&& forall|j: int, s: int|
                0 <= j < free.len() && #[trigger] first_multiple_from(free[j].start as int, 1, s)
                    && s + length <= free[j].end ==> free[k].end - r.start <= free[j].end - s
            &&& forall|j: int, s: int|
                0 <= j < k && #[trigger] first_multiple_from(free[j].start as int, 1, s)
                    && s + length <= free[j].end ==> free[k].end - r.start < free[j].end - s
        };
    assert forall|j: int|
        0 <= j < free.len() && length <= #[trigger] free[j].end - free[j].start implies free[k].end
        - free[k].start <= free[j].end - free[j].start && (j < k ==> free[k].end - free[k].start
        < free[j].end - free[j].start) by {
        let s = free[j].start as int;
        assert(first_multiple_from(free[j].start as int, 1, s));
        assert(s + length <= free[j].end);
    }
}

/// An allocation fails only when no free range has room for the request:
/// for every free range, the `length` positions from its first multiple of
/// `alignment` would run past its end. The free list is left as it was, and
/// the error's free length is what the allocated ranges leave of the bounds.
pub proof fn law_allocation_fails_only_without_room(
    bounds: Range<u64>,
    free: Seq<Range<u64>>,
    length: int,
    alignment: int,
    e: crate::error::RangeAllocationError<u64>,
    after: Seq<Range<u64>>,
)
    requires
        free_list_wf(bounds, free),
        length > 0,
        alignment > 0,
        allocation_outcome(free, length, alignment, Err(e), after),
    ensures
        after == free,
        e.fragmented_free_length + total_len(allocated(bounds, free)) == bounds.end - bounds.start,
        forall|j: int, s: int|
            0 <= j < free.len() && #[trigger] first_multiple_from(free[j].start as int, alignment, s)
                ==> s + length > free[j].end,
{
    law_free_and_allocated_fill_bounds(bounds, free);
    assert forall|j: int, s: int|
        0 <= j < free.len() && #[trigger] first_multiple_from(free[j].start as int, alignment, s)
            implies s + length > free[j].end by {
        lemma_align_up_unique(free[j].start as int, alignment, s);
        if s + length <= free[j].end {
            assert(fits(free[j], length, alignment));
        }
    }
}

/// What an allocation hands out was free and is free no longer; it lies in
/// the bounds, and the free list stays well-formed.
pub proof fn law_allocation_takes_free_positions(
    bounds: Range<u64>,
    free: Seq<Range<u64>>,
    length: int,
    alignment: int,
    r: Range<u64>,
    after: Seq<Range<u64>>,
)
    requires
        free_list_wf(bounds, free),
        length > 0,
        alignment > 0,
        allocation_outcome(free, length, alignment, Ok(r), after),
    ensures
        free_list_wf(bounds, after),
        bounds.start <= r.start < r.end <= bounds.end,
        r.end - r.start == length,
        (r.start as int) % alignment == 0,
        span(r).subset_of(covered(free)),
        covered(after) == covered(free).difference(span(r)),
{
    lemma_allocation_inside(bounds, free, length, alignment, r, after);
    let k = best_fit(free, length, alignment);
    lemma_carve(bounds, free, k, r);
    lemma_align_up(free[k].start as int, alignment);
}

/// Two allocations made one after the other hand out ranges that do not
/// overlap.
pub proof fn law_allocations_do_not_overlap(
    bounds: Range<u64>,
    free0: Seq<Range<u64>>,
    length1: int,
    alignment1: int,
    r1: Range<u64>,
    free1: Seq<Range<u64>>,
    length2: int,
    alignment2: int,
    r2: Range<u64>,
    free2: Seq<Range<u64>>,
)
    requires
        free_list_wf(bounds, free0),
        length1 > 0,
        alignment1 > 0,
        length2 > 0,
        alignment2 > 0,
        allocation_outcome(free0, length1, alignment1, Ok(r1), free1),
        allocation_outcome(free1, length2, alignment2, Ok(r2), free2),
    ensures
        span(r1).disjoint(span(r2)),
        r1.end <= r2.start || r2.end <= r1.start,
{
    law_allocation_takes_free_positions(bounds, free0, length1, alignment1, r1, free1);
    law_allocation_takes_free_positions(bounds, free1, length2, alignment2, r2, free2);
    if !(r1.end <= r2.start || r2.end <= r1.start) {
        let p = if r1.start <= r2.start { r2.start as int } else { r1.start as int };
        assert(span(r1).contains(p) && span(r2).contains(p));
    }
}

/// Giving back what an allocation handed out restores the free list it was
/// taken from, exactly; and the range handed out meets what giving back
/// asks of it.
pub proof fn law_free_undoes_allocation(
    bounds: Range<u64>,
    free: Seq<Range<u64>>,
    length: int,
    alignment: int,
    r: Range<u64>,
    after: Seq<Range<u64>>,
)
    requires
        free_list_wf(bounds, free),
        length > 0,
        alignment > 0,
        allocation_outcome(free, length, alignment, Ok(r), after),
    ensures
        bounds.start <= r.start < r.end <= bounds.end,
        covered(after).disjoint(span(r)),
        release(after, r) == free,
{
    law_allocation_takes_free_positions(bounds, free, length, alignment, r, after);
    lemma_allocation_inside(bounds, free, length, alignment, r, after);
    let k = best_fit(free, length, alignment);
    lemma_release_of_carve(bounds, free, k, r);
}

/// Cutting `taken` out of the free range at `k` and giving it back yields
/// the free list again.
pub proof fn lemma_release_of_carve(
    bounds: Range<u64>,
    free: Seq<Range<u64>>,
    k: int,
    taken: Range<u64>,
)
    requires
        free_list_wf(bounds, free),
        0 <= k < free.len(),
        free[k].start <= taken.start < taken.end <= free[k].end,
    ensures
        release(carve(free, k, taken), taken) == free,
{
    let n = free.len() as int;
    let f = free[k];
    let g = carve(free, k, taken);
    let has_before = f.start < taken.start;
    let has_after = taken.end < f.end;
    let lc = (if has_before { 1int } else { 0int }) + (if has_after { 1int } else { 0int });
    assert(g.len() == n - 1 + lc);
    assert forall|j: int|
        0 <= j < g.len() implies #[trigger] g[j] == (if j < k {
            free[j]
        } else if j < k + lc {
            if j == k && has_before {
                range_of(f.start, taken.start)
            } else {
                range_of(taken.end, f.end)
            }
        } else {
            free[j - lc + 1]
        }) by {}
    // `taken` goes back where the piece before it ends, or in its old place.
    let i = if has_before { k + 1 } else { k };
    assert forall|j: int| 0 <= j < i implies #[trigger] g[j].start <= taken.start by {
        if j < k {
            assert(free[j].end < f.start);
        }
    }
    if i < g.len() {
        if i < k + lc {
        } else {
            assert(f.end < free[i - lc + 1].start);
        }
    }
    assert(is_first_after(g, taken.start as int, i));
    lemma_insert_index(g, taken.start as int);
    lemma_first_after_unique(g, taken.start as int, i, insert_index(g, taken.start as int));
    if !has_before && k > 0 {
        assert(free[k - 1].end < f.start);
    }
    if !has_after && k + 1 < n {
        assert(f.end < free[k + 1].start);
    }
    assert(joins_left(g, taken) == has_before);
    assert(joins_right(g, taken) == has_after);
    assert(release(g, taken) =~= free);
}

/// The allocated ranges, by index: the head (when the first free range
/// starts after the bounds start), the gaps, then the tail.
pub proof fn lemma_allocated_index(bounds: Range<u64>, free: Seq<Range<u64>>)
    requires
        free_list_wf(bounds, free),
        free.len() > 0,
    ensures
        ({
            let n = free.len() as int;
            let al = allocated(bounds, free);
            let h = if free[0].start > bounds.start { 1int } else { 0int };
            &&& al.len() == h + (n - 1) + (if free[n - 1].end < bounds.end { 1int } else { 0int })
            &&& forall|j: int|
                0 <= j < al.len() ==> #[trigger] al[j] == (if j < h {
                    range_of(bounds.start, free[0].start)
                } else if j < h + n - 1 {
                    range_of(free[j - h].end, free[j - h + 1].start)
                } else {
                    range_of(free[n - 1].end, bounds.end)
                })
        }),
{
}

/// The allocated ranges ascend, none of them is empty, and consecutive ones
/// do not touch.
pub proof fn lemma_allocated_ascending(bounds: Range<u64>, free: Seq<Range<u64>>)
    requires
        free_list_wf(bounds, free),
    ensures
        forall|i: int|
            0 <= i < allocated(bounds, free).len() ==> #[trigger] allocated(bounds, free)[i].start
                < allocated(bounds, free)[i].end,
        forall|i: int, j: int|
            0 <= i < j < allocated(bounds, free).len() ==> #[trigger] allocated(bounds, free)[i].end
                < #[trigger] allocated(bounds, free)[j].start,
{
    let n = free.len() as int;
    let al = allocated(bounds, free);
    if n > 0 {
        lemma_allocated_index(bounds, free);
        let h = if free[0].start > bounds.start { 1int } else { 0int };
        assert forall|i: int| 0 <= i < al.len() implies #[trigger] al[i].start < al[i].end by {
            if h <= i < h + n - 1 {
                assert(free[i - h].end < free[i - h + 1].start);
            }
        }
        assert forall|i: int, j: int| 0 <= i < j < al.len() implies #[trigger] al[i].end
            < #[trigger] al[j].start by {
            assert(bounds.start <= free[0].start <= free[0].end);
            if i < h {
                if j < h + n - 1 {
                    assert(free[0].start <= free[j - h].start <= free[j - h].end);
                }
            } else if i < h + n - 1 {
                let ii = i - h + 1;
                assert(free[ii].start <= free[ii].end);
                if j < h + n - 1 {
                    let jj = j - h;
                    if ii < jj {
                        assert(free[ii].end < free[jj].start);
                    }
                    assert(free[jj].start <= free[jj].end);
                } else {
                    if ii < n - 1 {
                        assert(free[ii].end < free[n - 1].start);
                    }
                    assert(free[n - 1].start <= free[n - 1].end);
                }
            }
        }
    }
}

/// No allocated position is free, and each lies in the bounds.
proof fn lemma_allocated_not_free(bounds: Range<u64>, free: Seq<Range<u64>>, p: int)
    requires
        free_list_wf(bounds, free),
        covered(allocated(bounds, free)).contains(p),
    ensures
        span(bounds).contains(p),
        !covered(free).contains(p),
{
    let n = free.len() as int;
    let al = allocated(bounds, free);
    let i = choose|i: int| 0 <= i < al.len() && #[trigger] holds(al[i], p);
    if n > 0 {
        lemma_allocated_index(bounds, free);
        let h = if free[0].start > bounds.start { 1int } else { 0int };
        assert(bounds.start <= free[0].start);
        assert(bounds.start <= free[n - 1].start);
        assert(free[n - 1].end <= bounds.end);
        if i < h {
            assert forall|q: int| 0 <= q < n implies !#[trigger] holds(free[q], p) by {
                assert(bounds.start <= free[q].start);
                if q > 0 {
                    assert(free[0].end < free[q].start);
                }
            }
        } else if i < h + n - 1 {
            let a = i - h;
            assert(bounds.start <= free[a].start);
            assert(bounds.start <= free[a + 1].start);
            if a > 0 {
                assert(free[0].end < free[a].start);
            }
            assert forall|q: int| 0 <= q < n implies !#[trigger] holds(free[q], p) by {
                assert(bounds.start <= free[q].start);
                if q < a {
                    assert(free[q].end < free[a].start);
                } else if q > a + 1 {
                    assert(free[a + 1].end < free[q].start);
                }
            }
        } else {
            assert forall|q: int| 0 <= q < n implies !#[trigger] holds(free[q], p) by {
                assert(bounds.start <= free[q].start);
                if q < n - 1 {
                    assert(free[q].end < free[n - 1].start);
                }
            }
        }
    }
}

/// Each position of the bounds that is not free is allocated.
proof fn lemma_not_free_allocated(bounds: Range<u64>, free: Seq<Range<u64>>, p: int)
    requires
        free_list_wf(bounds, free),
        span(bounds).contains(p),
        !covered(free).contains(p),
    ensures
        covered(allocated(bounds, free)).contains(p),
{
    let n = free.len() as int;
    let al = allocated(bounds, free);
    if n == 0 {
        assert(holds(al[0], p));
    } else {
        lemma_allocated_index(bounds, free);
        let h = if free[0].start > bounds.start { 1int } else { 0int };
        lemma_insert_index(free, p);
        let x = insert_index(free, p);
        if x == 0 {
            assert(holds(al[0], p));
        } else {
            assert(!holds(free[x - 1], p));
            assert(bounds.start <= free[x - 1].start);
            if x < n {
                assert(holds(al[h + x - 1], p));
            } else {
                assert(bounds.start <= free[n - 1].start);
                assert(holds(al[al.len() - 1], p));
            }
        }
    }
}

/// The allocated ranges ascend, none of them is empty, consecutive ones do
/// not touch, and together they cover exactly the positions of the bounds
/// that are not free.
pub proof fn law_allocated_is_complement(bounds: Range<u64>, free: Seq<Range<u64>>)
    requires
        free_list_wf(bounds, free),
    ensures
        forall|i: int|
            0 <= i < allocated(bounds, free).len() ==> #[trigger] allocated(bounds, free)[i].start
                < allocated(bounds, free)[i].end,
        forall|i: int, j: int|
            0 <= i < j < allocated(bounds, free).len() ==> #[trigger] allocated(bounds, free)[i].end
                < #[trigger] allocated(bounds, free)[j].start,
        covered(allocated(bounds, free)) == span(bounds).difference(covered(free)),
{
    lemma_allocated_ascending(bounds, free);
    assert forall|p: int| #[trigger] covered(allocated(bounds, free)).contains(p) <==> span(
        bounds,
    ).contains(p) && !covered(free).contains(p) by {
        if covered(allocated(bounds, free)).contains(p) {
            lemma_allocated_not_free(bounds, free, p);
        }
        if span(bounds).contains(p) && !covered(free).contains(p) {
            lemma_not_free_allocated(bounds, free, p);
        }
    }
    assert(covered(allocated(bounds, free)) =~= span(bounds).difference(covered(free)));
}

/// The summed length of a concatenation adds those of its parts.
pub proof fn lemma_total_concat(a: Seq<Range<u64>>, b: Seq<Range<u64>>)
    ensures
        total_len(a + b) == total_len(a) + total_len(b),
    decreases b.len(),
{
    if b.len() == 0 {
        assert(a + b =~= a);
    } else {
        assert((a + b).drop_last() =~= a + b.drop_last());
        lemma_total_concat(a, b.drop_last());
    }
}

/// The summed length of a single range is its length.
pub proof fn lemma_total_single(r: Range<u64>)
    ensures
        total_len(seq![r]) == r.end - r.start,
{
    assert(seq![r].drop_last() =~= Seq::<Range<u64>>::empty());
    assert(total_len(Seq::<Range<u64>>::empty()) == 0);
}

/// The first `m` free ranges and the gaps between them span from the start
/// of the first to the end of the `m`-th.
proof fn lemma_telescope(bounds: Range<u64>, free: Seq<Range<u64>>, m: int)
    requires
        free_list_wf(bounds, free),
        1 <= m <= free.len(),
    ensures
        total_len(free.take(m)) + total_len(
            Seq::new((m - 1) as nat, |i: int| range_of(free[i].end, free[i + 1].start)),
        ) == free[m - 1].end - free[0].start,
    decreases m,
{
    let gaps = Seq::new((m - 1) as nat, |i: int| range_of(free[i].end, free[i + 1].start));
    if m == 1 {
        assert(free.take(1) =~= seq![free[0]]);
        lemma_total_single(free[0]);
    } else {
        lemma_telescope(bounds, free, m - 1);
        lemma_total_take(bounds, free, m - 1);
        let prev = Seq::new((m - 2) as nat, |i: int| range_of(free[i].end, free[i + 1].start));
        assert(gaps.drop_last() =~= prev);
    }
}

/// Conservation: the free length and the allocated length add up to the
/// length of the bounds.
pub proof fn law_free_and_allocated_fill_bounds(bounds: Range<u64>, free: Seq<Range<u64>>)
    requires
        free_list_wf(bounds, free),
    ensures
        total_len(free) + total_len(allocated(bounds, free)) == bounds.end
            - bounds.start,
{
    let n = free.len() as int;
    if n == 0 {
        lemma_total_single(bounds);
    } else {
        let head: Seq<Range<u64>> = if free[0].start > bounds.start {
            seq![range_of(bounds.start, free[0].start)]
        } else {
            Seq::empty()
        };
        let gaps = Seq::new((n - 1) as nat, |i: int| range_of(free[i].end, free[i + 1].start));
        let tail: Seq<Range<u64>> = if free[n - 1].end < bounds.end {
            seq![range_of(free[n - 1].end, bounds.end)]
        } else {
            Seq::empty()
        };
        assert(allocated(bounds, free) == head + gaps + tail);
        lemma_total_concat(head + gaps, tail);
        lemma_total_concat(head, gaps);
        lemma_total_single(range_of(bounds.start, free[0].start));
        lemma_total_single(range_of(free[n - 1].end, bounds.end));
        lemma_telescope(bounds, free, n);
        assert(free.take(n) =~= free);
        assert(bounds.start <= free[0].start);
        assert(bounds.start <= free[n - 1].start);
    }
}

/// The free positions never leave the bounds.
pub proof fn lemma_covered_in_bounds(bounds: Range<u64>, free: Seq<Range<u64>>)
    requires
        free_list_wf(bounds, free),
    ensures
        covered(free).subset_of(span(bounds)),
{
    assert forall|p: int| #[trigger] covered(free).contains(p) implies span(bounds).contains(p) by {
        let i = choose|i: int| 0 <= i < free.len() && #[trigger] holds(free[i], p);
        assert(bounds.start <= free[i].start);
    }
}

/// Nothing is allocated exactly when the free list is the whole bounds as
/// one range, which is exactly when every position of the bounds is free.
pub proof fn law_empty_means_nothing_allocated(bounds: Range<u64>, free: Seq<Range<u64>>)
    requires
        free_list_wf(bounds, free),
    ensures
        (free.len() == 1 && free[0] == bounds) <==> allocated(bounds, free).len() == 0,
        (free.len() == 1 && free[0] == bounds) <==> covered(free) == span(bounds),
{
    let n = free.len() as int;
    let al = allocated(bounds, free);
    law_allocated_is_complement(bounds, free);
    lemma_covered_in_bounds(bounds, free);
    if n > 0 {
        lemma_allocated_index(bounds, free);
    }
    if al.len() == 0 {
        assert(n == 1);
        assert(free[0] == range_of(bounds.start, bounds.end));
    }
    if n == 1 && free[0] == bounds {
        assert(al.len() == 0);
    }
    if covered(free) == span(bounds) {
        if al.len() > 0 {
            assert(holds(al[0], al[0].start as int));
            assert(covered(al).contains(al[0].start as int));
        }
    }
    if al.len() == 0 {
        lemma_covered_empty();
        assert(al =~= Seq::<Range<u64>>::empty());
        assert(covered(free) =~= span(bounds));
    }
}

/// A fresh (or reset) allocator, whose only free range is its bounds, is
/// well-formed, has nothing allocated, and has all of its bounds available.
pub proof fn law_fresh_allocator_is_empty(bounds: Range<u64>)
    requires
        bounds.start <= bounds.end,
    ensures
        free_list_wf(bounds, seq![bounds]),
        allocated(bounds, seq![bounds]).len() == 0,
        total_len(seq![bounds]) == bounds.end - bounds.start,
{
    lemma_total_single(bounds);
    law_empty_means_nothing_allocated(bounds, seq![bounds]);
}

/// Growing the bounds leaves what is allocated as it was.
pub proof fn law_grow_keeps_allocations(bounds: Range<u64>, free: Seq<Range<u64>>, new_end: u64)
    requires
        free_list_wf(bounds, free),
        bounds.end <= new_end,
    ensures
        allocated(range_of(bounds.start, new_end), grown(bounds, free, new_end))
            == allocated(bounds, free),
{
    let n = free.len() as int;
    let nb = range_of(bounds.start, new_end);
    let g = grown(bounds, free, new_end);
    lemma_grown(bounds, free, new_end);
    if n > 0 && free.last().end == bounds.end {
        assert(g.len() == n);
        assert(g[0].start == free[0].start);
        assert(allocated(nb, g) =~= allocated(bounds, free));
    } else {
        if n == 0 {
            assert(bounds.start < bounds.end);
            assert(allocated(nb, g) =~= seq![range_of(bounds.start, bounds.end)]);
        } else {
            assert(free.last() == free[n - 1]);
            assert(bounds.start <= free[n - 1].start);
            assert(g[0] == free[0]);
            assert(allocated(nb, g) =~= allocated(bounds, free));
        }
    }
}

/// Alignment to 1 is no alignment: an allocation starts at the start of the
/// free range it is taken from, and a free range fits exactly when it is at
/// least as long as the request.
pub proof fn law_unit_alignment(r: Range<u64>, length: int)
    ensures
        aligned_start(r, 1) == r.start,
        fits(r, length, 1) <==> r.end - r.start >= length,
        slack(r, 1) == r.end - r.start,
{
}

} // verus!
