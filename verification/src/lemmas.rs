//! Facts about the model in `spec` that the operations and the laws rest on.
use crate::spec::{
    align_up, best_fit, carve, covered, fits, free_list_wf, grown, holds, insert_index, is_best_fit,
    is_first_after, joins_left, joins_right, leftovers, range_of, release, span, total_len,
};
use std::ops::Range;
use vstd::prelude::*;

verus! {

/// The positions covered by a concatenation are those covered by either part.
pub proof fn lemma_covered_concat(a: Seq<Range<u64>>, b: Seq<Range<u64>>)
    ensures
        covered(a + b) == covered(a).union(covered(b)),
{
    assert forall|p: int| #[trigger]
        covered(a + b).contains(p) <==> covered(a).contains(p) || covered(b).contains(p) by {
        if covered(a + b).contains(p) {
            let i = choose|i: int| 0 <= i < (a + b).len() && #[trigger] holds((a + b)[i], p);
            if i < a.len() {
                assert(holds(a[i], p));
            } else {
                assert(holds(b[i - a.len()], p));
            }
        }
        if covered(a).contains(p) {
            let i = choose|i: int| 0 <= i < a.len() && #[trigger] holds(a[i], p);
            assert((a + b)[i] == a[i]);
            assert(holds((a + b)[i], p));
        }
        if covered(b).contains(p) {
            let i = choose|i: int| 0 <= i < b.len() && #[trigger] holds(b[i], p);
            assert((a + b)[i + a.len()] == b[i]);
            assert(holds((a + b)[i + a.len()], p));
        }
    }
    assert(covered(a + b) =~= covered(a).union(covered(b)));
}

/// A single range covers its own span.
pub proof fn lemma_covered_single(r: Range<u64>)
    ensures
        covered(seq![r]) == span(r),
{
    assert forall|p: int| #[trigger] covered(seq![r]).contains(p) <==> span(r).contains(p) by {
        if span(r).contains(p) {
            assert(holds(seq![r][0], p));
        }
    }
    assert(covered(seq![r]) =~= span(r));
}

/// Nothing is covered by an empty list.
pub proof fn lemma_covered_empty()
    ensures
        covered(Seq::<Range<u64>>::empty()) == Set::<int>::empty(),
{
    assert(covered(Seq::<Range<u64>>::empty()) =~= Set::<int>::empty());
}

/// In a well-formed free list, the ranges before index `m` lie below the
/// range at `m`, and those after it lie above it.
pub proof fn lemma_sides(bounds: Range<u64>, free: Seq<Range<u64>>, m: int)
    requires
        free_list_wf(bounds, free),
        0 <= m < free.len(),
    ensures
        forall|p: int| #[trigger] covered(free.take(m)).contains(p) ==> p < free[m].start,
        forall|p: int| #[trigger] covered(free.skip(m + 1)).contains(p) ==> p > free[m].end,
{
    assert forall|p: int| #[trigger] covered(free.take(m)).contains(p) implies p
        < free[m].start by {
        let i = choose|i: int| 0 <= i < free.take(m).len() && #[trigger] holds(free.take(m)[i], p);
        assert(free.take(m)[i] == free[i]);
        assert(free[i].end < free[m].start);
    }
    assert forall|p: int| #[trigger] covered(free.skip(m + 1)).contains(p) implies p
        > free[m].end by {
        let i = choose|i: int|
            0 <= i < free.skip(m + 1).len() && #[trigger] holds(free.skip(m + 1)[i], p);
        assert(free.skip(m + 1)[i] == free[i + m + 1]);
        assert(free[m].end < free[i + m + 1].start);
    }
}

/// The free range at `m` is covered together with the ones around it.
pub proof fn lemma_covered_around(free: Seq<Range<u64>>, m: int)
    requires
        0 <= m < free.len(),
    ensures
        covered(free) == covered(free.take(m)).union(span(free[m])).union(
            covered(free.skip(m + 1)),
        ),
{
    assert(free =~= free.take(m) + seq![free[m]] + free.skip(m + 1));
    lemma_covered_concat(free.take(m) + seq![free[m]], free.skip(m + 1));
    lemma_covered_concat(free.take(m), seq![free[m]]);
    lemma_covered_single(free[m]);
}

/// Cutting a non-empty `taken` out of the free range at `k` keeps the list
/// well-formed, and exactly the positions of `taken` stop being free.
pub proof fn lemma_carve(bounds: Range<u64>, free: Seq<Range<u64>>, k: int, taken: Range<u64>)
    requires
        free_list_wf(bounds, free),
        0 <= k < free.len(),
        free[k].start <= taken.start < taken.end <= free[k].end,
    ensures
        free_list_wf(bounds, carve(free, k, taken)),
        span(taken).subset_of(covered(free)),
        covered(carve(free, k, taken)) == covered(free).difference(span(taken)),
{
    let f = free[k];
    let a = free.take(k);
    let l = leftovers(f, taken);
    let b = free.skip(k + 1);
    let g = carve(free, k, taken);
    assert(g == a + l + b);
    assert forall|i: int| 0 <= i < l.len() implies f.start <= (#[trigger] l[i]).start < l[i].end
        <= f.end && (l[i].end <= taken.start || taken.end <= l[i].start) by {}
    assert(l.len() == 2 ==> l[0].end < l[1].start);
    assert forall|i: int|
        0 <= i < g.len() implies #[trigger] g[i] == (if i < k {
            free[i]
        } else if i < k + l.len() {
            l[i - k]
        } else {
            free[i - l.len() + 1]
        }) by {}
    assert forall|i: int, j: int| 0 <= i < j < g.len() implies #[trigger] g[i].end
        < #[trigger] g[j].start by {
        if j < k {
        } else if j < k + l.len() {
            if i < k {
                assert(free[i].end < f.start);
            }
        } else {
            let jj = j - l.len() + 1;
            assert(f.end < free[jj].start);
            if i < k {
                assert(free[i].end < free[jj].start);
            } else if i < k + l.len() {
            } else {
                assert(free[i - l.len() + 1].end < free[jj].start);
            }
        }
    }
    assert forall|i: int| 0 <= i < g.len() implies bounds.start <= #[trigger] g[i].start
        <= g[i].end <= bounds.end by {
        if i < k {
        } else if i < k + l.len() {
        } else {
            let ii = i - l.len() + 1;
            assert(bounds.start <= free[ii].start <= free[ii].end <= bounds.end);
        }
    }
    assert forall|i: int| 0 <= i < g.len() && #[trigger] g[i].start == g[i].end implies i
        == g.len() - 1 && g[i].start == bounds.end by {
        if i < k {
            assert(free[i].start == free[i].end);
        } else if i < k + l.len() {
        } else {
            let ii = i - l.len() + 1;
            assert(free[ii].start == free[ii].end);
        }
    }
    // Which positions are free.
    lemma_covered_around(free, k);
    lemma_sides(bounds, free, k);
    lemma_covered_concat(a + l, b);
    lemma_covered_concat(a, l);
    assert forall|p: int| #[trigger] covered(l).contains(p) <==> span(f).contains(p) && !span(
        taken,
    ).contains(p) by {
        if covered(l).contains(p) {
            let i = choose|i: int| 0 <= i < l.len() && #[trigger] holds(l[i], p);
        }
        if span(f).contains(p) && !span(taken).contains(p) {
            if p < taken.start {
                assert(holds(l[0], p));
            } else {
                assert(holds(l[l.len() - 1], p));
            }
        }
    }
    assert(span(taken).subset_of(covered(free)));
    assert(covered(g) =~= covered(free).difference(span(taken)));
}

/// At most one index is the first one after `s`.
pub proof fn lemma_first_after_unique(free: Seq<Range<u64>>, s: int, i1: int, i2: int)
    requires
        is_first_after(free, s, i1),
        is_first_after(free, s, i2),
    ensures
        i1 == i2,
{
    if i1 < i2 {
        assert(free[i1].start <= s);
    } else if i2 < i1 {
        assert(free[i2].start <= s);
    }
}

/// Every list has an index of the first range after `s`, and
/// `insert_index` is that index.
pub proof fn lemma_insert_index(free: Seq<Range<u64>>, s: int)
    ensures
        is_first_after(free, s, insert_index(free, s)),
    decreases free.len(),
{
    if free.len() == 0 {
        assert(is_first_after(free, s, 0));
    } else {
        let d = free.drop_last();
        lemma_insert_index(d, s);
        let i = insert_index(d, s);
        assert forall|j: int| 0 <= j < d.len() implies #[trigger] free[j] == d[j] by {}
        if i < d.len() {
            assert(is_first_after(free, s, i));
        } else if free.last().start > s {
            assert(is_first_after(free, s, i));
        } else {
            assert(is_first_after(free, s, free.len() as int));
        }
    }
}

/// Replacing the free ranges from `lo` up to `hi` by one non-empty range
/// that lies strictly between its neighbours keeps the list well-formed.
pub proof fn lemma_splice_wf(
    bounds: Range<u64>,
    free: Seq<Range<u64>>,
    lo: int,
    hi: int,
    merged: Range<u64>,
)
    requires
        free_list_wf(bounds, free),
        0 <= lo <= hi <= free.len(),
        bounds.start <= merged.start < merged.end <= bounds.end,
        forall|j: int| 0 <= j < lo ==> #[trigger] free[j].end < merged.start,
        forall|j: int| hi <= j < free.len() ==> #[trigger] free[j].start > merged.end,
    ensures
        free_list_wf(bounds, free.take(lo) + seq![merged] + free.skip(hi)),
{
    let n = free.len() as int;
    let g = free.take(lo) + seq![merged] + free.skip(hi);
    assert(g.len() == lo + 1 + n - hi);
    assert forall|j: int|
        0 <= j < g.len() implies #[trigger] g[j] == (if j < lo {
            free[j]
        } else if j == lo {
            merged
        } else {
            free[j - lo - 1 + hi]
        }) by {}
    assert forall|x: int, y: int| 0 <= x < y < g.len() implies #[trigger] g[x].end
        < #[trigger] g[y].start by {
        if y < lo {
        } else if y == lo {
        } else {
            let yy = y - lo - 1 + hi;
            if x < lo {
                assert(free[x].end < free[yy].start);
            } else if x == lo {
            } else {
                assert(free[x - lo - 1 + hi].end < free[yy].start);
            }
        }
    }
    assert forall|j: int| 0 <= j < g.len() implies bounds.start <= #[trigger] g[j].start
        <= g[j].end <= bounds.end by {
        if j < lo {
        } else if j == lo {
        } else {
            let jj = j - lo - 1 + hi;
            assert(bounds.start <= free[jj].start <= free[jj].end <= bounds.end);
        }
    }
    assert forall|j: int| 0 <= j < g.len() && #[trigger] g[j].start == g[j].end implies j
        == g.len() - 1 && g[j].start == bounds.end by {
        if j < lo {
            assert(bounds.start <= free[j].start);
            assert(free[j].start == free[j].end);
        } else if j == lo {
        } else {
            let jj = j - lo - 1 + hi;
            assert(bounds.start <= free[jj].start);
            assert(free[jj].start == free[jj].end);
        }
    }
}

/// Where a range given back goes: the free range before its place ends at
/// or before its start, the one at its place starts at or after its end,
/// and the result is the list with the touched neighbours and the range
/// merged into one.
pub proof fn lemma_release_shape(bounds: Range<u64>, free: Seq<Range<u64>>, r: Range<u64>)
    requires
        free_list_wf(bounds, free),
        bounds.start <= r.start < r.end <= bounds.end,
        covered(free).disjoint(span(r)),
    ensures
        ({
            let i = insert_index(free, r.start as int);
            &&& is_first_after(free, r.start as int, i)
            &&& i > 0 ==> free[i - 1].end <= r.start
            &&& i < free.len() ==> free[i].start >= r.end
        }),
{
    let n = free.len() as int;
    lemma_insert_index(free, r.start as int);
    let i = insert_index(free, r.start as int);
    if i > 0 {
        assert(free[i - 1].start <= r.start);
        if free[i - 1].end > r.start {
            assert(holds(free[i - 1], r.start as int));
            assert(covered(free).contains(r.start as int));
            assert(span(r).contains(r.start as int));
        }
    }
    if i < n {
        if free[i].start < r.end {
            if free[i].start == free[i].end {
                assert(free[i].start == bounds.end);
            }
            assert(holds(free[i], free[i].start as int));
            assert(covered(free).contains(free[i].start as int));
            assert(span(r).contains(free[i].start as int));
        }
    }
}

/// Giving back a non-empty range that lies in the bounds and holds no free
/// position keeps the list well-formed, and its positions become free.
pub proof fn lemma_release(bounds: Range<u64>, free: Seq<Range<u64>>, r: Range<u64>)
    requires
        free_list_wf(bounds, free),
        bounds.start <= r.start < r.end <= bounds.end,
        covered(free).disjoint(span(r)),
    ensures
        free_list_wf(bounds, release(free, r)),
        covered(release(free, r)) == covered(free).union(span(r)),
{
    let n = free.len() as int;
    lemma_release_shape(bounds, free, r);
    let i = insert_index(free, r.start as int);
    let jl = joins_left(free, r);
    let jr = joins_right(free, r);
    let lo = if jl { i - 1 } else { i };
    let hi = if jr { i + 1 } else { i };
    let ms = if jl { free[i - 1].start } else { r.start };
    let me = if jr { free[i].end } else { r.end };
    let merged = Range { start: ms, end: me };
    let a = free.take(lo);
    let b = free.skip(hi);
    let g = release(free, r);
    assert(g == a + seq![merged] + b);
    assert forall|j: int| 0 <= j < lo implies #[trigger] free[j].end < ms by {
        if !jl {
            if j < i - 1 {
                assert(free[j].end < free[i - 1].start);
            }
        } else {
            assert(free[j].end < free[i - 1].start);
        }
    }
    assert forall|j: int| hi <= j < n implies #[trigger] free[j].start > me by {
        if jr {
            assert(free[i].end < free[j].start);
        } else if j > i {
            assert(free[i].end < free[j].start);
        }
    }
    lemma_splice_wf(bounds, free, lo, hi, merged);
    // Which positions are free.
    let m = free.subrange(lo, hi);
    assert(free =~= a + m + b);
    lemma_covered_concat(a + m, b);
    lemma_covered_concat(a, m);
    lemma_covered_concat(a + seq![merged], b);
    lemma_covered_concat(a, seq![merged]);
    lemma_covered_single(merged);
    assert forall|p: int| #[trigger] span(merged).contains(p) <==> covered(m).contains(p)
        || span(r).contains(p) by {
        if covered(m).contains(p) {
            let q = choose|q: int| 0 <= q < m.len() && #[trigger] holds(m[q], p);
            assert(m[q] == free[lo + q]);
        }
        if span(merged).contains(p) && !span(r).contains(p) {
            if p < r.start {
                assert(holds(m[0], p));
            } else {
                assert(holds(m[m.len() - 1], p));
            }
        }
    }
    assert(covered(g) =~= covered(free).union(span(r)));
}

/// The best fit, when there is one, is the index `best_fit` names.
pub proof fn lemma_best_fit_unique(free: Seq<Range<u64>>, length: int, alignment: int, k: int)
    requires
        is_best_fit(free, length, alignment, k),
    ensures
        best_fit(free, length, alignment) == k,
{
    let c = best_fit(free, length, alignment);
    assert(is_best_fit(free, length, alignment, c));
    if c < k {
        assert(fits(free[c], length, alignment));
    } else if k < c {
        assert(fits(free[k], length, alignment));
    }
}

/// Rounding up to a multiple of a positive `alignment` lands on a multiple,
/// at or above `start` and less than `alignment` above it.
pub proof fn lemma_align_up(start: int, alignment: int)
    requires
        0 <= start,
        0 < alignment,
    ensures
        start <= align_up(start, alignment) < start + alignment,
        align_up(start, alignment) % alignment == 0,
{
    let r = start % alignment;
    vstd::arithmetic::div_mod::lemma_fundamental_div_mod(start, alignment);
    vstd::arithmetic::div_mod::lemma_mod_pos_bound(start, alignment);
    if r != 0 {
        let q = start / alignment;
        assert(start - r + alignment == (q + 1) * alignment) by (nonlinear_arith)
            requires
                start == alignment * q + r,
        ;
        vstd::arithmetic::div_mod::lemma_mod_multiples_basic(q + 1, alignment);
    }
}

/// A multiple of `alignment` in `[start, start + alignment)` is the one
/// `align_up` names.
pub proof fn lemma_align_up_unique(start: int, alignment: int, s: int)
    requires
        0 <= start,
        0 < alignment,
        s % alignment == 0,
        start <= s < start + alignment,
    ensures
        s == align_up(start, alignment),
{
    lemma_align_up(start, alignment);
    let t = align_up(start, alignment);
    vstd::arithmetic::div_mod::lemma_fundamental_div_mod(s, alignment);
    vstd::arithmetic::div_mod::lemma_fundamental_div_mod(t, alignment);
    let d = s / alignment - t / alignment;
    assert(s - t == alignment * d) by (nonlinear_arith)
        requires
            s == alignment * (s / alignment),
            t == alignment * (t / alignment),
            d == s / alignment - t / alignment,
    ;
    assert(d == 0) by (nonlinear_arith)
        requires
            0 < alignment,
            -alignment < alignment * d < alignment,
    ;
}

/// The summed length of the first `m + 1` free ranges adds the range at
/// `m` to that of the first `m`, and stays below the end of that range.
pub proof fn lemma_total_take(bounds: Range<u64>, free: Seq<Range<u64>>, m: int)
    requires
        free_list_wf(bounds, free),
        0 <= m < free.len(),
    ensures
        total_len(free.take(m + 1)) == total_len(free.take(m)) + (free[m].end - free[m].start),
        total_len(free.take(m + 1)) <= free[m].end - bounds.start,
    decreases m,
{
    assert(free.take(m + 1).drop_last() =~= free.take(m));
    if m > 0 {
        lemma_total_take(bounds, free, m - 1);
        assert(free[m - 1].end < free[m].start);
    }
}

/// Growing the bounds keeps the free list well-formed in the new bounds,
/// and the added positions become free.
pub proof fn lemma_grown(bounds: Range<u64>, free: Seq<Range<u64>>, new_end: u64)
    requires
        free_list_wf(bounds, free),
        bounds.end <= new_end,
    ensures
        free_list_wf(range_of(bounds.start, new_end), grown(bounds, free, new_end)),
        covered(grown(bounds, free, new_end)) == covered(free).union(
            span(range_of(bounds.end, new_end)),
        ),
{
    let n = free.len() as int;
    let g = grown(bounds, free, new_end);
    let added = range_of(bounds.end, new_end);
    if n > 0 && free.last().end == bounds.end {
        let last = range_of(free.last().start, new_end);
        assert(g == free.take(n - 1) + seq![last]);
        assert(free =~= free.take(n - 1) + seq![free.last()]);
        lemma_covered_concat(free.take(n - 1), seq![last]);
        lemma_covered_concat(free.take(n - 1), seq![free.last()]);
        lemma_covered_single(last);
        lemma_covered_single(free.last());
        assert(span(last) =~= span(free.last()).union(span(added)));
        assert(covered(g) =~= covered(free).union(span(added)));
        if bounds.start == new_end {
            assert(g =~= seq![range_of(bounds.start, new_end)]);
        }
    } else {
        assert(g == free + seq![added]);
        if n > 0 {
            assert(free.last() == free[n - 1]);
        }
        lemma_covered_concat(free, seq![added]);
        lemma_covered_single(added);
        assert forall|i: int| 0 <= i < n implies #[trigger] free[i].end < bounds.end by {
            assert(bounds.start <= free[i].start);
            assert(bounds.start <= free[n - 1].start);
            if i < n - 1 {
                assert(free[i].end < free[n - 1].start);
            }
        }
        assert forall|i: int| 0 <= i < n implies #[trigger] free[i].start < free[i].end by {
            if free[i].start == free[i].end {
                assert(i == n - 1);
            }
        }
    }
}

} // verus!
