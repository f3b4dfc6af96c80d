# range allocator

A best-fit allocator of sub-ranges of a range of `u64` positions, written in
Verus. `RangeAllocator` manages one contiguous range, hands out
non-overlapping sub-ranges (optionally aligned, without wasting the padding),
merges freed ranges with their free neighbours, and can grow its range.

Layout:

- `src/spec.rs`: the model. An allocator is its bounds and its ordered list
  of free ranges; spec functions say what each operation makes of that list
  (`carve` for an allocation, `release` for a free, `grown` for growing) and
  which free range an allocation picks (`is_best_fit`).
- `src/allocator.rs`: `RangeAllocator` and its operations, each with a
  contract over the model.
- `src/error.rs`: `RangeAllocationError`.
- `src/lemmas.rs`: facts about the model that the operations rest on.
- `src/laws.rs`: properties across operations, proved: a free undoes an
  allocation, successive allocations do not overlap, the allocated ranges are
  the complement of the free ones, free and allocated lengths add up to the
  bounds, growing keeps the allocations, and an allocator is empty exactly
  when nothing is allocated.
- `tests/`: executable tests.
