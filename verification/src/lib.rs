//! A best-fit allocator of sub-ranges of a range of `u64` positions.
pub mod allocator;
pub mod error;
pub mod laws;
pub mod lemmas;
pub mod spec;

pub use allocator::RangeAllocator;
pub use error::RangeAllocationError;
