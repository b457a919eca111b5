//! Merge-insertion sort (the Ford–Johnson algorithm) over `usize` keys,
//! ordered by a caller-supplied comparator and designed to spend as few
//! comparator calls as possible.
pub mod order;
pub mod partners;
pub mod merge_insertion;
pub mod laws;

pub use merge_insertion::sort;
