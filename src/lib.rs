//! A* search over sliding-tile puzzle boards, driven by a binary min-heap.

pub mod board;
pub mod minheap;
pub mod search;
