//! Two-stack sorting engine.
//!
//! A permutation of `0..N-1` is placed on a bounded stack A; the library
//! computes a sequence of primitive stack operations (`pa`, `pb`, `sa`, ...)
//! that leaves the values ascending on A while a second stack B starts and
//! ends empty.  Every applied operation is logged together with a snapshot of
//! the stacks taken immediately before it, and a bounded backtracking pass can
//! search the log for shortcuts between recurring states.

pub mod compressor;
pub mod ops;
pub mod sort;
pub mod sort_small;
pub mod stack_deque;
pub mod state;
