//! A block-range allocator built on a dynamic binary-space-partition tree.
//!
//! The address space `[0, nr_blocks)` is subdivided among concurrent
//! allocation contexts by a tree of extents held in a fixed node pool.
//! Each context draws from a private run of blocks whenever possible and
//! shares an extent only when the pool can no longer be split.

pub mod allocator;
pub mod laws;
pub mod oracle;
pub mod runs;
pub mod shape;
pub mod tree;
