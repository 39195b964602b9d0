//! Block cache and bitmap allocator of a small teaching filesystem.
use vstd::prelude::*;

pub mod bitmap;
pub mod block_cache;
pub mod block_dev;
pub mod pipe;
pub mod task;

verus! {

/// Size in bytes of one block of the storage medium.
pub const BLOCK_SZ: usize = 512;

} // verus!
