//! A heap-free arena allocator: a fixed number of 64-word groups, each tracked
//! by one 64-bit occupancy word, handing out aligned runs of words by
//! first-fit search, and a fixed-capacity vector that reserves its region in
//! such an arena.

pub mod bitmap;
pub mod allocator;
pub mod svector;

pub use allocator::{
    static_alloc, static_alloc_mult, static_dealloc, static_dealloc_mult, AllocError,
    StaticAllocator,
};
pub use svector::SVector;
