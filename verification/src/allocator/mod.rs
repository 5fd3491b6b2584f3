//! Heap allocators: a page bump allocator and a size-class slab allocator on top of it.
pub mod align;
pub mod bump;
pub mod slab;
