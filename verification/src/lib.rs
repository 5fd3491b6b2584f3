//! A read-only FAT32 volume reader, a size-class slab allocator and the
//! small pieces of kernel arithmetic around them, with their contracts.
pub mod blockdev;
pub mod bpb;
pub mod fat;
pub mod dir;
pub mod path;
pub mod fs;
pub mod allocator;
pub mod kernel;
