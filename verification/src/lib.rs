pub mod allocator;
pub mod block;
pub mod free;
pub mod heap;
