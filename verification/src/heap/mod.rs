pub mod arena;
pub mod memory;
pub mod merge;
pub mod state;
