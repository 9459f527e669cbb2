//! Plain data and small rules of the kernel around the allocators.

pub mod context;
pub mod interrupt_queue;
pub mod memory;
pub mod memory_map;
pub mod pic;
pub mod pit;
pub mod task;
pub mod terminal;
