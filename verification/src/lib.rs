//! Dynamic memory management for a small kernel: a buddy allocator that hands
//! out power-of-two runs of pages, and a slab allocator that carves pages into
//! fixed-size, integrity-checked slots. Beside them stand the small rules of
//! the kernel around them: the queue of interrupt messages, the memory map,
//! and where the terminal's cursor and screen stand.
//!
//! Addresses are plain numbers here. The buddy allocator keeps its bitmaps,
//! and the slab allocator the bytes of its pages, in memory of their own;
//! whoever holds an address reads and writes through the allocator.

pub mod buddy;
pub mod kernel;
pub mod numeric;
pub mod ring_buffer;
pub mod slab;
