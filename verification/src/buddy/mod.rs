//! Buddy allocator over a contiguous range of unit-sized pages.

pub mod bitmap;
pub mod block;
pub mod checked;
pub mod info;
pub mod layout;
pub mod tally;
pub mod tree;
