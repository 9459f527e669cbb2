//! Slab allocator: fixed-size slots carved out of pages, with magic values,
//! redzones and poison fill to catch misuse.

pub mod adapter;
pub mod allocator;
pub mod geometry;
pub mod laws;
pub mod page;
pub mod page_list;
pub mod provider;
