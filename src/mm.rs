//! Physical frames, page tables and address spaces.

pub mod address;
pub mod page_table;
pub mod frame_allocator;
pub mod memory_set;
pub mod translate;
