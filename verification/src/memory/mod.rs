//! Virtual-memory management: the physical frame allocators and the
//! four-level page-table model with translation, mapping and unmapping.

pub mod frame_allocator;
pub mod paging;
