//! Physical and virtual memory management core for a 64-bit kernel.
//!
//! The crate tracks which physical page-sized frames are free or in use
//! (`frame_allocator`), builds and maintains the four-level translation
//! structures that map virtual addresses to physical ones (`paging`), and
//! computes the register values that program the translation hardware
//! (`mmu`).

pub mod frame_allocator;
pub mod mmu;
pub mod paging;
