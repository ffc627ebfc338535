//! Memory-management core of a 64-bit kernel: typed physical and virtual
//! addresses with alignment-aware arithmetic, a free-list allocator for
//! 4096-byte physical frames, a size-classed slab allocator for small
//! dynamic allocations, and a three-level radix-tree page table with
//! map/unmap/translate operations.

pub mod address;
pub mod heap;
pub mod page_list;
pub mod page_table;
pub mod sbi;
pub mod pfa;

pub use address::PAGE_SIZE;
pub use address::VIRTUAL_OFFSET;
