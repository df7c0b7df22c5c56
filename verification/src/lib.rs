//! Memory management core of a small x86 kernel: address arithmetic, page
//! table entries, page metadata, the buddy page allocator, the virtual
//! address allocator and user address spaces, with their contracts.

pub mod constant;
pub mod util;
pub mod vma;
pub mod vmalloc;
pub mod meta;
pub mod meta_page;
pub mod buddy_math;
pub mod buddy_allocator;
pub mod vmemory;
pub mod page_allocator;
pub mod cache;
pub mod size_cache;
pub mod paging;
pub mod page_directory;
pub mod errno;
pub mod memory;
pub mod user;
pub mod virtual_allocator;
pub mod packed;
pub mod memory_allocator;
pub mod no_alloc_list;
pub mod oom;
pub mod verify;
pub mod kernel_map;
pub mod mmio;
pub mod cache_manager;
pub mod mmap;
pub mod mapped_file;
