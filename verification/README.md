# Memory management of a small x86 kernel, verified

The library (`src/`) holds the memory-management logic of a 32-bit x86 kernel, written
in Verus with its contracts:

- `util`, `constant`: address and rank arithmetic, bit scans, alignment.
- `meta`, `meta_page`: per-frame metadata words and the table of frames linked in lists.
- `buddy_math`, `buddy_allocator`, `page_allocator`, `vmemory`: the buddy allocator of
  page frames, its two zones, and the split of physical memory into zones.
- `cache`, `size_cache`, `memory_allocator`, `no_alloc_list`, `oom`, `cache_manager`:
  free lists of chunks, caches of fixed-size slots, the kernel allocator built on them,
  and the keeper of the caches.
- `paging`, `packed`, `page_directory`, `kernel_map`: page table entries, directories,
  the kernel part of the address space and the shared kernel tables.
- `vmalloc`, `virtual_allocator`: the allocator of the vmalloc area.
- `vma`, `memory`, `user`, `verify`, `mmap`: user address spaces, process memory
  (mappings, loading, copying, argument strings), the initial user stack, and the
  `mmap`/`munmap` system calls.

Hardware state is passed explicitly: page tables are values, physical memory is a log
of page writes (`PhysMem`), and the allocators are arguments rather than globals.

`tests/` exercises the library on concrete values; `app/` prints listings of the caches
and reads argument strings out of user memory.
