use vstd::prelude::*;
use crate::constant::PAGE_SIZE;
use crate::errno::Errno;
use crate::vma::AreaFlag;
use crate::memory::{Memory, mmap_place, area_added, area_removed, released_pages, is_whole_area, zero_entry,
    pages_for_len};
use crate::page_allocator::PageAllocator;
use crate::virtual_allocator::frames_owned;

verus! {

/// The `mmap` system call for a private mapping of `len` bytes at `addr` (0 for any place)
/// in `memory`: `EINVAL` for an address off a page boundary or no bytes; else the pages
/// that hold the bytes are mapped readable and writable, zero-filled. (A shared mapping
/// goes to a file of the file system, which this library does not hold.)
pub fn sys_mmap_private(memory: &mut Memory, addr: usize, len: usize, zero_page: usize, pa: &mut PageAllocator)
    -> (r: Result<usize, Errno>)
    requires
        old(memory).wf(),
        old(pa).wf(),
    ensures
        final(memory).wf(),
        final(pa).wf(),
        addr % PAGE_SIZE != 0 || len == 0 ==> r == Err::<usize, Errno>(Errno::EINVAL)
            && *final(memory) == *old(memory) && *final(pa) == *old(pa),
        addr % PAGE_SIZE == 0 && len > 0 ==> ({
            let pages = pages_for_len(len as int) as usize;
            let flags = AreaFlag { bits: 3 };
            &&& mmap_place(old(memory).areas(), addr, pages) is None ==> r == Err::<usize, Errno>(Errno::ENOMEM)
                && final(memory).areas() == old(memory).areas()
            &&& mmap_place(old(memory).areas(), addr, pages) is Some && old(pa).normal_free_pages() >= pages ==> r is Ok
            &&& r is Err ==> r == Err::<usize, Errno>(Errno::ENOMEM)
            &&& r matches Ok(v) ==> Some(v) == mmap_place(old(memory).areas(), addr, pages)
                && area_added(old(memory).areas(), final(memory).areas(), v, pages, flags)
                && forall|k: int| 0 <= k < pages ==>
                    #[trigger] final(memory).pd().user_translate(v + k * PAGE_SIZE) == zero_entry(zero_page)
        }),
{
    if addr % PAGE_SIZE != 0 || len == 0 {
        return Err(Errno::EINVAL);
    }
    let extra: usize = if len % PAGE_SIZE != 0 { 1 } else { 0 };
    let pages = len / PAGE_SIZE + extra;
    let flags = AreaFlag::readable().union(AreaFlag::writable());
    proof {
        assert((1u32 | 2u32) == 3u32) by (bit_vector);
    }
    memory.mmap_private(addr, pages, flags, zero_page, pa)
}

/// The `munmap` system call: `EINVAL` for an address off a page boundary, no bytes or a
/// length that is not whole pages; else the pages `[addr, addr + len)`, which must be
/// exactly one area, are unmapped and what they mapped goes back to `pa`.
pub fn sys_munmap(memory: &mut Memory, addr: usize, len: usize, zero_page: usize, pa: &mut PageAllocator)
    -> (r: Result<usize, Errno>)
    requires
        old(memory).wf(),
        old(pa).wf(),
        addr % PAGE_SIZE == 0 && len > 0 && len % PAGE_SIZE == 0 && addr + len <= usize::MAX
            && is_whole_area(old(memory).areas(), addr as int, addr + len)
            ==> frames_owned(*old(pa), released_pages(old(memory).pd(), addr as int, (len / PAGE_SIZE) as nat, zero_page)),
    ensures
        final(memory).wf(),
        final(pa).wf(),
        addr % PAGE_SIZE != 0 || len == 0 || len % PAGE_SIZE != 0 ==> r == Err::<usize, Errno>(Errno::EINVAL)
            && *final(memory) == *old(memory) && *final(pa) == *old(pa),
        r is Ok <==> addr % PAGE_SIZE == 0 && len > 0 && len % PAGE_SIZE == 0 && addr + len <= usize::MAX
            && is_whole_area(old(memory).areas(), addr as int, addr + len),
        r is Ok ==> r == Ok::<usize, Errno>(0) && area_removed(old(memory).areas(), final(memory).areas(), addr),
        r is Err ==> r == Err::<usize, Errno>(Errno::EINVAL) && final(memory).areas() == old(memory).areas()
            && *final(pa) == *old(pa),
{
    if addr % PAGE_SIZE != 0 || len == 0 || len % PAGE_SIZE != 0 {
        return Err(Errno::EINVAL);
    }
    let pages = len / PAGE_SIZE;
    assert(pages * PAGE_SIZE == len);
    match memory.munmap_private(addr, pages, zero_page, pa) {
        Ok(_) => Ok(0),
        Err(e) => Err(e),
    }
}

} // verus!
