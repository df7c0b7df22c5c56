use vstd::prelude::*;
use std::ops::Range;
use crate::constant::{PAGE_SIZE, PT_COVER_SIZE, PT_ENTRIES, PD_ENTRIES, VM_OFFSET, VMALLOC_OFFSET, MB};
use crate::util::{addr_to_pfn, virt_to_phys, phys_to_virt, spec_virt_to_phys, spec_phys_to_virt};
use crate::paging::{PageFlag, PDE, PDE_ADDR_MASK_4M, PDE_PSE, lemma_entry_bits};
use crate::page_directory::PD;

verus! {

/// Frame ranges of the memory zones: the linear map, the vmalloc area and high memory.
pub struct VMemory {
    pub normal_pfn: Range<usize>,
    pub vmalloc_pfn: Range<usize>,
    pub high_pfn: Range<usize>,
}

/// First directory entry of the linear map.
pub const ZONE_NORMAL_START: usize = 768;
/// First directory entry of the vmalloc area.
pub const VMALLOC_START: usize = 992;
/// Pages that the vmalloc area can hold.
pub const VMALLOC_MAX_PAGES: usize = 32768;

/// Directory entries of the linear map, among the first `i`, that map memory below
/// `max_paddr`.
pub open spec fn mapped_upto(i: int, max_paddr: int) -> int {
    let n = (max_paddr + PT_COVER_SIZE - 1) / (PT_COVER_SIZE as int);
    let k = if i <= ZONE_NORMAL_START { 0 } else if i < VMALLOC_START { i - ZONE_NORMAL_START } else { VMALLOC_START - ZONE_NORMAL_START };
    if k < n { k } else { n }
}

/// The flags of kernel directory entry `i` when memory ends at `max_paddr`.
pub open spec fn kernel_pde_flags(i: int, max_paddr: int) -> u32 {
    let paddr = spec_virt_to_phys(i * PT_COVER_SIZE);
    if paddr < max_paddr && ZONE_NORMAL_START <= i < VMALLOC_START { 0x103 } else { 0x102 }
}

/// Kernel directory entry `i` when memory ends at `max_paddr`.
pub open spec fn kernel_pde_bits(i: int, max_paddr: int) -> u32 {
    ((spec_virt_to_phys(i * PT_COVER_SIZE) as usize as u32 & PDE_ADDR_MASK_4M) | PDE_PSE) | kernel_pde_flags(i, max_paddr)
}

impl VMemory {
    /// Fills the kernel directory `pd` with 4 MiB entries, writable and global, that map
    /// the linear map onto physical memory below `linear_end` (the others not present),
    /// and splits the frames into the linear map from the end of the kernel image at
    /// `kernel_end`, the vmalloc area, and high memory.
    pub fn init(pd: &mut PD, linear_end: usize, kernel_end: usize) -> (vm: VMemory)
        requires
            old(pd).entries@.len() == PD_ENTRIES,
            old(pd).tables@.len() == PD_ENTRIES,
            linear_end / PAGE_SIZE >= PT_ENTRIES,
            linear_end / PAGE_SIZE - PT_ENTRIES >= mapped_upto(PD_ENTRIES as int, linear_end as int) * PT_ENTRIES,
        ensures
            final(pd).wf(),
            final(pd).user_part_direct(),
            final(pd).tables@ == old(pd).tables@,
            forall|i: int| 0 <= i < PD_ENTRIES ==> (#[trigger] final(pd).entries@[i]).data.bits
                == kernel_pde_bits(i, linear_end as int),
            ({
                let total = (linear_end / PAGE_SIZE) as int - PT_ENTRIES;
                let unmapped = total - mapped_upto(PD_ENTRIES as int, linear_end as int) * PT_ENTRIES;
                let vmalloc_pages = if unmapped < VMALLOC_MAX_PAGES { unmapped } else { VMALLOC_MAX_PAGES as int };
                let normal_limit = (VM_OFFSET / PAGE_SIZE) as int + total;
                &&& vm.normal_pfn.start == spec_phys_to_virt(kernel_end as int) / (PAGE_SIZE as int)
                &&& vm.normal_pfn.end == if normal_limit < (VMALLOC_OFFSET / PAGE_SIZE) as int { normal_limit } else { (VMALLOC_OFFSET / PAGE_SIZE) as int }
                &&& vm.vmalloc_pfn.start == VMALLOC_OFFSET / PAGE_SIZE
                &&& vm.vmalloc_pfn.end == VMALLOC_OFFSET / PAGE_SIZE + vmalloc_pages
                &&& vm.high_pfn.start == 1
                &&& vm.high_pfn.end == unmapped - vmalloc_pages
            }),
    {
        let max_paddr = linear_end;
        let mut mapped_entries: usize = 0;
        let mut i: usize = 0;
        while i < PD_ENTRIES
            invariant
                i <= PD_ENTRIES,
                pd.entries@.len() == PD_ENTRIES,
                pd.tables@ == old(pd).tables@,
                mapped_entries == mapped_upto(i as int, max_paddr as int),
                forall|k: int| 0 <= k < i ==> (#[trigger] pd.entries@[k]).data.bits == kernel_pde_bits(k, max_paddr as int),
            decreases PD_ENTRIES - i,
        {
            let paddr = virt_to_phys(i * PT_COVER_SIZE);
            let extra_flags = if paddr < max_paddr && ZONE_NORMAL_START <= i && i < VMALLOC_START {
                proof { lemma_mapped_step(i as int, max_paddr as int, true); }
                mapped_entries = mapped_entries + 1;
                PageFlag::present()
            } else {
                proof {
                    if ZONE_NORMAL_START <= i && i < VMALLOC_START {
                        lemma_mapped_step(i as int, max_paddr as int, false);
                    }
                }
                PageFlag::empty()
            };
            let flags = PageFlag::write().union(PageFlag::global()).union(extra_flags);
            proof { lemma_entry_bits(0, 0, 0); }
            pd.entries.set(i, PDE::new_4m(paddr, flags));
            i = i + 1;
        }
        proof {
            assert forall|k: int| 0 <= k < PD_ENTRIES && (#[trigger] pd.entries@[k]).spec_is_4m()
                implies pd.entries@[k].spec_addr() % 0x40_0000 == 0 by {
                let x: u32 = spec_virt_to_phys(k * PT_COVER_SIZE) as usize as u32;
                let f = kernel_pde_flags(k, max_paddr as int);
                assert(f == 0x103u32 || f == 0x102u32);
                lemma_entry_bits(0, x, f);
            }
            assert forall|k: int| 0 <= k < VM_OFFSET / PT_COVER_SIZE implies (#[trigger] pd.entries@[k]).spec_is_4m() by {
                let x: u32 = spec_virt_to_phys(k * PT_COVER_SIZE) as usize as u32;
                let f = kernel_pde_flags(k, max_paddr as int);
                assert(f == 0x103u32 || f == 0x102u32);
                lemma_entry_bits(0, x, f);
            }
        }
        let total_pages = addr_to_pfn(linear_end) - PT_ENTRIES;
        let normal_start = addr_to_pfn(phys_to_virt(kernel_end));
        let limit = addr_to_pfn(VM_OFFSET) + total_pages;
        let normal_end = if addr_to_pfn(VMALLOC_OFFSET) < limit { addr_to_pfn(VMALLOC_OFFSET) } else { limit };
        let mapped_pages = mapped_entries * PT_ENTRIES;
        let unmapped_pages = total_pages - mapped_pages;
        let vmalloc_pages = if unmapped_pages < VMALLOC_MAX_PAGES { unmapped_pages } else { VMALLOC_MAX_PAGES };
        let vmalloc_start = addr_to_pfn(VMALLOC_OFFSET);
        let vmalloc_end = vmalloc_start + vmalloc_pages;
        let high_pages = unmapped_pages - vmalloc_pages;
        let high_start: usize = 1;
        let high_end = high_start + high_pages - 1;
        VMemory {
            normal_pfn: normal_start..normal_end,
            vmalloc_pfn: vmalloc_start..vmalloc_end,
            high_pfn: high_start..high_end,
        }
    }
}

/// Entry `i` of the linear map is present exactly when it is among the first entries that
/// cover memory below `max_paddr`.
proof fn lemma_mapped_step(i: int, max_paddr: int, present: bool)
    requires
        ZONE_NORMAL_START <= i < VMALLOC_START,
        0 <= max_paddr,
        present <==> spec_virt_to_phys(i * PT_COVER_SIZE) < max_paddr,
    ensures
        mapped_upto(i + 1, max_paddr) == mapped_upto(i, max_paddr) + if present { 1int } else { 0 },
{
    let k = i - ZONE_NORMAL_START;
    vstd::layout::unsigned_int_max_values();
    assert(i * PT_COVER_SIZE - VM_OFFSET == k * PT_COVER_SIZE);
    vstd::arithmetic::div_mod::lemma_small_mod((k * PT_COVER_SIZE) as nat, crate::util::usize_modulus() as nat);
    assert(spec_virt_to_phys(i * PT_COVER_SIZE) == k * PT_COVER_SIZE);
    let n = (max_paddr + PT_COVER_SIZE - 1) / (PT_COVER_SIZE as int);
    assert(k * 0x40_0000 < max_paddr <==> k < n) by (nonlinear_arith)
        requires n == (max_paddr + 0x40_0000 - 1) / 0x40_0000, k >= 0, max_paddr >= 0;
}

} // verus!
