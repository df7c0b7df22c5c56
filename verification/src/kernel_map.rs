use vstd::prelude::*;
use crate::constant::{PAGE_SIZE, PT_COVER_SIZE, PT_ENTRIES, PD_ENTRIES, VMALLOC_OFFSET, KMAP_OFFSET,
    HIGH_IO_OFFSET, LAST_PFN};
use crate::paging::{PageFlag, PDE, lemma_entry_bits};
use crate::page_directory::{PD, NR_VMALLOC_PT, NR_KMAP_PT};
use crate::util::{addr_to_pfn, pfn_to_addr};

verus! {

/// Directory entry that maps the 4 MiB at `paddr`, present, global and writable.
pub open spec fn fixed_pde_bits(paddr: int) -> u32 {
    ((paddr as u32 & 0xffc0_0000) | 0x80) | 0x103
}

/// Directory entry that points to the page table at `paddr`, present, global and writable.
pub open spec fn table_pde_bits(paddr: int) -> u32 {
    (paddr as u32 & 0xffff_f000) | 0x103
}

/// `b` is `a` with the entries `[lo, hi)` changed only.
pub open spec fn entries_kept_outside(a: PD, b: PD, lo: int, hi: int) -> bool {
    &&& b.entries@.len() == a.entries@.len()
    &&& b.tables@ == a.tables@
    &&& forall|k: int| 0 <= k < a.entries@.len() && !(lo <= k < hi) ==> #[trigger] b.entries@[k] == a.entries@[k]
}

/// Maps the whole 32-bit physical space in 4 MiB entries at `VM_OFFSET` on, the entry of
/// the 4 MiB at `x * 4 MiB` standing at `x + 768` taken round the directory: present,
/// global and writable below the frame `high_start_pfn`, not present from it on.
pub fn init_kernel_map(pd: &mut PD, high_start_pfn: usize)
    requires
        old(pd).wf(),
    ensures
        final(pd).wf(),
        final(pd).user_part_direct(),
        entries_kept_outside(*old(pd), *final(pd), 0, PD_ENTRIES as int),
        forall|x: int| 0 <= x < PD_ENTRIES ==> (#[trigger] final(pd).entries@[(x + 768) % 1024]).data.bits
            == (((x * PT_COVER_SIZE) as u32 & 0xffc0_0000) | 0x80) | if x * PT_ENTRIES < high_start_pfn { 0x103u32 } else { 0u32 },
{
    let mut x: usize = 0;
    while x < PD_ENTRIES
        invariant
            x <= PD_ENTRIES,
            pd.wf(),
            entries_kept_outside(*old(pd), *pd, 0, PD_ENTRIES as int),
            forall|k: int| 0 <= k < x ==> (#[trigger] pd.entries@[(k + 768) % 1024]).data.bits
                == (((k * PT_COVER_SIZE) as u32 & 0xffc0_0000) | 0x80) | if k * PT_ENTRIES < high_start_pfn { 0x103u32 } else { 0u32 },
            forall|k: int| 0 <= k < x ==> (#[trigger] pd.entries@[(k + 768) % 1024]).spec_is_4m(),
        decreases PD_ENTRIES - x,
    {
        let paddr = x * PT_COVER_SIZE;
        let pfn = addr_to_pfn(paddr);
        assert(pfn == x * PT_ENTRIES);
        let flags = if pfn < high_start_pfn {
            PageFlag::present().union(PageFlag::global()).union(PageFlag::write())
        } else {
            PageFlag::empty()
        };
        let index = (x + 768) % PD_ENTRIES;
        let e = PDE::new_4m(paddr, flags);
        proof {
            lemma_entry_bits(0, paddr as u32, flags.bits);
        }
        let ghost before = *pd;
        pd.entries.set(index, e);
        proof {
            assert forall|k: int| 0 <= k < x + 1 implies (#[trigger] pd.entries@[(k + 768) % 1024]).data.bits
                == (((k * PT_COVER_SIZE) as u32 & 0xffc0_0000) | 0x80) | if k * PT_ENTRIES < high_start_pfn { 0x103u32 } else { 0u32 }
                && pd.entries@[(k + 768) % 1024].spec_is_4m() by {
                if k < x {
                    assert((k + 768) % 1024 != (x + 768) % 1024);
                }
            }
            assert forall|k: int| 0 <= k < PD_ENTRIES && (#[trigger] pd.entries@[k]).spec_is_4m()
                implies pd.entries@[k].spec_addr() % 0x40_0000 == 0 by {
                if k == index {
                    lemma_entry_bits(0, paddr as u32, flags.bits);
                } else {
                    assert(pd.entries@[k] == before.entries@[k]);
                }
            }
        }
        x = x + 1;
    }
    proof {
        assert forall|i: int| 0 <= i < 768 implies (#[trigger] pd.entries@[i]).spec_is_4m() by {
            let k = i + 256;
            assert((k + 768) % 1024 == i);
            assert(pd.entries@[(k + 768) % 1024].spec_is_4m());
        }
    }
}

/// Maps the high I/O area onto itself in 4 MiB entries, present, global and writable.
pub fn init_high_io_map(pd: &mut PD)
    requires
        old(pd).wf(),
    ensures
        final(pd).wf(),
        entries_kept_outside(*old(pd), *final(pd), (HIGH_IO_OFFSET / PT_COVER_SIZE) as int, PD_ENTRIES as int),
        forall|d: int| HIGH_IO_OFFSET / PT_COVER_SIZE <= d < PD_ENTRIES ==>
            (#[trigger] final(pd).entries@[d]).data.bits == fixed_pde_bits(d * PT_COVER_SIZE),
{
    let mut pfn = addr_to_pfn(HIGH_IO_OFFSET);
    while pfn < LAST_PFN
        invariant
            pd.wf(),
            pfn % PT_ENTRIES == 0,
            HIGH_IO_OFFSET / PAGE_SIZE <= pfn <= LAST_PFN,
            entries_kept_outside(*old(pd), *pd, (HIGH_IO_OFFSET / PT_COVER_SIZE) as int, PD_ENTRIES as int),
            forall|d: int| HIGH_IO_OFFSET / PT_COVER_SIZE <= d < pfn / PT_ENTRIES ==>
                (#[trigger] pd.entries@[d]).data.bits == fixed_pde_bits(d * PT_COVER_SIZE),
        decreases LAST_PFN - pfn,
    {
        let flags = PageFlag::present().union(PageFlag::global()).union(PageFlag::write());
        let paddr = pfn_to_addr(pfn);
        let e = PDE::new_4m(paddr, flags);
        let d = pfn / PT_ENTRIES;
        proof {
            lemma_entry_bits(0, paddr as u32, flags.bits);
            assert(paddr == d * PT_COVER_SIZE);
        }
        let ghost before = *pd;
        pd.entries.set(d, e);
        proof {
            assert forall|k: int| 0 <= k < PD_ENTRIES && (#[trigger] pd.entries@[k]).spec_is_4m()
                implies pd.entries@[k].spec_addr() % 0x40_0000 == 0 by {
                if k != d {
                    assert(pd.entries@[k] == before.entries@[k]);
                }
            }
        }
        pfn = pfn + PT_ENTRIES;
    }
}

/// Points the directory entries of the vmalloc area to its page tables, the `i`-th at
/// `pt_phys + i * PAGE_SIZE`, present, global and writable.
pub fn map_vmalloc_memory(pd: &mut PD, pt_phys: usize)
    requires
        old(pd).wf(),
        pt_phys + NR_VMALLOC_PT * PAGE_SIZE <= usize::MAX,
    ensures
        final(pd).wf(),
        entries_kept_outside(*old(pd), *final(pd), (VMALLOC_OFFSET / PT_COVER_SIZE) as int,
            (KMAP_OFFSET / PT_COVER_SIZE) as int),
        forall|i: int| 0 <= i < NR_VMALLOC_PT ==>
            (#[trigger] final(pd).entries@[VMALLOC_OFFSET / PT_COVER_SIZE + i]).data.bits
                == table_pde_bits(pt_phys + i * PAGE_SIZE),
{
    map_table_entries(pd, VMALLOC_OFFSET, KMAP_OFFSET, pt_phys);
}

/// Points the directory entries of the kmap area to its page tables, the `i`-th at
/// `pt_phys + i * PAGE_SIZE`, present, global and writable.
pub fn map_kmap_memory(pd: &mut PD, pt_phys: usize)
    requires
        old(pd).wf(),
        pt_phys + NR_KMAP_PT * PAGE_SIZE <= usize::MAX,
    ensures
        final(pd).wf(),
        entries_kept_outside(*old(pd), *final(pd), (KMAP_OFFSET / PT_COVER_SIZE) as int,
            (HIGH_IO_OFFSET / PT_COVER_SIZE) as int),
        forall|i: int| 0 <= i < NR_KMAP_PT ==>
            (#[trigger] final(pd).entries@[KMAP_OFFSET / PT_COVER_SIZE + i]).data.bits
                == table_pde_bits(pt_phys + i * PAGE_SIZE),
{
    map_table_entries(pd, KMAP_OFFSET, HIGH_IO_OFFSET, pt_phys);
}

/// Points the directory entries of `[from, to)` to consecutive page tables from `pt_phys`.
fn map_table_entries(pd: &mut PD, from: usize, to: usize, pt_phys: usize)
    requires
        old(pd).wf(),
        from % PT_COVER_SIZE == 0,
        to % PT_COVER_SIZE == 0,
        0xc000_0000 <= from <= to <= 0xffff_ffff,
        pt_phys + (to - from) / (PT_COVER_SIZE as int) * PAGE_SIZE <= usize::MAX,
    ensures
        final(pd).wf(),
        entries_kept_outside(*old(pd), *final(pd), (from / PT_COVER_SIZE) as int, (to / PT_COVER_SIZE) as int),
        forall|i: int| 0 <= i < (to - from) / (PT_COVER_SIZE as int) ==>
            (#[trigger] final(pd).entries@[from / PT_COVER_SIZE + i]).data.bits
                == table_pde_bits(pt_phys + i * PAGE_SIZE),
{
    let first = from / PT_COVER_SIZE;
    let n = (to - from) / PT_COVER_SIZE;
    let mut i: usize = 0;
    while i < n
        invariant
            pd.wf(),
            first == from / PT_COVER_SIZE,
            n == (to - from) / (PT_COVER_SIZE as int),
            first + n == to / PT_COVER_SIZE,
            768 <= first,
            first + n <= PD_ENTRIES,
            pt_phys + n * PAGE_SIZE <= usize::MAX,
            i <= n,
            entries_kept_outside(*old(pd), *pd, (from / PT_COVER_SIZE) as int, (to / PT_COVER_SIZE) as int),
            forall|k: int| 0 <= k < i ==> (#[trigger] pd.entries@[first + k]).data.bits
                == table_pde_bits(pt_phys + k * PAGE_SIZE),
        decreases n - i,
    {
        assert(i * PAGE_SIZE < n * PAGE_SIZE) by (nonlinear_arith) requires i < n;
        let paddr = pt_phys + i * PAGE_SIZE;
        let flags = PageFlag::present().union(PageFlag::global()).union(PageFlag::write());
        let e = PDE::new(paddr, flags);
        proof { lemma_entry_bits(0, paddr as u32, flags.bits); }
        let ghost before = *pd;
        pd.entries.set(first + i, e);
        proof {
            assert forall|k: int| 0 <= k < PD_ENTRIES && (#[trigger] pd.entries@[k]).spec_is_4m()
                implies pd.entries@[k].spec_addr() % 0x40_0000 == 0 by {
                if k != first + i {
                    assert(pd.entries@[k] == before.entries@[k]);
                }
            }
            assert forall|k: int| 0 <= k < 768 && !(#[trigger] pd.entries@[k]).spec_is_4m()
                implies pd.tables@[k] is Some && pd.tables@[k]->0.wf() by {
                assert(pd.entries@[k] == before.entries@[k]);
            }
        }
        i = i + 1;
    }
}

/// The entries that never change: the kernel map of the physical space and the high I/O
/// area.
pub fn init_fixed_map(pd: &mut PD, high_start_pfn: usize)
    requires
        old(pd).wf(),
    ensures
        final(pd).wf(),
        final(pd).user_part_direct(),
        final(pd).tables@ == old(pd).tables@,
        forall|d: int| HIGH_IO_OFFSET / PT_COVER_SIZE <= d < PD_ENTRIES ==>
            (#[trigger] final(pd).entries@[d]).data.bits == fixed_pde_bits(d * PT_COVER_SIZE),
        forall|x: int| 0 <= x < HIGH_IO_OFFSET / PT_COVER_SIZE - 768 ==>
            (#[trigger] final(pd).entries@[x + 768]).data.bits
            == (((x * PT_COVER_SIZE) as u32 & 0xffc0_0000) | 0x80) | if x * PT_ENTRIES < high_start_pfn { 0x103u32 } else { 0u32 },
{
    init_kernel_map(pd, high_start_pfn);
    let ghost mid = *pd;
    init_high_io_map(pd);
    proof {
        assert forall|x: int| 0 <= x < HIGH_IO_OFFSET / PT_COVER_SIZE - 768 implies
            (#[trigger] pd.entries@[x + 768]).data.bits
            == (((x * PT_COVER_SIZE) as u32 & 0xffc0_0000) | 0x80) | if x * PT_ENTRIES < high_start_pfn { 0x103u32 } else { 0u32 } by {
            assert((x + 768) % 1024 == x + 768);
            assert(mid.entries@[(x + 768) % 1024] == pd.entries@[x + 768]);
        }
        assert forall|i: int| 0 <= i < 768 implies (#[trigger] pd.entries@[i]).spec_is_4m() by {
            assert(mid.entries@[i] == pd.entries@[i]);
        }
    }
}

/// The entries that point to the shared kernel tables: those of the vmalloc area to the
/// tables at `vmalloc_pt_phys` on, those of the kmap area to the tables at `kmap_pt_phys`
/// on.
pub fn init_arbitrary_map(pd: &mut PD, vmalloc_pt_phys: usize, kmap_pt_phys: usize)
    requires
        old(pd).wf(),
        vmalloc_pt_phys + NR_VMALLOC_PT * PAGE_SIZE <= usize::MAX,
        kmap_pt_phys + NR_KMAP_PT * PAGE_SIZE <= usize::MAX,
    ensures
        final(pd).wf(),
        entries_kept_outside(*old(pd), *final(pd), (VMALLOC_OFFSET / PT_COVER_SIZE) as int,
            (HIGH_IO_OFFSET / PT_COVER_SIZE) as int),
        forall|i: int| 0 <= i < NR_VMALLOC_PT ==>
            (#[trigger] final(pd).entries@[VMALLOC_OFFSET / PT_COVER_SIZE + i]).data.bits
                == table_pde_bits(vmalloc_pt_phys + i * PAGE_SIZE),
        forall|i: int| 0 <= i < NR_KMAP_PT ==>
            (#[trigger] final(pd).entries@[KMAP_OFFSET / PT_COVER_SIZE + i]).data.bits
                == table_pde_bits(kmap_pt_phys + i * PAGE_SIZE),
{
    map_vmalloc_memory(pd, vmalloc_pt_phys);
    let ghost mid = *pd;
    map_kmap_memory(pd, kmap_pt_phys);
    proof {
        assert forall|i: int| 0 <= i < NR_VMALLOC_PT implies
            (#[trigger] pd.entries@[VMALLOC_OFFSET / PT_COVER_SIZE + i]).data.bits
                == table_pde_bits(vmalloc_pt_phys + i * PAGE_SIZE) by {
            assert(mid.entries@[VMALLOC_OFFSET / PT_COVER_SIZE + i] == pd.entries@[VMALLOC_OFFSET / PT_COVER_SIZE + i]);
        }
    }
}

} // verus!
