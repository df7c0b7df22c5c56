use vstd::prelude::*;
use crate::constant::{PAGE_SIZE, PT_COVER_SIZE, PT_ENTRIES, PD_ENTRIES, VM_OFFSET, VMALLOC_OFFSET,
    KMAP_OFFSET, HIGH_IO_OFFSET};
use crate::util::{virt_to_phys, spec_virt_to_phys};
use crate::paging::{PageFlag, PDE, PTE, PT, ENTRY_ADDR_MASK, PAGE_FLAG_ALL, lemma_entry_fields, lemma_entry_bits};
use crate::page_allocator::{PageAllocator, GFP};
use crate::buddy_allocator::alloc_outcome;

verus! {

/// Part of the virtual address space.
#[derive(Debug, PartialEq, Eq, Structural)]
pub enum AddressSpace {
    User,
    Kernel,
    Vmalloc,
    Kmap,
    HighIO,
}

/// The part of the address space that `vaddr` belongs to.
pub open spec fn space_of(vaddr: int) -> AddressSpace {
    if vaddr < VM_OFFSET {
        AddressSpace::User
    } else if vaddr < VMALLOC_OFFSET {
        AddressSpace::Kernel
    } else if vaddr < KMAP_OFFSET {
        AddressSpace::Vmalloc
    } else if vaddr < HIGH_IO_OFFSET {
        AddressSpace::Kmap
    } else {
        AddressSpace::HighIO
    }
}

impl AddressSpace {
    /// The part of the address space that `vaddr` belongs to.
    pub fn identify(vaddr: usize) -> (s: AddressSpace)
        ensures
            s == space_of(vaddr as int),
    {
        if vaddr < VM_OFFSET {
            AddressSpace::User
        } else if vaddr < VMALLOC_OFFSET {
            AddressSpace::Kernel
        } else if vaddr < KMAP_OFFSET {
            AddressSpace::Vmalloc
        } else if vaddr < HIGH_IO_OFFSET {
            AddressSpace::Kmap
        } else {
            AddressSpace::HighIO
        }
    }
}

/// Page tables of the vmalloc area.
pub const NR_VMALLOC_PT: usize = 26;
/// Page tables of the kmap area.
pub const NR_KMAP_PT: usize = 1;

/// The page tables that map the vmalloc and kmap areas, shared by every directory.
pub struct KernelTables {
    pub vmalloc: Vec<PT>,
    pub kmap: Vec<PT>,
}

impl KernelTables {
    pub open spec fn wf(&self) -> bool {
        &&& self.vmalloc@.len() == NR_VMALLOC_PT
        &&& self.kmap@.len() == NR_KMAP_PT
        &&& forall|i: int| 0 <= i < NR_VMALLOC_PT ==> (#[trigger] self.vmalloc@[i]).wf()
        &&& forall|i: int| 0 <= i < NR_KMAP_PT ==> (#[trigger] self.kmap@[i]).wf()
    }

    /// Tables whose entries map nothing.
    pub fn new() -> (kt: KernelTables)
        ensures
            kt.wf(),
    {
        let mut vmalloc: Vec<PT> = Vec::new();
        let mut i: usize = 0;
        while i < NR_VMALLOC_PT
            invariant
                i <= NR_VMALLOC_PT,
                vmalloc@.len() == i,
                forall|k: int| 0 <= k < i ==> (#[trigger] vmalloc@[k]).wf(),
            decreases NR_VMALLOC_PT - i,
        {
            vmalloc.push(PT::new());
            i = i + 1;
        }
        let mut kmap: Vec<PT> = Vec::new();
        kmap.push(PT::new());
        KernelTables { vmalloc, kmap }
    }
}

/// Directory index and table index of `vaddr`.
pub open spec fn index_of(vaddr: int) -> (int, int) {
    (vaddr / PT_COVER_SIZE as int, (vaddr % PT_COVER_SIZE as int) / PAGE_SIZE as int)
}

/// What an entry that maps a page gives for an address: its page, when present.
pub open spec fn pte_target(e: PTE) -> Option<int> {
    if e.spec_present() { Some(e.spec_addr() as int) } else { None }
}

/// `b` is `a` with the entry of the kernel table that maps `vaddr` set to `e`, when
/// `vaddr` lies in the kmap or vmalloc area, and `a` itself otherwise.
pub open spec fn kernel_set(a: KernelTables, b: KernelTables, vaddr: int, e: PTE) -> bool {
    match space_of(vaddr) {
        AddressSpace::Kmap => {
            let (i, j) = index_of(vaddr - KMAP_OFFSET);
            &&& b.vmalloc@ == a.vmalloc@
            &&& forall|k: int| 0 <= k < NR_KMAP_PT && k != i ==> #[trigger] b.kmap@[k] == a.kmap@[k]
            &&& b.kmap@[i].entries@ == a.kmap@[i].entries@.update(j, e)
        },
        AddressSpace::Vmalloc => {
            let (i, j) = index_of(vaddr - VMALLOC_OFFSET);
            &&& b.kmap@ == a.kmap@
            &&& forall|k: int| 0 <= k < NR_VMALLOC_PT && k != i ==> #[trigger] b.vmalloc@[k] == a.vmalloc@[k]
            &&& b.vmalloc@[i].entries@ == a.vmalloc@[i].entries@.update(j, e)
        },
        _ => b.vmalloc@ == a.vmalloc@ && b.kmap@ == a.kmap@,
    }
}

/// A page directory: 1024 entries, with the page tables that the entries of the user part
/// of the address space point to.
pub struct PD {
    pub entries: Vec<PDE>,
    pub tables: Vec<Option<PT>>,
}

impl PD {
    pub open spec fn wf(&self) -> bool {
        &&& self.entries@.len() == PD_ENTRIES
        &&& self.tables@.len() == PD_ENTRIES
        &&& forall|i: int| 0 <= i < PD_ENTRIES && (#[trigger] self.entries@[i]).spec_is_4m()
            ==> self.entries@[i].spec_addr() % 0x40_0000 == 0
        &&& forall|i: int| 0 <= i < VM_OFFSET / PT_COVER_SIZE && !(#[trigger] self.entries@[i]).spec_is_4m()
            ==> self.tables@[i] is Some && self.tables@[i]->0.wf()
    }

    /// The page table that maps `vaddr` when its directory entry points to one.
    pub open spec fn table_for(&self, kt: &KernelTables, vaddr: int) -> PT {
        let d = index_of(vaddr).0;
        match space_of(vaddr) {
            AddressSpace::Vmalloc => kt.vmalloc@[d - VMALLOC_OFFSET / PT_COVER_SIZE],
            AddressSpace::Kmap => kt.kmap@[d - KMAP_OFFSET / PT_COVER_SIZE],
            _ => self.tables@[d]->0,
        }
    }

    /// Physical address that `vaddr` maps to through the entries and tables, if any.
    pub open spec fn walk(&self, kt: &KernelTables, vaddr: int) -> Option<int> {
        let (d, t) = index_of(vaddr);
        let e = self.entries@[d];
        if e.spec_is_4m() {
            if e.data.bits & 1 == 1 { Some(e.spec_addr() + t * PAGE_SIZE) } else { None }
        } else {
            pte_target(self.table_for(kt, vaddr).entries@[t])
        }
    }

    /// Physical address that `vaddr` maps to, if any.
    pub open spec fn translate(&self, kt: &KernelTables, vaddr: int) -> Option<int> {
        match space_of(vaddr) {
            AddressSpace::Kernel => Some(spec_virt_to_phys(vaddr)),
            AddressSpace::HighIO => Some(vaddr),
            _ => self.walk(kt, vaddr),
        }
    }

    /// A directory whose entries map nothing.
    pub fn uninit() -> (pd: PD)
        ensures
            pd.entries@.len() == PD_ENTRIES,
            pd.tables@.len() == PD_ENTRIES,
            forall|i: int| 0 <= i < PD_ENTRIES ==> (#[trigger] pd.entries@[i]).data.bits == 0,
    {
        let mut entries: Vec<PDE> = Vec::new();
        let mut tables: Vec<Option<PT>> = Vec::new();
        let mut i: usize = 0;
        while i < PD_ENTRIES
            invariant
                i <= PD_ENTRIES,
                entries@.len() == i,
                tables@.len() == i,
                forall|k: int| 0 <= k < i ==> (#[trigger] entries@[k]).data.bits == 0,
            decreases PD_ENTRIES - i,
        {
            entries.push(PDE { data: PageFlag::empty() });
            tables.push(None);
            i = i + 1;
        }
        PD { entries, tables }
    }

    /// Directory and table index of `vaddr`.
    pub fn addr_to_index(vaddr: usize) -> (r: (usize, usize))
        ensures
            r.0 == index_of(vaddr as int).0,
            r.1 == index_of(vaddr as int).1,
            r.1 < PT_ENTRIES,
    {
        (vaddr / PT_COVER_SIZE, (vaddr % PT_COVER_SIZE) / PAGE_SIZE)
    }

    /// The entry that maps the page at `paddr` with `flags`.
    pub open spec fn spec_pte(paddr: usize, flags: PageFlag) -> PTE {
        PTE { data: PageFlag { bits: (paddr as u32 & ENTRY_ADDR_MASK) | flags.bits } }
    }

    /// Physical address that `vaddr` maps to through its directory entry and table.
    fn lookup_arbitary(&self, kt: &KernelTables, vaddr: usize) -> (r: Option<usize>)
        requires
            self.wf(),
            kt.wf(),
            vaddr < HIGH_IO_OFFSET,
            space_of(vaddr as int) != AddressSpace::Kernel,
        ensures
            match r {
                Some(a) => self.walk(kt, vaddr as int) == Some(a as int),
                None => self.walk(kt, vaddr as int) is None,
            },
    {
        let (pd_idx, pt_idx) = Self::addr_to_index(vaddr);
        let pde = self.entries[pd_idx];
        if pde.is_4m() {
            let f = pde.flag();
            if f.contains(PageFlag::present()) {
                let a = pde.addr();
                proof { lemma_entry_bits(pde.data.bits, 0, 0); }
                Some(a + pt_idx * PAGE_SIZE)
            } else {
                proof { lemma_entry_bits(pde.data.bits, 0, 0); }
                None
            }
        } else {
            let pte = match AddressSpace::identify(vaddr) {
                AddressSpace::Vmalloc => kt.vmalloc[pd_idx - VMALLOC_OFFSET / PT_COVER_SIZE].entries[pt_idx],
                AddressSpace::Kmap => kt.kmap[pd_idx - KMAP_OFFSET / PT_COVER_SIZE].entries[pt_idx],
                _ => match &self.tables[pd_idx] {
                    Some(pt) => pt.entries[pt_idx],
                    None => {
                        return None;
                    },
                },
            };
            let f = pte.flag();
            proof { lemma_entry_bits(pte.data.bits, 0, 0); }
            if f.contains(PageFlag::present()) {
                Some(pte.addr())
            } else {
                None
            }
        }
    }

    /// Physical address that `vaddr` maps to, if any: the linear map gives it by
    /// arithmetic, high I/O maps to itself, the other parts go through the tables.
    pub fn lookup(&self, kt: &KernelTables, vaddr: usize) -> (r: Option<usize>)
        requires
            self.wf(),
            kt.wf(),
        ensures
            match r {
                Some(a) => self.translate(kt, vaddr as int) == Some(a as int),
                None => self.translate(kt, vaddr as int) is None,
            },
    {
        match AddressSpace::identify(vaddr) {
            AddressSpace::Kernel => Some(virt_to_phys(vaddr)),
            AddressSpace::HighIO => Some(vaddr),
            _ => self.lookup_arbitary(kt, vaddr),
        }
    }

    /// Sets entry `j` of table `i`.
    fn set_table_entry(tables: &mut Vec<PT>, i: usize, j: usize, e: PTE)
        requires
            i < old(tables)@.len(),
            old(tables)@[i as int].wf(),
            j < PT_ENTRIES,
        ensures
            final(tables)@.len() == old(tables)@.len(),
            forall|k: int| 0 <= k < old(tables)@.len() && k != i ==> #[trigger] final(tables)@[k] == old(tables)@[k],
            final(tables)@[i as int].entries@ == old(tables)@[i as int].entries@.update(j as int, e),
    {
        let mut pt = tables.remove(i);
        pt.entries.set(j, e);
        tables.insert(i, pt);
    }

    /// Maps the page at `vaddr` of the kmap or vmalloc area to `paddr` with `flags`;
    /// other addresses are left alone.
    pub fn map_kernel(&self, kt: &mut KernelTables, vaddr: usize, paddr: usize, flags: PageFlag)
        requires
            old(kt).wf(),
        ensures
            final(kt).wf(),
            kernel_set(*old(kt), *final(kt), vaddr as int, Self::spec_pte(paddr, flags)),
    {
        match AddressSpace::identify(vaddr) {
            AddressSpace::Kmap => {
                let (pd_idx, pt_idx) = Self::addr_to_index(vaddr - KMAP_OFFSET);
                Self::set_table_entry(&mut kt.kmap, pd_idx, pt_idx, PTE::new(paddr, flags));
            },
            AddressSpace::Vmalloc => {
                let (pd_idx, pt_idx) = Self::addr_to_index(vaddr - VMALLOC_OFFSET);
                Self::set_table_entry(&mut kt.vmalloc, pd_idx, pt_idx, PTE::new(paddr, flags));
            },
            _ => {},
        }
    }

    /// Unmaps the page at `vaddr` of the kmap or vmalloc area; other addresses are left
    /// alone.
    pub fn unmap_kernel(&self, kt: &mut KernelTables, vaddr: usize)
        requires
            old(kt).wf(),
        ensures
            final(kt).wf(),
            kernel_set(*old(kt), *final(kt), vaddr as int, Self::spec_pte(0, PageFlag { bits: 256 })),
    {
        match AddressSpace::identify(vaddr) {
            AddressSpace::Kmap => {
                let (pd_idx, pt_idx) = Self::addr_to_index(vaddr - KMAP_OFFSET);
                Self::set_table_entry(&mut kt.kmap, pd_idx, pt_idx, PTE::new(0, PageFlag::global()));
            },
            AddressSpace::Vmalloc => {
                let (pd_idx, pt_idx) = Self::addr_to_index(vaddr - VMALLOC_OFFSET);
                Self::set_table_entry(&mut kt.vmalloc, pd_idx, pt_idx, PTE::new(0, PageFlag::global()));
            },
            _ => {},
        }
    }

    /// The entries of the kernel part are those of `kernel`, and every entry of the user
    /// part maps 4 MiB directly.
    pub open spec fn user_part_direct(&self) -> bool {
        forall|i: int| 0 <= i < VM_OFFSET / PT_COVER_SIZE ==> (#[trigger] self.entries@[i]).spec_is_4m()
    }

    /// A directory for a new address space: a page for it from the normal zone, and a copy
    /// of the entries of `kernel`.
    pub fn new(kernel: &PD, pages: &mut PageAllocator) -> (r: Result<PD, ()>)
        requires
            kernel.wf(),
            kernel.user_part_direct(),
            old(pages).wf(),
        ensures
            final(pages).wf(),
            final(pages).high() == old(pages).high(),
            exists|pr: Result<usize, ()>| alloc_outcome(old(pages).normal(), final(pages).normal(), 0, pr)
                && (pr is Ok <==> r is Ok),
            match r {
                Ok(pd) => pd.wf() && pd.entries@ == kernel.entries@,
                Err(_) => true,
            },
    {
        match pages.alloc_page(0, GFP::Normal) {
            Ok(_) => {},
            Err(_) => {
                return Err(());
            },
        }
        let mut entries: Vec<PDE> = Vec::new();
        let mut tables: Vec<Option<PT>> = Vec::new();
        let mut i: usize = 0;
        while i < PD_ENTRIES
            invariant
                kernel.wf(),
                i <= PD_ENTRIES,
                entries@.len() == i,
                tables@.len() == i,
                forall|k: int| 0 <= k < i ==> #[trigger] entries@[k] == kernel.entries@[k],
            decreases PD_ENTRIES - i,
        {
            entries.push(kernel.entries[i]);
            tables.push(None);
            i = i + 1;
        }
        assert(entries@ =~= kernel.entries@);
        Ok(PD { entries, tables })
    }

    /// Physical address that the user address `vaddr` maps to, if any.
    pub open spec fn user_translate(&self, vaddr: int) -> Option<int> {
        let (d, t) = index_of(vaddr);
        let e = self.entries@[d];
        if e.spec_is_4m() {
            if e.data.bits & 1 == 1 { Some(e.spec_addr() + t * PAGE_SIZE) } else { None }
        } else {
            pte_target(self.tables@[d]->0.entries@[t])
        }
    }

    /// Sets entry `t` of the user page table of directory entry `d`.
    fn set_user_entry(&mut self, d: usize, t: usize, e: PTE)
        requires
            old(self).wf(),
            d < VM_OFFSET / PT_COVER_SIZE,
            !old(self).entries@[d as int].spec_is_4m(),
            t < PT_ENTRIES,
        ensures
            final(self).wf(),
            final(self).entries@ == old(self).entries@,
            forall|k: int| 0 <= k < PD_ENTRIES && k != d ==> #[trigger] final(self).tables@[k] == old(self).tables@[k],
            final(self).tables@[d as int]->0.entries@ == old(self).tables@[d as int]->0.entries@.update(t as int, e),
    {
        let slot = self.tables.remove(d);
        match slot {
            Some(mut pt) => {
                pt.entries.set(t, e);
                self.tables.insert(d, Some(pt));
            },
            None => {
                self.tables.insert(d, None);
            },
        }
    }

    /// Maps the user page at `vaddr` to `paddr` with `flags`. A directory entry that maps
    /// 4 MiB directly is first replaced with a page table, on a page from the normal zone,
    /// that maps the same 4 MiB page by page. Other addresses are left alone.
    pub fn map_user(&mut self, vaddr: usize, paddr: usize, flags: PageFlag, pages: &mut PageAllocator)
        -> (r: Result<(), ()>)
        requires
            old(self).wf(),
            old(pages).wf(),
        ensures
            final(self).wf(),
            final(pages).wf(),
            final(pages).high() == old(pages).high(),
            space_of(vaddr as int) != AddressSpace::User ==> r is Ok && final(self).entries@ == old(self).entries@
                && final(self).tables@ == old(self).tables@ && *final(pages) == *old(pages),
            space_of(vaddr as int) == AddressSpace::User ==> if old(self).entries@[index_of(vaddr as int).0].spec_is_4m() {
                &&& exists|pr: Result<usize, ()>| alloc_outcome(old(pages).normal(), final(pages).normal(), 0, pr)
                    && (pr is Ok <==> r is Ok)
                &&& r is Err ==> final(self).entries@ == old(self).entries@ && final(self).tables@ == old(self).tables@
            } else {
                r is Ok && *final(pages) == *old(pages)
            },
            space_of(vaddr as int) == AddressSpace::User && r is Ok ==>
                final(self).user_translate(vaddr as int) == pte_target(Self::spec_pte(paddr, flags))
                && !final(self).entries@[index_of(vaddr as int).0].spec_is_4m(),
            forall|w: int| 0 <= w < VM_OFFSET && index_of(w) != index_of(vaddr as int) ==>
                #[trigger] final(self).user_translate(w) == old(self).user_translate(w),
            old(pages).normal_free_pages() >= 1 ==> r is Ok,
            r is Ok ==> final(pages).normal_free_pages() + 1 >= old(pages).normal_free_pages(),
            final(self).entries@.len() == old(self).entries@.len(),
            forall|j: int| 0 <= j < old(self).entries@.len() && j != index_of(vaddr as int).0 ==>
                #[trigger] final(self).entries@[j] == old(self).entries@[j],
    {
        match AddressSpace::identify(vaddr) {
            AddressSpace::User => {},
            _ => {
                return Ok(());
            },
        }
        let (pd_idx, pt_idx) = Self::addr_to_index(vaddr);
        assert(pd_idx < VM_OFFSET / PT_COVER_SIZE);
        let pde = self.entries[pd_idx];
        let e = PTE::new(paddr, flags);
        if pde.is_4m() {
            let pt_addr = match pages.alloc_page(0, GFP::Normal) {
                Ok(a) => a,
                Err(_) => {
                    return Err(());
                },
            };
            let ghost old_self = *self;
            let mut pt = PT::new_from_4m(pde);
            let ghost pt0 = pt.entries@;
            pt.entries.set(pt_idx, e);
            let pt_paddr = virt_to_phys(pt_addr);
            let new_pde = PDE::new(pt_paddr, PageFlag::user().union(PageFlag::write()).union(PageFlag::present()));
            proof { lemma_entry_bits(0, pt_paddr as u32, 0); }
            assert(!new_pde.spec_is_4m());
            self.entries.set(pd_idx, new_pde);
            self.tables.set(pd_idx, Some(pt));
            proof {
                assert forall|w: int| 0 <= w < VM_OFFSET && index_of(w) != index_of(vaddr as int) implies
                    #[trigger] self.user_translate(w) == old_self.user_translate(w) by {
                    let (dw, tw) = index_of(w);
                    assert(0 <= dw < VM_OFFSET / PT_COVER_SIZE) by (nonlinear_arith)
                        requires dw == w / 0x40_0000, 0 <= w < 0xc000_0000;
                    assert(0 <= tw < PT_ENTRIES) by (nonlinear_arith)
                        requires tw == (w % 0x40_0000) / 4096;
                    if dw == pd_idx {
                        assert(tw != pt_idx);
                        assert(self.entries@[dw] == new_pde);
                        assert(self.tables@[dw]->0.entries@[tw] == pt0[tw]);
                        lemma_split_keeps(pde, tw);
                    } else {
                        assert(self.entries@[dw] == old_self.entries@[dw]);
                        assert(self.tables@[dw] == old_self.tables@[dw]);
                    }
                }
            }
        } else {
            self.set_user_entry(pd_idx, pt_idx, e);
        }
        Ok(())
    }

    /// Clears the present flag, and with it the address, of the user page at `vaddr` when
    /// its directory entry points to a page table. Other addresses are left alone.
    pub fn unmap_user(&mut self, vaddr: usize)
        requires
            old(self).wf(),
        ensures
            final(self).wf(),
            final(self).entries@ == old(self).entries@,
            space_of(vaddr as int) == AddressSpace::User && !old(self).entries@[index_of(vaddr as int).0].spec_is_4m()
                ==> final(self).user_translate(vaddr as int) is None,
            space_of(vaddr as int) != AddressSpace::User || old(self).entries@[index_of(vaddr as int).0].spec_is_4m()
                ==> final(self).tables@ == old(self).tables@,
            forall|w: int| 0 <= w < VM_OFFSET && index_of(w) != index_of(vaddr as int) ==>
                #[trigger] final(self).user_translate(w) == old(self).user_translate(w),
    {
        match AddressSpace::identify(vaddr) {
            AddressSpace::User => {},
            _ => {
                return;
            },
        }
        let (pd_idx, pt_idx) = Self::addr_to_index(vaddr);
        let pde = self.entries[pd_idx];
        if pde.is_4m() {
            return;
        }
        let old_entry = match &self.tables[pd_idx] {
            Some(pt) => pt.entries[pt_idx],
            None => {
                return;
            },
        };
        let mut new_flag = old_entry.flag();
        new_flag.remove(PageFlag::present());
        let mut entry = old_entry;
        entry.set_flag(new_flag);
        proof { lemma_entry_bits(old_entry.data.bits, 0, 0); }
        self.set_user_entry(pd_idx, pt_idx, entry);
    }

    /// Physical address that the user address `vaddr` maps to, if any.
    pub fn lookup_user(&self, vaddr: usize) -> (r: Option<usize>)
        requires
            self.wf(),
            vaddr < VM_OFFSET,
        ensures
            match r {
                Some(a) => self.user_translate(vaddr as int) == Some(a as int),
                None => self.user_translate(vaddr as int) is None,
            },
    {
        let (pd_idx, pt_idx) = Self::addr_to_index(vaddr);
        let pde = self.entries[pd_idx];
        if pde.is_4m() {
            proof { lemma_entry_bits(pde.data.bits, 0, 0); }
            if pde.flag().contains(PageFlag::present()) {
                Some(pde.addr() + pt_idx * PAGE_SIZE)
            } else {
                None
            }
        } else {
            let pte = match &self.tables[pd_idx] {
                Some(pt) => pt.entries[pt_idx],
                None => {
                    return None;
                },
            };
            proof { lemma_entry_bits(pte.data.bits, 0, 0); }
            if pte.flag().contains(PageFlag::present()) {
                Some(pte.addr())
            } else {
                None
            }
        }
    }
}

/// After an entry of the kernel tables is set for an address of the kmap or vmalloc area,
/// a directory whose entry for that address points to a table maps it as the entry says.
pub proof fn lemma_kernel_set_translate(pd: PD, a: KernelTables, b: KernelTables, vaddr: int, e: PTE)
    requires
        pd.wf(),
        a.wf(),
        0 <= vaddr,
        space_of(vaddr) == AddressSpace::Kmap || space_of(vaddr) == AddressSpace::Vmalloc,
        !pd.entries@[index_of(vaddr).0].spec_is_4m(),
        kernel_set(a, b, vaddr, e),
    ensures
        pd.translate(&b, vaddr) == pte_target(e),
{
    let base = if space_of(vaddr) == AddressSpace::Kmap { KMAP_OFFSET as int } else { VMALLOC_OFFSET as int };
    assert(base % 0x40_0000 == 0);
    assert((vaddr - base) / 0x40_0000 == vaddr / 0x40_0000 - base / 0x40_0000) by (nonlinear_arith)
        requires base % 0x40_0000 == 0, vaddr >= base;
    assert((vaddr - base) % 0x40_0000 == vaddr % 0x40_0000) by (nonlinear_arith)
        requires base % 0x40_0000 == 0, vaddr >= base;
    assert(index_of(vaddr - base).1 < PT_ENTRIES) by (nonlinear_arith)
        requires index_of(vaddr - base).1 == ((vaddr - base) % 0x40_0000) / 4096, vaddr >= base;
}

/// Unmapping a page of the kmap or vmalloc area leaves it unmapped.
pub proof fn lemma_unmapped_kernel_entry()
    ensures
        pte_target(PD::spec_pte(0, PageFlag { bits: 256 })) is None,
{
    lemma_entry_bits(0, 0, 0);
}

/// The page table made from a 4 MiB entry maps each page as the entry did.
proof fn lemma_split_keeps(pde: PDE, t: int)
    requires
        pde.spec_is_4m(),
        pde.spec_addr() % 0x40_0000 == 0,
        0 <= t < PT_ENTRIES,
    ensures
        pte_target(PTE { data: PageFlag { bits:
            ((pde.spec_addr() + PAGE_SIZE * t) as u32 & ENTRY_ADDR_MASK) | (pde.data.bits & PAGE_FLAG_ALL) } })
        == if pde.data.bits & 1 == 1 { Some(pde.spec_addr() + t * PAGE_SIZE) } else { None::<int> },
{
    let b: u32 = pde.data.bits;
    let a: u32 = pde.spec_addr();
    lemma_entry_bits(b, 0, 0);
    let x: u32 = (a + 4096 * t) as u32;
    assert(a + 4096 * t <= 0xffff_ffff);
    assert(x == a + 4096 * t);
    assert(x % 4096 == 0) by (nonlinear_arith) requires x == a + 4096 * t, a % 0x40_0000 == 0;
    lemma_entry_fields(x, b & 0x1ffu32);
    lemma_entry_bits(b, x, 0);
}

/// The entry of the kernel tables that maps the kmap or vmalloc address `w`.
pub open spec fn kt_entry(kt: KernelTables, w: int) -> PTE {
    match space_of(w) {
        AddressSpace::Kmap => kt.kmap@[index_of(w - KMAP_OFFSET).0].entries@[index_of(w - KMAP_OFFSET).1],
        _ => kt.vmalloc@[index_of(w - VMALLOC_OFFSET).0].entries@[index_of(w - VMALLOC_OFFSET).1],
    }
}

/// Two addresses have the same directory and table indices exactly when they lie in the
/// same page.
pub proof fn lemma_index_same_page(x: int, y: int)
    requires
        0 <= x,
        0 <= y,
    ensures
        (index_of(x) == index_of(y)) <==> (x / PAGE_SIZE as int == y / PAGE_SIZE as int),
{
    assert(x / 4096 == (x / 0x40_0000) * 1024 + (x % 0x40_0000) / 4096) by (nonlinear_arith) requires x >= 0;
    assert(y / 4096 == (y / 0x40_0000) * 1024 + (y % 0x40_0000) / 4096) by (nonlinear_arith) requires y >= 0;
    assert((x % 0x40_0000) / 4096 < 1024) by (nonlinear_arith) requires x >= 0;
    assert((y % 0x40_0000) / 4096 < 1024) by (nonlinear_arith) requires y >= 0;
}

/// After the entry for `v` is set to `e`, the entry for every kmap or vmalloc address in
/// the page of `v` is `e`, and the others are as they were.
pub proof fn lemma_kernel_set_entry(a: KernelTables, b: KernelTables, v: int, e: PTE, w: int)
    requires
        a.wf(),
        0 <= v,
        0 <= w,
        w < HIGH_IO_OFFSET,
        v < HIGH_IO_OFFSET,
        space_of(v) == AddressSpace::Kmap || space_of(v) == AddressSpace::Vmalloc,
        space_of(w) == AddressSpace::Kmap || space_of(w) == AddressSpace::Vmalloc,
        kernel_set(a, b, v, e),
    ensures
        kt_entry(b, w) == if w / PAGE_SIZE as int == v / PAGE_SIZE as int { e } else { kt_entry(a, w) },
{
    let ov: int = if space_of(v) == AddressSpace::Kmap { KMAP_OFFSET as int } else { VMALLOC_OFFSET as int };
    let ow: int = if space_of(w) == AddressSpace::Kmap { KMAP_OFFSET as int } else { VMALLOC_OFFSET as int };
    lemma_index_same_page(w - ow, v - ov);
    assert((w - ow) / 4096 == w / 4096 - ow / 4096) by (nonlinear_arith) requires ow % 4096 == 0, w >= ow;
    assert((v - ov) / 4096 == v / 4096 - ov / 4096) by (nonlinear_arith) requires ov % 4096 == 0, v >= ov;
    assert(index_of(v - ov).0 < (if ov == KMAP_OFFSET { NR_KMAP_PT as int } else { NR_VMALLOC_PT as int })) by (nonlinear_arith)
        requires index_of(v - ov).0 == (v - ov) / 0x40_0000, v >= ov,
            ov == KMAP_OFFSET ==> v < HIGH_IO_OFFSET, ov == VMALLOC_OFFSET ==> v < KMAP_OFFSET,
            ov == KMAP_OFFSET || ov == VMALLOC_OFFSET;
    if space_of(v) != space_of(w) {
        assert(w / 4096 != v / 4096) by (nonlinear_arith)
            requires (space_of(v) == AddressSpace::Kmap) != (space_of(w) == AddressSpace::Kmap),
                space_of(v) == AddressSpace::Kmap <==> KMAP_OFFSET <= v,
                space_of(w) == AddressSpace::Kmap <==> KMAP_OFFSET <= w,
                KMAP_OFFSET % 4096 == 0;
    }
}


/// Mapping a user page and looking it up gives the page mapped, when the flags make the
/// entry present; every other user page looks up as before; unmapping the page afterwards
/// makes the lookup find nothing. `pd1` is what `map_user` leaves of `pd0` when it
/// returns `Ok`, `pd2` what `unmap_user` leaves of `pd1`.
pub proof fn lemma_map_lookup_unmap(pd0: PD, pd1: PD, pd2: PD, kt: KernelTables, v: usize, p: usize, f: PageFlag)
    requires
        space_of(v as int) == AddressSpace::User,
        f.bits & 1 == 1,
        f.bits <= 0x1ff,
        pd1.user_translate(v as int) == pte_target(PD::spec_pte(p, f)),
        !pd1.entries@[index_of(v as int).0].spec_is_4m(),
        forall|w: int| 0 <= w < VM_OFFSET && index_of(w) != index_of(v as int) ==>
            #[trigger] pd1.user_translate(w) == pd0.user_translate(w),
        pd2.entries@ == pd1.entries@,
        !pd1.entries@[index_of(v as int).0].spec_is_4m() ==> pd2.user_translate(v as int) is None,
    ensures
        pd1.translate(&kt, v as int) == Some((p as u32 & ENTRY_ADDR_MASK) as int),
        forall|w: int| 0 <= w < VM_OFFSET && index_of(w) != index_of(v as int) ==>
            #[trigger] pd1.translate(&kt, w) == pd0.translate(&kt, w),
        pd2.translate(&kt, v as int) is None,
{
    lemma_entry_bits(0, p as u32, f.bits);
    assert forall|w: int| 0 <= w < VM_OFFSET && index_of(w) != index_of(v as int) implies
        #[trigger] pd1.translate(&kt, w) == pd0.translate(&kt, w) by {
        assert(pd1.user_translate(w) == pd0.user_translate(w));
    }
}

} // verus!
