use vstd::prelude::*;
use std::ops::Range;
use crate::constant::{PAGE_SIZE, VM_OFFSET, VMALLOC_OFFSET, KMAP_OFFSET, HIGH_IO_OFFSET};
use crate::util::{virt_to_phys, phys_to_virt, spec_phys_to_virt, spec_virt_to_phys, usize_modulus};
use crate::vmalloc::{AddressTree, free_frames, is_best_fit, lemma_take_allocates_run, lemma_release_frees_run, Page};
use crate::paging::PageFlag;
use crate::page_directory::{PD, KernelTables, kt_entry, space_of, AddressSpace, lemma_kernel_set_entry};
use crate::page_allocator::{PageAllocator, GFP, page_owned, alloc_high_outcome, lemma_fresh_page_apart};
use crate::buddy_allocator::{page_index, page_addr};

verus! {

/// Why a virtual allocation failed: no room in the address range, or no physical page
/// for the range that starts at the address given.
#[derive(Debug, PartialEq, Eq, Structural)]
pub enum VMallocError {
    OutOfAddress,
    OutOfMemory(usize),
}

/// Frames of the vmalloc area.
pub open spec fn vmalloc_frames() -> Set<int> {
    Set::new(|f: int| VMALLOC_OFFSET / PAGE_SIZE <= f < KMAP_OFFSET / PAGE_SIZE)
}

/// The entry that maps a vmalloc page: present, global and writable.
pub open spec fn vmalloc_pte(paddr: usize) -> crate::paging::PTE {
    PD::spec_pte(paddr, PageFlag { bits: 0x103 })
}

/// The linear-map addresses of the physical pages `frames` are owned by `pa`, page
/// aligned and distinct.
pub open spec fn frames_owned(pa: PageAllocator, frames: Seq<usize>) -> bool {
    &&& forall|k: int| 0 <= k < frames.len() ==> page_owned(pa, #[trigger] spec_phys_to_virt(frames[k] as int) as usize)
    &&& forall|k: int| 0 <= k < frames.len() ==> (#[trigger] spec_phys_to_virt(frames[k] as int)) % PAGE_SIZE as int == 0
    &&& forall|j: int, k: int| 0 <= j < k < frames.len() ==>
        spec_phys_to_virt(#[trigger] frames[j] as int) != spec_phys_to_virt(#[trigger] frames[k] as int)
}

/// The linear-map address of the physical address of a linear-map address is itself.
pub proof fn lemma_linear_roundtrip(a: usize)
    ensures
        spec_phys_to_virt(spec_virt_to_phys(a as int)) == a,
{
    let m = usize_modulus();
    vstd::layout::unsigned_int_max_values();
    let p = spec_virt_to_phys(a as int);
    if a >= VM_OFFSET {
        vstd::arithmetic::div_mod::lemma_small_mod((a - VM_OFFSET) as nat, m as nat);
        vstd::arithmetic::div_mod::lemma_small_mod(a as nat, m as nat);
    } else {
        vstd::arithmetic::div_mod::lemma_mod_add_multiples_vanish(a - VM_OFFSET, m);
        vstd::arithmetic::div_mod::lemma_small_mod((a - VM_OFFSET + m) as nat, m as nat);
        assert(p == a - VM_OFFSET + m);
        vstd::arithmetic::div_mod::lemma_mod_sub_multiples_vanish(a + m, m);
        vstd::arithmetic::div_mod::lemma_small_mod(a as nat, m as nat);
    }
}

/// Page-aligned linear-map addresses with the same frame index are equal.
pub proof fn lemma_page_index_injective(x: usize, y: usize)
    requires
        x % PAGE_SIZE == 0,
        y % PAGE_SIZE == 0,
        page_index(x as int) == page_index(y as int),
    ensures
        x == y,
{
    let px = spec_virt_to_phys(x as int);
    let py = spec_virt_to_phys(y as int);
    lemma_linear_roundtrip(x);
    lemma_linear_roundtrip(y);
    vstd::layout::unsigned_int_max_values();
    let m = usize_modulus();
    assert(m % 4096 == 0) by {
        crate::util::lemma_modulus_is_pow2();
        vstd::arithmetic::power2::lemma2_to64();
        vstd::arithmetic::power2::lemma2_to64_rest();
    }
    assert(px % 4096 == 0 && py % 4096 == 0) by {
        if x >= VM_OFFSET {
            vstd::arithmetic::div_mod::lemma_small_mod((x - VM_OFFSET) as nat, m as nat);
        } else {
            vstd::arithmetic::div_mod::lemma_mod_add_multiples_vanish(x - VM_OFFSET, m);
            vstd::arithmetic::div_mod::lemma_small_mod((x - VM_OFFSET + m) as nat, m as nat);
            assert((x - VM_OFFSET + m) % 4096 == 0) by (nonlinear_arith)
                requires x % 4096 == 0, m % 4096 == 0, VM_OFFSET % 4096 == 0;
        }
        if y >= VM_OFFSET {
            vstd::arithmetic::div_mod::lemma_small_mod((y - VM_OFFSET) as nat, m as nat);
        } else {
            vstd::arithmetic::div_mod::lemma_mod_add_multiples_vanish(y - VM_OFFSET, m);
            vstd::arithmetic::div_mod::lemma_small_mod((y - VM_OFFSET + m) as nat, m as nat);
            assert((y - VM_OFFSET + m) % 4096 == 0) by (nonlinear_arith)
                requires y % 4096 == 0, m % 4096 == 0, VM_OFFSET % 4096 == 0;
        }
    }
    assert(px == py) by (nonlinear_arith)
        requires px / 4096 == py / 4096, px % 4096 == 0, py % 4096 == 0;
}

/// `b` holds the free runs of `a` after `pages` frames were taken, from the start of the
/// best-fitting run, whose first frame is at address `base`.
pub open spec fn taken_at(a: Set<Page>, b: Set<Page>, pages: usize, base: usize) -> bool {
    exists|p: Page| #[trigger] is_best_fit(a, pages as int, p) && base == p.pfn * PAGE_SIZE
        && b == a.remove(p).insert(Page { pfn: (p.pfn + pages) as usize, count: (p.count - pages) as usize })
}

/// What allocating a range of `pages` pages at `base` has done so far: the frames of
/// the range were taken from the free runs, and each physical page recorded since
/// `f0` maps its page of the range, the other kernel entries staying as in `kt0`.
pub open spec fn progress(r0: Set<Page>, r1: Set<Page>, f0: Seq<usize>, f1: Seq<usize>, kt0: KernelTables,
    kt1: KernelTables, pages: usize, base: usize) -> bool {
    let n = f1.len() - f0.len();
    &&& taken_at(r0, r1, pages, base)
    &&& base % PAGE_SIZE == 0
    &&& VMALLOC_OFFSET <= base
    &&& base + pages * PAGE_SIZE <= KMAP_OFFSET
    &&& f0.is_prefix_of(f1)
    &&& forall|k: int| 0 <= k < n ==> kt_entry(kt1, base + k * PAGE_SIZE) == vmalloc_pte(#[trigger] f1[f0.len() + k])
    &&& forall|w: int| 0 <= w < HIGH_IO_OFFSET && (space_of(w) == AddressSpace::Vmalloc || space_of(w) == AddressSpace::Kmap)
        && !(base <= w < base + n * PAGE_SIZE) ==> #[trigger] kt_entry(kt1, w) == kt_entry(kt0, w)
}

/// Taking frames from a run keeps the free frames among those there were.
proof fn lemma_take_in_area(s: Set<Page>, count: int, b: Page)
    requires
        is_best_fit(s, count, b),
        count >= 0,
        b.pfn + b.count <= usize::MAX,
    ensures
        free_frames(s.remove(b).insert(Page { pfn: (b.pfn + count) as usize, count: (b.count - count) as usize }))
            .subset_of(free_frames(s)),
        count > 0 ==> free_frames(s).contains(b.pfn as int) && free_frames(s).contains(b.pfn + count - 1),
{
    let rest = Page { pfn: (b.pfn + count) as usize, count: (b.count - count) as usize };
    let r = s.remove(b).insert(rest);
    assert forall|f: int| free_frames(r).contains(f) implies free_frames(s).contains(f) by {
        let q = choose|q: Page| #[trigger] r.contains(q) && q.pfn <= f < q.pfn + q.count;
        if q == rest {
            assert(s.contains(b) && b.pfn <= f < b.pfn + b.count);
        } else {
            assert(s.contains(q));
        }
    }
    if count > 0 {
        assert(s.contains(b) && b.pfn <= b.pfn < b.pfn + b.count);
        assert(s.contains(b) && b.pfn <= b.pfn + count - 1 < b.pfn + b.count);
    }
}

/// A run of free frames of the vmalloc area starts at a page address inside it.
proof fn lemma_frames_in_area(p: Page, count: int, base: usize)
    requires
        count > 0,
        vmalloc_frames().contains(p.pfn as int),
        vmalloc_frames().contains(p.pfn + count - 1),
        base == ((p.pfn as int * PAGE_SIZE) % usize_modulus()) as usize,
    ensures
        base == p.pfn * PAGE_SIZE,
        base % PAGE_SIZE == 0,
        VMALLOC_OFFSET <= base,
        base + count * PAGE_SIZE <= KMAP_OFFSET,
{
    vstd::layout::unsigned_int_max_values();
    vstd::arithmetic::div_mod::lemma_small_mod((p.pfn * 4096) as nat, usize_modulus() as nat);
}

/// The linear-map addresses of physical pages.
pub open spec fn linear_of(frames: Seq<usize>) -> Seq<usize> {
    frames.map_values(|f: usize| spec_phys_to_virt(f as int) as usize)
}

/// Recording a page just handed out keeps the recorded pages owned and apart.
proof fn lemma_record_fresh(p0: PageAllocator, p1: PageAllocator, a: usize, frames: Seq<usize>)
    requires
        p0.wf(),
        p1.wf(),
        alloc_high_outcome(p0, p1, 0, Ok(a)),
        frames_owned(p0, frames),
    ensures
        frames_owned(p1, frames.push(spec_virt_to_phys(a as int) as usize)),
{
    let l = linear_of(frames);
    assert forall|k: int| 0 <= k < l.len() implies page_owned(p0, #[trigger] l[k]) by {
        assert(page_owned(p0, spec_phys_to_virt(frames[k] as int) as usize));
    }
    lemma_fresh_page_apart(p0, p1, a, l);
    lemma_linear_roundtrip(a);
    let f1 = frames.push(spec_virt_to_phys(a as int) as usize);
    vstd::layout::unsigned_int_max_values();
    assert(spec_phys_to_virt(f1[frames.len() as int] as int) == a);
    assert forall|k: int| 0 <= k < f1.len() implies page_owned(p1, #[trigger] spec_phys_to_virt(f1[k] as int) as usize) by {
        if k < frames.len() {
            assert(l[k] == spec_phys_to_virt(frames[k] as int) as usize);
        }
    }
    assert forall|i: int, j: int| 0 <= i < j < f1.len() implies
        spec_phys_to_virt(#[trigger] f1[i] as int) != spec_phys_to_virt(#[trigger] f1[j] as int) by {
        if j == frames.len() {
            assert(l[i] == spec_phys_to_virt(frames[i] as int) as usize);
            assert(0 <= spec_phys_to_virt(frames[i] as int) < crate::util::usize_modulus());
        }
    }
}

/// Allocator of page-granular ranges of the vmalloc area, each page backed by its own
/// physical page.
pub struct VirtualAllocator {
    tree: AddressTree,
}

impl VirtualAllocator {
    /// Free frames of the vmalloc area.
    pub closed spec fn free(&self) -> Set<int> {
        free_frames(self.tree@)
    }

    pub closed spec fn wf(&self) -> bool {
        self.tree.wf() && free_frames(self.tree@).subset_of(vmalloc_frames())
    }

    /// An allocator whose free frames are those of `area`, inside the vmalloc area.
    pub fn init(area: Range<usize>) -> (v: VirtualAllocator)
        requires
            area.start <= area.end,
            VMALLOC_OFFSET / PAGE_SIZE <= area.start,
            area.end <= KMAP_OFFSET / PAGE_SIZE,
        ensures
            v.wf(),
            v.free() == Set::new(|f: int| area.start <= f < area.end),

    {
        let start = area.start;
        let end = area.end;
        let tree = AddressTree::new(area);
        let v = VirtualAllocator { tree };
        proof {
            let p = Page { pfn: start, count: (end - start) as usize };
            assert forall|f: int| free_frames(v.tree@).contains(f) <==> start <= f < end by {
                if start <= f < end {
                    assert(v.tree@.contains(p));
                }
            }
            assert(free_frames(v.tree@) =~= Set::new(|f: int| start <= f < end));
        }
        v
    }

    /// Pages that back an allocation of `size` bytes.
    pub fn layout_to_pages(size: usize) -> (n: usize)
        ensures
            n == size / PAGE_SIZE + 1,
    {
        size / PAGE_SIZE + 1
    }

    /// The free runs of frames.
    pub closed spec fn runs(&self) -> Set<Page> {
        self.tree@
    }

    /// Takes a range of `pages` pages of the vmalloc area and backs each page, in order,
    /// with a physical page from high memory (or the linear map when high memory has
    /// none), recorded in `frames` and mapped present, global and writable. Stops at the
    /// first page that gets no physical page.
    fn try_allocate(&mut self, frames: &mut Vec<usize>, pages: usize, pa: &mut PageAllocator, pd: &PD,
        kt: &mut KernelTables) -> (r: Result<usize, VMallocError>)
        requires
            old(self).wf(),
            old(pa).wf(),
            old(kt).wf(),
            frames_owned(*old(pa), old(frames)@),
            1 <= pages,
        ensures
            final(self).wf(),
            final(pa).wf(),
            final(kt).wf(),
            frames_owned(*final(pa), final(frames)@),
            old(frames)@.is_prefix_of(final(frames)@),
            (r == Err::<usize, VMallocError>(VMallocError::OutOfAddress)) <==> !exists|p: Page| is_best_fit(old(self).runs(), pages as int, p),
            r == Err::<usize, VMallocError>(VMallocError::OutOfAddress) ==> final(self).runs() == old(self).runs()
                && final(frames)@ == old(frames)@ && *final(pa) == *old(pa) && final(kt).vmalloc@ == old(kt).vmalloc@
                && final(kt).kmap@ == old(kt).kmap@,
            r matches Ok(b) ==> progress(old(self).runs(), final(self).runs(), old(frames)@, final(frames)@,
                *old(kt), *final(kt), pages, b) && final(frames)@.len() == old(frames)@.len() + pages,
            r matches Err(VMallocError::OutOfMemory(b)) ==> progress(old(self).runs(), final(self).runs(),
                old(frames)@, final(frames)@, *old(kt), *final(kt), pages, b)
                && final(frames)@.len() < old(frames)@.len() + pages,
            (exists|p: Page| is_best_fit(old(self).runs(), pages as int, p)) ==>
                (r is Ok <==> old(pa).free_pages() >= pages),
            r is Ok ==> final(pa).free_pages() + pages == old(pa).free_pages(),
    {
        let base = match self.tree.alloc_frames(pages) {
            Some(b) => b,
            None => {
                return Err(VMallocError::OutOfAddress);
            },
        };
        let ghost p = choose|p: Page| is_best_fit(old(self).tree@, pages as int, p);
        proof {
            old(self).tree.lemma_runs_fit();
            lemma_take_in_area(old(self).tree@, pages as int, p);
            lemma_frames_in_area(p, pages as int, base);
        }
        let ghost kt0 = *kt;
        let ghost f0 = frames@;
        let mut i: usize = 0;
        while i < pages
            invariant
                self.wf(),
                pa.wf(),
                kt.wf(),
                i <= pages,
                taken_at(old(self).runs(), self.tree@, pages, base),
                base % PAGE_SIZE == 0,
                VMALLOC_OFFSET <= base,
                base + pages * PAGE_SIZE <= KMAP_OFFSET,
                frames_owned(*pa, frames@),
                f0 == old(frames)@,
                kt0 == *old(kt),
                f0.is_prefix_of(frames@),
                frames@.len() == f0.len() + i,
                forall|k: int| 0 <= k < i ==> kt_entry(*kt, base + k * PAGE_SIZE) == vmalloc_pte(#[trigger] frames@[f0.len() + k]),
                forall|w: int| 0 <= w < HIGH_IO_OFFSET && (space_of(w) == AddressSpace::Vmalloc || space_of(w) == AddressSpace::Kmap)
                    && !(base <= w < base + i * PAGE_SIZE) ==> #[trigger] kt_entry(*kt, w) == kt_entry(kt0, w),
                pa.free_pages() + i == old(pa).free_pages(),
            decreases pages - i,
        {
            assert(i * PAGE_SIZE < pages * PAGE_SIZE) by (nonlinear_arith) requires i < pages;
            let vaddr = base + i * PAGE_SIZE;
            let ghost pa0 = *pa;
            let a = match pa.alloc_page(0, GFP::High) {
                Ok(a) => a,
                Err(_) => {
                    return Err(VMallocError::OutOfMemory(base));
                },
            };
            proof {
                lemma_record_fresh(pa0, *pa, a, frames@);
            }
            let paddr = virt_to_phys(a);
            proof { lemma_linear_roundtrip(a); }
            let ghost fr0 = frames@;
            frames.push(paddr);
            let ghost kt1 = *kt;
            pd.map_kernel(kt, vaddr, paddr, PageFlag::present().union(PageFlag::global()).union(PageFlag::write()));
            proof {
                crate::paging::lemma_entry_bits(0, 0, 0);
                assert((1u32 | 256u32) | 2u32 == 0x103u32) by (bit_vector);
                assert forall|k: int| 0 <= k < i + 1 implies kt_entry(*kt, base + k * PAGE_SIZE) == vmalloc_pte(#[trigger] frames@[f0.len() + k]) by {
                    lemma_kernel_set_entry(kt1, *kt, vaddr as int, vmalloc_pte(paddr), base + k * PAGE_SIZE);
                    assert((base + k * 4096) / 4096 == base / 4096 + k) by (nonlinear_arith) requires base % 4096 == 0, k >= 0;
                    assert(vaddr / 4096 == base / 4096 + i) by (nonlinear_arith) requires vaddr == base + i * 4096, base % 4096 == 0;
                    if k < i {
                        assert(frames@[f0.len() + k] == fr0[f0.len() + k]);
                    }
                }
                assert forall|w: int| 0 <= w < HIGH_IO_OFFSET && (space_of(w) == AddressSpace::Vmalloc || space_of(w) == AddressSpace::Kmap)
                    && !(base <= w < base + (i + 1) * PAGE_SIZE) implies #[trigger] kt_entry(*kt, w) == kt_entry(kt0, w) by {
                    lemma_kernel_set_entry(kt1, *kt, vaddr as int, vmalloc_pte(paddr), w);
                    assert(w / 4096 != vaddr / 4096) by (nonlinear_arith)
                        requires vaddr == base + i * 4096, base % 4096 == 0, !(base <= w < base + (i + 1) * 4096);
                }
                assert(f0.is_prefix_of(frames@));
            }
            i = i + 1;
        }
        Ok(base)
    }

    /// Gives back the physical pages recorded in `frames`, last first, unmapping the first
    /// pages of the range at `base` one per page given back, and returns the `pages` frames
    /// of the range to the free runs.
    fn free_pages(&mut self, frames: &mut Vec<usize>, base: usize, pages: usize, pa: &mut PageAllocator,
        pd: &PD, kt: &mut KernelTables)
        requires
            old(self).wf(),
            old(pa).wf(),
            old(kt).wf(),
            frames_owned(*old(pa), old(frames)@),
            old(frames)@.len() <= pages,
            VMALLOC_OFFSET <= base,
            base + pages * PAGE_SIZE <= KMAP_OFFSET,
            base % PAGE_SIZE == 0,
        ensures
            final(self).wf(),
            final(pa).wf(),
            final(kt).wf(),
            final(frames)@.len() == 0,
            final(self).runs() == crate::vmalloc::released(old(self).runs(), Page { pfn: base / PAGE_SIZE, count: pages }),
            forall|k: int| 0 <= k < old(frames)@.len() ==>
                !page_owned(*final(pa), #[trigger] spec_phys_to_virt(old(frames)@[k] as int) as usize),
            forall|k: int| 0 <= k < old(frames)@.len() ==>
                #[trigger] kt_entry(*final(kt), base + k * PAGE_SIZE) == PD::spec_pte(0, PageFlag { bits: 256 }),
            forall|w: int| 0 <= w < HIGH_IO_OFFSET && (space_of(w) == AddressSpace::Vmalloc || space_of(w) == AddressSpace::Kmap)
                && !(base <= w < base + old(frames)@.len() * PAGE_SIZE) ==> #[trigger] kt_entry(*final(kt), w) == kt_entry(*old(kt), w),
    {
        let ghost f0 = frames@;
        let ghost kt0 = *kt;
        let n = frames.len();
        let mut i: usize = 0;
        while i < n
            invariant
                pa.wf(),
                kt.wf(),
                f0 == old(frames)@,
                kt0 == *old(kt),
                n == f0.len(),
                n <= pages,
                i <= n,
                frames@ == f0.subrange(0, n - i),
                frames_owned(*pa, frames@),
                VMALLOC_OFFSET <= base,
                base + pages * PAGE_SIZE <= KMAP_OFFSET,
                base % PAGE_SIZE == 0,
                forall|k: int| n - i <= k < n ==> !page_owned(*pa, #[trigger] spec_phys_to_virt(f0[k] as int) as usize),
                forall|k: int| 0 <= k < n ==> (#[trigger] spec_phys_to_virt(f0[k] as int)) % PAGE_SIZE as int == 0,
                forall|j: int, k: int| 0 <= j < k < n ==>
                    spec_phys_to_virt(#[trigger] f0[j] as int) != spec_phys_to_virt(#[trigger] f0[k] as int),
                forall|k: int| 0 <= k < i ==> #[trigger] kt_entry(*kt, base + k * PAGE_SIZE) == PD::spec_pte(0, PageFlag { bits: 256 }),
                forall|w: int| 0 <= w < HIGH_IO_OFFSET && (space_of(w) == AddressSpace::Vmalloc || space_of(w) == AddressSpace::Kmap)
                    && !(base <= w < base + i * PAGE_SIZE) ==> #[trigger] kt_entry(*kt, w) == kt_entry(kt0, w),
            decreases n - i,
        {
            let ghost fr = frames@;
            let f = frames.pop().unwrap();
            let ghost pa0 = *pa;
            let l = phys_to_virt(f);
            assert(fr.last() == f);
            assert(page_owned(pa0, l));
            pa.free_page(l);
            proof {
                let last = (n - i - 1) as int;
                assert(f == f0[last]);
                assert forall|k: int| 0 <= k < frames@.len() implies page_owned(*pa, #[trigger] spec_phys_to_virt(frames@[k] as int) as usize) by {
                    let o = spec_phys_to_virt(frames@[k] as int) as usize;
                    assert(frames@[k] == f0[k]);
                    assert(page_owned(pa0, o));
                    vstd::layout::unsigned_int_max_values();
                    assert(spec_phys_to_virt(f0[k] as int) != spec_phys_to_virt(f0[last] as int));
                    if (o < VM_OFFSET) == (l < VM_OFFSET) && page_index(o as int) == page_index(l as int) {
                        lemma_page_index_injective(o, l);
                    }
                }
                assert forall|k: int| n - (i + 1) <= k < n implies !page_owned(*pa, #[trigger] spec_phys_to_virt(f0[k] as int) as usize) by {
                    if k != last {
                        let o = spec_phys_to_virt(f0[k] as int) as usize;
                        assert(!page_owned(pa0, o));
                    }
                }
                assert(frames@ =~= f0.subrange(0, n - (i + 1)));
            }
            assert(i * PAGE_SIZE < pages * PAGE_SIZE) by (nonlinear_arith) requires i < n, n <= pages;
            let vaddr = base + i * PAGE_SIZE;
            let ghost kt1 = *kt;
            pd.unmap_kernel(kt, vaddr);
            proof {
                assert forall|k: int| 0 <= k < i + 1 implies #[trigger] kt_entry(*kt, base + k * PAGE_SIZE) == PD::spec_pte(0, PageFlag { bits: 256 }) by {
                    lemma_kernel_set_entry(kt1, *kt, vaddr as int, PD::spec_pte(0, PageFlag { bits: 256 }), base + k * PAGE_SIZE);
                    assert((base + k * 4096) / 4096 == base / 4096 + k) by (nonlinear_arith) requires base % 4096 == 0, k >= 0;
                    assert(vaddr / 4096 == base / 4096 + i) by (nonlinear_arith) requires vaddr == base + i * 4096, base % 4096 == 0;
                }
                assert forall|w: int| 0 <= w < HIGH_IO_OFFSET && (space_of(w) == AddressSpace::Vmalloc || space_of(w) == AddressSpace::Kmap)
                    && !(base <= w < base + (i + 1) * PAGE_SIZE) implies #[trigger] kt_entry(*kt, w) == kt_entry(kt0, w) by {
                    lemma_kernel_set_entry(kt1, *kt, vaddr as int, PD::spec_pte(0, PageFlag { bits: 256 }), w);
                    assert(w / 4096 != vaddr / 4096) by (nonlinear_arith)
                        requires vaddr == base + i * 4096, base % 4096 == 0, !(base <= w < base + (i + 1) * 4096);
                }
            }
            i = i + 1;
        }
        proof {
            self.tree.lemma_runs_fit();
            lemma_release_frees_run(self.tree@, Page { pfn: base / PAGE_SIZE, count: pages });
            assert(Set::new(|f: int| (base / PAGE_SIZE) as int <= f < (base / PAGE_SIZE) as int + pages).subset_of(vmalloc_frames())) by {
                assert(base / 4096 + pages <= KMAP_OFFSET / 4096) by (nonlinear_arith)
                    requires base + pages * 4096 <= KMAP_OFFSET, base % 4096 == 0;
            }
        }
        self.tree.dealloc(base, pages);
    }

    /// Allocates a range of `size / PAGE_SIZE + 1` pages of the vmalloc area, each page
    /// backed by its own physical page and mapped present, global and writable, and
    /// returns its address. When a physical page runs out, what was taken goes back.
    pub fn allocate(&mut self, size: usize, pa: &mut PageAllocator, pd: &PD, kt: &mut KernelTables)
        -> (r: Result<usize, ()>)
        requires
            old(self).wf(),
            old(pa).wf(),
            old(kt).wf(),
        ensures
            final(self).wf(),
            final(pa).wf(),
            final(kt).wf(),
            !(exists|p: Page| #[trigger] is_best_fit(old(self).runs(), (size / PAGE_SIZE + 1) as int, p))
                ==> r is Err && final(self).runs() == old(self).runs() && *final(pa) == *old(pa),
            (exists|p: Page| #[trigger] is_best_fit(old(self).runs(), (size / PAGE_SIZE + 1) as int, p))
                ==> (r is Ok <==> old(pa).free_pages() >= size / PAGE_SIZE + 1),
            r is Ok ==> final(pa).free_pages() + size / PAGE_SIZE + 1 == old(pa).free_pages(),
            r matches Ok(b) ==> taken_at(old(self).runs(), final(self).runs(), (size / PAGE_SIZE + 1) as usize, b)
                && exists|frames: Seq<usize>| frames.len() == size / PAGE_SIZE + 1 && frames_owned(*final(pa), frames)
                    && forall|k: int| 0 <= k < frames.len() ==>
                        kt_entry(*final(kt), b + k * PAGE_SIZE) == vmalloc_pte(#[trigger] frames[k]),
            r is Err && (exists|p: Page| #[trigger] is_best_fit(old(self).runs(), (size / PAGE_SIZE + 1) as int, p)) ==>
                exists|b: usize, mid: Set<Page>| #[trigger] taken_at(old(self).runs(), mid, (size / PAGE_SIZE + 1) as usize, b)
                    && final(self).runs() == crate::vmalloc::released(mid, Page { pfn: b / PAGE_SIZE, count: (size / PAGE_SIZE + 1) as usize }),
    {
        let pages = Self::layout_to_pages(size);
        let mut frames: Vec<usize> = Vec::new();
        let result = self.try_allocate(&mut frames, pages, pa, pd, kt);
        match result {
            Ok(b) => {
                proof {
                    assert(Seq::<usize>::empty().is_prefix_of(frames@));
                    assert forall|k: int| 0 <= k < frames@.len() implies
                        kt_entry(*kt, b + k * PAGE_SIZE) == vmalloc_pte(#[trigger] frames@[k]) by {
                        assert(frames@[0 + k] == frames@[k]);
                    }
                }
                Ok(b)
            },
            Err(VMallocError::OutOfMemory(mem)) => {
                let ghost mid = self.runs();
                assert(taken_at(old(self).runs(), mid, pages, mem));
                self.free_pages(&mut frames, mem, pages, pa, pd, kt);
                assert(self.runs() == crate::vmalloc::released(mid, Page { pfn: mem / PAGE_SIZE, count: pages }));
                assert((size / PAGE_SIZE + 1) as usize == pages);
                assert(exists|b: usize, m: Set<Page>| #[trigger] taken_at(old(self).runs(), m, (size / PAGE_SIZE + 1) as usize, b)
                    && self.runs() == crate::vmalloc::released(m, Page { pfn: b / PAGE_SIZE, count: (size / PAGE_SIZE + 1) as usize })) by {
                    assert(taken_at(old(self).runs(), mid, (size / PAGE_SIZE + 1) as usize, mem));
                }
                Err(())
            },
            Err(VMallocError::OutOfAddress) => {
                assert(!(exists|p: Page| #[trigger] is_best_fit(old(self).runs(), pages as int, p)));
                Err(())
            },
        }
    }

    /// Takes back the range of `size / PAGE_SIZE + 1` pages at `ptr`: gives back the
    /// physical pages that the pages of the range map to, from its first page up to the
    /// first page that maps nothing, unmaps those pages, and returns the frames of the
    /// range to the free runs. Nothing happens when `ptr` maps to nothing.
    pub fn deallocate(&mut self, ptr: usize, size: usize, pa: &mut PageAllocator, pd: &PD, kt: &mut KernelTables)
        requires
            old(self).wf(),
            old(pa).wf(),
            old(kt).wf(),
            pd.wf(),
            VMALLOC_OFFSET <= ptr,
            ptr % PAGE_SIZE == 0,
            ptr + (size / PAGE_SIZE + 1) * PAGE_SIZE <= KMAP_OFFSET,
            frames_owned(*old(pa), mapped_prefix(*pd, *old(kt), ptr as int, (size / PAGE_SIZE + 1) as nat)),
        ensures
            final(self).wf(),
            final(pa).wf(),
            final(kt).wf(),
            ({
                let fs = mapped_prefix(*pd, *old(kt), ptr as int, (size / PAGE_SIZE + 1) as nat);
                &&& fs.len() == 0 ==> final(self).runs() == old(self).runs() && *final(pa) == *old(pa)
                    && final(kt).vmalloc@ == old(kt).vmalloc@ && final(kt).kmap@ == old(kt).kmap@
                &&& fs.len() > 0 ==> final(self).runs() == crate::vmalloc::released(old(self).runs(),
                    Page { pfn: ptr / PAGE_SIZE, count: (size / PAGE_SIZE + 1) as usize })
                &&& forall|k: int| 0 <= k < fs.len() ==>
                    !page_owned(*final(pa), #[trigger] spec_phys_to_virt(fs[k] as int) as usize)
                &&& forall|k: int| 0 <= k < fs.len() ==>
                    #[trigger] kt_entry(*final(kt), ptr + k * PAGE_SIZE) == PD::spec_pte(0, PageFlag { bits: 256 })
                &&& forall|w: int| 0 <= w < HIGH_IO_OFFSET && (space_of(w) == AddressSpace::Vmalloc || space_of(w) == AddressSpace::Kmap)
                    && !(ptr <= w < ptr + fs.len() * PAGE_SIZE) ==> #[trigger] kt_entry(*final(kt), w) == kt_entry(*old(kt), w)
            }),
    {
        let pages = Self::layout_to_pages(size);
        let mut frames: Vec<usize> = Vec::new();
        let mut i: usize = 0;
        let mut done = false;
        while i < pages && !done
            invariant
                i <= pages,
                ptr + pages * PAGE_SIZE <= KMAP_OFFSET,
                pd.wf(),
                kt.wf(),
                frames@ == mapped_prefix(*pd, *kt, ptr as int, i as nat),
                !done ==> frames@.len() == i,
                done ==> frames@.len() < i,
            decreases pages - i,
        {
            assert(i * PAGE_SIZE < pages * PAGE_SIZE) by (nonlinear_arith) requires i < pages;
            match pd.lookup(kt, ptr + i * PAGE_SIZE) {
                Some(p) => {
                    frames.push(p);
                },
                None => {
                    done = true;
                },
            }
            i = i + 1;
        }
        proof {
            lemma_mapped_prefix_len(*pd, *kt, ptr as int, i as nat);
            lemma_mapped_prefix_stops(*pd, *kt, ptr as int, i as nat, pages as nat);
        }
        if frames.len() == 0 {
            return;
        }
        self.free_pages(&mut frames, ptr, pages, pa, pd, kt);
    }
}

/// The physical pages that the first of the `n` pages from `base` map to, up to the first
/// page that maps nothing.
pub open spec fn mapped_prefix(pd: PD, kt: KernelTables, base: int, n: nat) -> Seq<usize>
    decreases n,
{
    if n == 0 {
        Seq::empty()
    } else {
        let s = mapped_prefix(pd, kt, base, (n - 1) as nat);
        let t = pd.translate(&kt, base + (n - 1) * PAGE_SIZE);
        if s.len() == n - 1 && t is Some {
            s.push(t->0 as usize)
        } else {
            s
        }
    }
}

/// At most one physical page per page of the range.
proof fn lemma_mapped_prefix_len(pd: PD, kt: KernelTables, base: int, n: nat)
    ensures
        mapped_prefix(pd, kt, base, n).len() <= n,
    decreases n,
{
    if n > 0 {
        lemma_mapped_prefix_len(pd, kt, base, (n - 1) as nat);
    }
}

/// Once a page of the range maps nothing, the pages after it add nothing.
proof fn lemma_mapped_prefix_stops(pd: PD, kt: KernelTables, base: int, i: nat, n: nat)
    requires
        i <= n,
        mapped_prefix(pd, kt, base, i).len() < i || i == n,
    ensures
        mapped_prefix(pd, kt, base, n) == mapped_prefix(pd, kt, base, i),
    decreases n - i,
{
    if i < n {
        lemma_mapped_prefix_stops(pd, kt, base, i, (n - 1) as nat);
        lemma_mapped_prefix_len(pd, kt, base, i);
    }
}

} // verus!
