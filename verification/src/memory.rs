use vstd::prelude::*;
use crate::constant::{PAGE_SIZE, VM_OFFSET};
use crate::errno::Errno;
use crate::vma::{Area, AreaFlag, AllocError, UserAddressSpace, covers, VALID_USER_START, VALID_USER_END, areas_wf, fixed_fits};
use crate::util::{virt_to_phys, phys_to_virt, next_align, spec_phys_to_virt};
use crate::buddy_allocator::{alloc_outcome, lemma_alloc_page_count, page_index};
use crate::paging::PageFlag;
use crate::page_directory::{PD, pte_target, index_of, space_of, AddressSpace};
use crate::page_allocator::{PageAllocator, GFP, lemma_fresh_page_owned, page_owned, alloc_high_outcome,
    lemma_fresh_page_apart, lemma_alloc_keeps_used};
use crate::virtual_allocator::{lemma_linear_roundtrip, frames_owned, lemma_page_index_injective};
use crate::user::{PageAlignedChunk, zero_extended, StringVec, views, joined, offsets, too_big, lemma_offsets_at, le_bytes, words_to_bytes};

verus! {

/// Contents given to physical pages, in the order they were written: the physical
/// address of each page and its bytes.
pub struct PhysMem {
    writes: Vec<(usize, Vec<u8>)>,
}

impl PhysMem {
    pub closed spec fn log(&self) -> Seq<(usize, Seq<u8>)> {
        Seq::new(self.writes@.len(), |i: int| (self.writes@[i].0, self.writes@[i].1@))
    }

    pub fn new() -> (m: PhysMem)
        ensures
            m.log() == Seq::<(usize, Seq<u8>)>::empty(),
    {
        PhysMem { writes: Vec::new() }
    }

    /// Gives the page at `paddr` the bytes `content`.
    pub fn write_page(&mut self, paddr: usize, content: Vec<u8>)
        ensures
            final(self).log() == old(self).log().push((paddr, content@)),
    {
        let ghost c = content@;
        self.writes.push((paddr, content));
        assert(self.log() =~= old(self).log().push((paddr, c)));
    }

    /// The bytes last written to the page at `paddr`, if it was ever written.
    pub fn read_page(&self, paddr: usize) -> (r: Option<Vec<u8>>)
        ensures
            match r {
                Some(v) => content_of(self.log(), paddr) == Some(v@),
                None => content_of(self.log(), paddr) is None,
            },
    {
        let mut i: usize = self.writes.len();
        assert(self.log().subrange(0, i as int) =~= self.log());
        while i > 0
            invariant
                i <= self.writes@.len(),
                content_of(self.log(), paddr) == content_of(self.log().subrange(0, i as int), paddr),
            decreases i,
        {
            let ghost l = self.log().subrange(0, i as int);
            assert(l.drop_last() =~= self.log().subrange(0, i - 1));
            if self.writes[i - 1].0 == paddr {
                let v = self.writes[i - 1].1.clone();
                return Some(v);
            }
            i = i - 1;
        }
        None
    }

    /// Number of pages written.
    pub fn len(&self) -> (n: usize)
        ensures
            n == self.log().len(),
    {
        self.writes.len()
    }

    /// The physical address and bytes of the `i`-th page written.
    pub fn get(&self, i: usize) -> (r: (usize, &Vec<u8>))
        requires
            i < self.log().len(),
        ensures
            r.0 == self.log()[i as int].0,
            r.1@ == self.log()[i as int].1,
    {
        (self.writes[i].0, &self.writes[i].1)
    }
}

/// Copies the page at `user_src_paddr` to the page at `user_dst_paddr`: the destination
/// gets the bytes of the source when they are known; no other page changes.
pub fn copy_user_to_user_page(mem: &mut PhysMem, user_src_paddr: usize, user_dst_paddr: usize) -> (r: Result<(), AllocError>)
    ensures
        r is Ok,
        old(mem).log().is_prefix_of(final(mem).log()),
        content_of(old(mem).log(), user_src_paddr) is Some ==>
            content_of(final(mem).log(), user_dst_paddr) == content_of(old(mem).log(), user_src_paddr),
        forall|p: usize| p != user_dst_paddr ==> #[trigger] content_of(final(mem).log(), p) == content_of(old(mem).log(), p),
{
    match mem.read_page(user_src_paddr) {
        Some(c) => {
            let ghost before = mem.log();
            mem.write_page(user_dst_paddr, c);
            assert(mem.log().drop_last() =~= before);
        },
        None => {},
    }
    Ok(())
}

/// Copies the page of bytes `kernel_page` to the page at `user_paddr`.
pub fn copy_to_user_page(mem: &mut PhysMem, kernel_page: &Vec<u8>, user_paddr: usize) -> (r: Result<(), AllocError>)
    requires
        kernel_page@.len() == PAGE_SIZE,
    ensures
        r is Ok,
        final(mem).log() == old(mem).log().push((user_paddr, kernel_page@)),
{
    mem.write_page(user_paddr, kernel_page.clone());
    Ok(())
}

/// The bytes of the page at `user_paddr`, when they are known.
pub fn copy_from_user_page(mem: &PhysMem, user_paddr: usize) -> (r: Option<Vec<u8>>)
    ensures
        match r {
            Some(v) => content_of(mem.log(), user_paddr) == Some(v@),
            None => content_of(mem.log(), user_paddr) is None,
        },
{
    mem.read_page(user_paddr)
}

/// Fills the page at `user_paddr` with `value`.
pub fn memset_to_user_page(mem: &mut PhysMem, user_paddr: usize, value: u8) -> (r: Result<(), AllocError>)
    ensures
        r is Ok,
        final(mem).log() == old(mem).log().push((user_paddr, Seq::new(PAGE_SIZE as nat, |j: int| value))),
{
    let mut v: Vec<u8> = Vec::new();
    let mut k: usize = 0;
    while k < PAGE_SIZE
        invariant
            k <= PAGE_SIZE,
            v@ == Seq::new(k as nat, |j: int| value),
        decreases PAGE_SIZE - k,
    {
        v.push(value);
        k = k + 1;
        assert(v@ =~= Seq::new(k as nat, |j: int| value));
    }
    mem.write_page(user_paddr, v);
    Ok(())
}

/// The bytes last written to the page at `paddr` in `log`, if any.
pub open spec fn content_of(log: Seq<(usize, Seq<u8>)>, paddr: usize) -> Option<Seq<u8>>
    decreases log.len(),
{
    if log.len() == 0 {
        None
    } else if log.last().0 == paddr {
        Some(log.last().1)
    } else {
        content_of(log.drop_last(), paddr)
    }
}

/// Bytes of page `i` of `data` laid out page by page: its part of `data`, then zeros.
pub open spec fn page_content(data: Seq<u8>, i: int) -> Seq<u8> {
    let lo = i * PAGE_SIZE;
    let hi = if data.len() < lo + PAGE_SIZE { data.len() as int } else { lo + PAGE_SIZE };
    data.subrange(lo, hi) + Seq::new((PAGE_SIZE - (hi - lo)) as nat, |j: int| 0u8)
}

/// The page of `i`-th of `data` laid out page by page.
pub fn page_of(data: &[u8], i: usize) -> (v: Vec<u8>)
    requires
        i * PAGE_SIZE < data@.len(),
    ensures
        v@ == page_content(data@, i as int),
        v@.len() == PAGE_SIZE,
{
    let len = data.len();
    assert(i * PAGE_SIZE < len);
    let lo = i * PAGE_SIZE;
    let hi = if data.len() - lo < PAGE_SIZE { data.len() } else { lo + PAGE_SIZE };
    let mut v: Vec<u8> = Vec::new();
    let mut j = lo;
    while j < hi
        invariant
            lo <= j <= hi,
            hi <= data@.len(),
            v@ == data@.subrange(lo as int, j as int),
        decreases hi - j,
    {
        v.push(data[j]);
        j = j + 1;
        assert(v@ =~= data@.subrange(lo as int, j as int));
    }
    let mut k: usize = 0;
    let pad = PAGE_SIZE - (hi - lo);
    while k < pad
        invariant
            k <= pad,
            lo <= hi <= data@.len(),
            v@ == data@.subrange(lo as int, hi as int) + Seq::new(k as nat, |j: int| 0u8),
        decreases pad - k,
    {
        v.push(0u8);
        k = k + 1;
        assert(v@ =~= data@.subrange(lo as int, hi as int) + Seq::new(k as nat, |j: int| 0u8));
    }
    v
}

/// A page of zeros.
pub fn zero_page_content() -> (v: Vec<u8>)
    ensures
        v@ == Seq::new(PAGE_SIZE as nat, |j: int| 0u8),
{
    let mut v: Vec<u8> = Vec::new();
    let mut k: usize = 0;
    while k < PAGE_SIZE
        invariant
            k <= PAGE_SIZE,
            v@ == Seq::new(k as nat, |j: int| 0u8),
        decreases PAGE_SIZE - k,
    {
        v.push(0u8);
        k = k + 1;
        assert(v@ =~= Seq::new(k as nat, |j: int| 0u8));
    }
    v
}

/// The memory of a user process: its areas, its page directory, and where the next block
/// of system data (trampoline, argument strings) goes.
pub struct Memory {
    system_data_base: usize,
    vma: UserAddressSpace,
    page_dir: PD,
}

/// Byte `x` lies in an area whose flags hold `flags`.
pub open spec fn flagged_at(areas: Seq<Area>, x: int, flags: AreaFlag) -> bool {
    exists|i: int| 0 <= i < areas.len() && (#[trigger] areas[i]).spec_contains(x) && areas[i].flags.spec_contains(flags)
}

/// Every byte of `[start, end)` lies in an area whose flags hold `flags`.
pub open spec fn flags_cover(areas: Seq<Area>, start: int, end: int, flags: AreaFlag) -> bool {
    forall|x: int| start <= x < end ==> #[trigger] flagged_at(areas, x, flags)
}

/// The entry that maps a page of zeros for a private mapping: present and user.
pub open spec fn zero_entry(zero_page: usize) -> Option<int> {
    pte_target(PD::spec_pte(zero_page, PageFlag { bits: 5 }))
}

/// `b` is `a` with the area `[s, s + pages * PAGE_SIZE)` of `flags` inserted.
pub open spec fn area_added(a: Seq<Area>, b: Seq<Area>, s: usize, pages: usize, flags: AreaFlag) -> bool {
    exists|i: int| 0 <= i <= a.len() && b == #[trigger] a.insert(i, Area { start: s, end: (s + pages * PAGE_SIZE) as usize, flags })
}

/// Where a private mapping of `pages` pages asked at `start` goes among the areas `a`:
/// at `start` when it is not 0 and fits there, else in the first gap that holds it;
/// `None` when neither works.
pub open spec fn mmap_place(a: Seq<Area>, start: usize, pages: usize) -> Option<usize> {
    let size = pages * PAGE_SIZE;
    if start != 0 && start + size <= usize::MAX && crate::vma::fixed_fits(a, start as int, start + size) {
        Some(start)
    } else if size <= usize::MAX && exists|i: int| #[trigger] crate::vma::first_fit(a, size, i) {
        Some(crate::vma::gap_lo(a, choose|i: int| #[trigger] crate::vma::first_fit(a, size, i)) as usize)
    } else {
        None
    }
}

/// What a private mapping from `s` that failed at its page `i` leaves of the directory `a`
/// in `b`: its first `i - 1` pages map nothing, page `i - 1` still maps the page of zeros,
/// and every address outside its first `i` pages maps as before.
pub open spec fn failed_map_cleaned(a: PD, b: PD, s: int, i: int, zero_page: usize) -> bool {
    &&& forall|k: int| 0 <= k < i - 1 ==> #[trigger] b.user_translate(s + k * PAGE_SIZE) is None
    &&& i >= 1 ==> b.user_translate(s + (i - 1) * PAGE_SIZE) == zero_entry(zero_page)
    &&& forall|w: int| 0 <= w < VM_OFFSET && outside_pages(w, s, i) ==> #[trigger] b.user_translate(w) == a.user_translate(w)
}

/// `b` is `a` without its first area that starts at `s`, when there is one.
pub open spec fn area_removed(a: Seq<Area>, b: Seq<Area>, s: usize) -> bool {
    if exists|i: int| 0 <= i < a.len() && (#[trigger] a[i]).start == s {
        exists|i: int| 0 <= i < a.len() && (#[trigger] a[i]).start == s
            && (forall|j: int| 0 <= j < i ==> (#[trigger] a[j]).start != s) && b == a.remove(i)
    } else {
        b == a
    }
}

/// Gives back to `pa` each page whose physical address `frames` holds.
fn give_back_pages(frames: &Vec<usize>, pa: &mut PageAllocator)
    requires
        old(pa).wf(),
        frames_owned(*old(pa), frames@),
    ensures
        final(pa).wf(),
        forall|k: int| 0 <= k < frames@.len() ==>
            !page_owned(*final(pa), #[trigger] spec_phys_to_virt(frames@[k] as int) as usize),
        forall|x: usize| page_owned(*final(pa), x) ==> page_owned(*old(pa), x),
{
    let ghost f0 = frames@;
    let n = frames.len();
    let mut i: usize = 0;
    while i < n
        invariant
            pa.wf(),
            f0 == frames@,
            n == f0.len(),
            i <= n,
            forall|k: int| i <= k < n ==> page_owned(*pa, #[trigger] spec_phys_to_virt(f0[k] as int) as usize),
            forall|k: int| 0 <= k < i ==> !page_owned(*pa, #[trigger] spec_phys_to_virt(f0[k] as int) as usize),
            forall|k: int| 0 <= k < n ==> (#[trigger] spec_phys_to_virt(f0[k] as int)) % PAGE_SIZE as int == 0,
            forall|j: int, k: int| 0 <= j < k < n ==>
                spec_phys_to_virt(#[trigger] f0[j] as int) != spec_phys_to_virt(#[trigger] f0[k] as int),
            forall|x: usize| page_owned(*pa, x) ==> page_owned(*old(pa), x),
        decreases n - i,
    {
        let f = frames[i];
        let ghost pa0 = *pa;
        let l = phys_to_virt(f);
        assert(page_owned(pa0, l));
        pa.free_page(l);
        proof {
            vstd::layout::unsigned_int_max_values();
            assert forall|k: int| i + 1 <= k < n implies page_owned(*pa, #[trigger] spec_phys_to_virt(f0[k] as int) as usize) by {
                let o = spec_phys_to_virt(f0[k] as int) as usize;
                assert(page_owned(pa0, o));
                assert(spec_phys_to_virt(f0[k] as int) != spec_phys_to_virt(f0[i as int] as int));
                if (o < VM_OFFSET) == (l < VM_OFFSET) && page_index(o as int) == page_index(l as int) {
                    lemma_page_index_injective(o, l);
                }
            }
            assert forall|k: int| 0 <= k < i + 1 implies !page_owned(*pa, #[trigger] spec_phys_to_virt(f0[k] as int) as usize) by {
                if k != i {
                    let o = spec_phys_to_virt(f0[k] as int) as usize;
                    assert(!page_owned(pa0, o));
                }
            }
        }
        i = i + 1;
    }
}

/// The physical pages, other than the page of zeros, that the `n` pages from `start` map
/// to, in order.
pub open spec fn released_pages(pd: PD, start: int, n: nat, zero_page: usize) -> Seq<usize>
    decreases n,
{
    if n == 0 {
        Seq::empty()
    } else {
        let prev = released_pages(pd, start, (n - 1) as nat, zero_page);
        match pd.user_translate(start + (n - 1) * PAGE_SIZE) {
            Some(p) => if p != zero_page { prev.push(p as usize) } else { prev },
            None => prev,
        }
    }
}

/// Pages that hold `len` bytes.
pub open spec fn pages_for_len(len: int) -> int {
    len / PAGE_SIZE as int + if len % PAGE_SIZE as int != 0 { 1int } else { 0 }
}

/// `x` rounded up to a page boundary.
pub open spec fn round_up_page(x: int) -> int {
    (x + PAGE_SIZE - 1) / PAGE_SIZE as int * PAGE_SIZE
}

/// Some area holds `start` and spans exactly `[start, end)`.
pub open spec fn is_whole_area(a: Seq<Area>, start: int, end: int) -> bool {
    exists|i: int| 0 <= i < a.len() && (#[trigger] a[i]).spec_contains(start) && a[i].start == start && a[i].end == end
}

/// A loadable section of a program image: where it goes, the bytes it starts with, how
/// many bytes it spans in memory, and the rights of its pages.
pub struct LoadableSection {
    pub vaddr: usize,
    pub data: Vec<u8>,
    pub mem_size: usize,
    pub flags: AreaFlag,
}

impl Memory {
    /// The areas.
    pub closed spec fn areas(&self) -> Seq<Area> {
        self.vma@
    }

    /// The page directory.
    pub closed spec fn pd(&self) -> PD {
        self.page_dir
    }

    /// Where the next block of system data goes.
    pub closed spec fn data_base(&self) -> usize {
        self.system_data_base
    }

    pub closed spec fn wf(&self) -> bool {
        self.vma.wf() && self.page_dir.wf()
    }

    /// The memory of a process with no area yet, over the directory `page_dir`, with
    /// system data from `system_data_base` on.
    pub fn new(system_data_base: usize, page_dir: PD) -> (m: Memory)
        requires
            page_dir.wf(),
        ensures
            m.wf(),
            m.areas() == Seq::<Area>::empty(),
            m.pd() == page_dir,
            m.data_base() == system_data_base,
    {
        Memory { system_data_base, vma: UserAddressSpace::new(), page_dir }
    }

    /// The memory of a new process: a directory that copies the entries of `kernel`, a
    /// stack of `nr_stack_pages` pages below `stack_base`, the bytes of the trampoline at the
    /// first page boundary from `trampoline_base` on, and the loadable sections of its image.
    pub fn from_elf(stack_base: usize, nr_stack_pages: usize, trampoline_base: usize, trampoline: &[u8],
        sections: &Vec<LoadableSection>, kernel: &PD, pa: &mut PageAllocator, mem: &mut PhysMem)
        -> (r: Result<Memory, Errno>)
        requires
            kernel.wf(),
            kernel.user_part_direct(),
            old(pa).wf(),
            nr_stack_pages * PAGE_SIZE <= stack_base,
            trampoline_base + PAGE_SIZE <= usize::MAX,
            forall|i: int| 0 <= i < sections@.len() ==>
                (#[trigger] sections@[i]).vaddr + sections@[i].mem_size + PAGE_SIZE <= usize::MAX,
        ensures
            final(pa).wf(),
            old(mem).log().is_prefix_of(final(mem).log()),
            r is Err ==> r == Err::<Memory, Errno>(Errno::ENOMEM),
            r matches Ok(m) ==> {
                &&& m.wf()
                &&& m.data_base() == round_up_page(trampoline_base as int) + trampoline@.len()
                &&& m.areas().contains(Area { start: (stack_base - nr_stack_pages * PAGE_SIZE) as usize,
                    end: stack_base, flags: AreaFlag { bits: 3 } })
                &&& trampoline@.len() > 0 ==> m.areas().contains(data_area(round_up_page(trampoline_base as int),
                    trampoline@.len() as int))
                &&& forall|j: int| 0 <= j < sections@.len() && (#[trigger] sections@[j]).mem_size > 0 ==>
                    m.areas().contains(section_area(sections@[j]))
            },
            ({
                let l = elf_layout(stack_base, nr_stack_pages, trampoline_base, trampoline@.len(), sections@);
                layout_fits(l) && old(pa).normal_free_pages() >= 1 + 2 * layout_pages(l, l.len() as int) ==> r is Ok
            }),
    {
        let ghost l = elf_layout(stack_base, nr_stack_pages, trampoline_base, trampoline@.len(), sections@);
        let ghost ok = layout_fits(l) && old(pa).normal_free_pages() >= 1 + 2 * layout_pages(l, l.len() as int);
        proof {
            assert forall|x: int| 0 <= x < l.len() && (#[trigger] l[x]) is Some implies l[x].unwrap().1 >= 0 by {
                if x >= 2 {
                    let sec = sections@[x - 2];
                    assert(l[x] == (if sec.mem_size > 0 {
                        Some((sec.vaddr - sec.vaddr % PAGE_SIZE, section_pages(sec.vaddr as int, sec.mem_size as int)))
                    } else { None }));
                    assert(section_pages(sec.vaddr as int, sec.mem_size as int) >= 0) by (nonlinear_arith)
                        requires sec.vaddr >= 0, sec.mem_size >= 0,
                            section_pages(sec.vaddr as int, sec.mem_size as int) == (round_up_page(sec.vaddr + sec.mem_size)
                                - (sec.vaddr - sec.vaddr % 4096)) / 4096,
                            round_up_page(sec.vaddr + sec.mem_size) == (sec.vaddr + sec.mem_size + 4095) / 4096 * 4096;
                }
            }
            lemma_layout_pages_grow(l, 0, l.len() as int);
            lemma_layout_pages_grow(l, 1, l.len() as int);
            lemma_layout_pages_grow(l, 2, l.len() as int);
            old(pa).normal().lemma_free_frames_count();
        }
        let page_dir = match PD::new(kernel, pa) {
            Ok(pd) => pd,
            Err(_) => {
                return Err(Errno::ENOMEM);
            },
        };
        proof {
            let pr = choose|pr: Result<usize, ()>| alloc_outcome(old(pa).normal(), pa.normal(), 0, pr)
                && (pr is Ok <==> true);
            lemma_alloc_page_count(old(pa).normal(), pa.normal(), pr);
        }
        let mut memory = Memory { system_data_base: trampoline_base, vma: UserAddressSpace::new(), page_dir };
        proof {
            assert(areas_from(memory.areas(), l, 0));
            if ok {
                lemma_layout_next_fits(memory.areas(), l, 0);
            }
        }
        let ghost stack_area = Area { start: (stack_base - nr_stack_pages * PAGE_SIZE) as usize,
            end: stack_base, flags: AreaFlag { bits: 3 } };
        let ghost tramp_area = data_area(round_up_page(trampoline_base as int), trampoline@.len() as int);
        match memory.reserve_stack(stack_base, nr_stack_pages, pa, mem) {
            Ok(_) => {},
            Err(_) => {
                return Err(Errno::ENOMEM);
            },
        }
        proof {
            lemma_added_contains(Seq::empty(), memory.areas(), stack_area);
            assert(area_of_entry(l[0], stack_area));
            lemma_layout_step(Seq::empty(), memory.areas(), l, 0, stack_area);
            if ok && trampoline@.len() > 0 {
                lemma_layout_next_fits(memory.areas(), l, 1);
            }
        }
        let ghost a1 = memory.areas();
        match memory.push_data(trampoline, pa, mem) {
            Ok(_) => {},
            Err(_) => {
                return Err(Errno::ENOMEM);
            },
        }
        proof {
            if trampoline@.len() > 0 {
                lemma_added_contains(a1, memory.areas(), tramp_area);
                lemma_added_keeps(a1, memory.areas(), stack_area);
                assert(area_of_entry(l[1], tramp_area));
                lemma_layout_step(a1, memory.areas(), l, 1, tramp_area);
            } else {
                lemma_layout_step(a1, memory.areas(), l, 1, tramp_area);
            }
        }
        let mut i: usize = 0;
        while i < sections.len()
            invariant
                memory.wf(),
                pa.wf(),
                old(mem).log().is_prefix_of(mem.log()),
                memory.data_base() == round_up_page(trampoline_base as int) + trampoline@.len(),
                forall|j: int| 0 <= j < sections@.len() ==>
                    (#[trigger] sections@[j]).vaddr + sections@[j].mem_size + PAGE_SIZE <= usize::MAX,
                i <= sections@.len(),
                memory.areas().contains(stack_area),
                trampoline@.len() > 0 ==> memory.areas().contains(tramp_area),
                forall|j: int| 0 <= j < i && (#[trigger] sections@[j]).mem_size > 0 ==>
                    memory.areas().contains(section_area(sections@[j])),
                l == elf_layout(stack_base, nr_stack_pages, trampoline_base, trampoline@.len(), sections@),
                l.len() == sections@.len() + 2,
                ok == (layout_fits(l) && old(pa).normal_free_pages() >= 1 + 2 * layout_pages(l, l.len() as int)),
                areas_from(memory.areas(), l, i + 2),
                pa.normal_free_pages() + 1 + 2 * layout_pages(l, i + 2) >= old(pa).normal_free_pages(),
                forall|x: int| 0 <= x < l.len() && (#[trigger] l[x]) is Some ==> l[x].unwrap().1 >= 0,
            decreases sections@.len() - i,
        {
            let section = &sections[i];
            let ghost log = mem.log();
            let ghost before = memory.areas();
            let ghost k = i + 2;
            proof {
                assert(l[k] == (if section.mem_size > 0 {
                    Some((section.vaddr - section.vaddr % PAGE_SIZE, section_pages(section.vaddr as int, section.mem_size as int)))
                } else { None }));
                lemma_layout_pages_grow(l, k + 1, l.len() as int);
                if ok && section.mem_size > 0 {
                    lemma_layout_next_fits(memory.areas(), l, k);
                }
            }
            memory.load_section(section.vaddr, &section.data, section.mem_size, section.flags, pa, mem)?;
            proof {
                if section.mem_size > 0 {
                    assert(area_of_entry(l[k], section_area(*section)));
                } else {
                    assert(memory.areas() == before);
                }
                lemma_layout_step(before, memory.areas(), l, k, section_area(*section));
                if section.mem_size > 0 {
                    lemma_added_contains(before, memory.areas(), section_area(*section));
                    lemma_added_keeps(before, memory.areas(), stack_area);
                    if trampoline@.len() > 0 {
                        lemma_added_keeps(before, memory.areas(), tramp_area);
                    }
                    assert forall|j: int| 0 <= j < i + 1 && (#[trigger] sections@[j]).mem_size > 0 implies
                        memory.areas().contains(section_area(sections@[j])) by {
                        if j < i {
                            lemma_added_keeps(before, memory.areas(), section_area(sections@[j]));
                        }
                    }
                }
            }
            assert(old(mem).log().is_prefix_of(mem.log())) by {
                assert(old(mem).log() =~= mem.log().subrange(0, old(mem).log().len() as int));
            }
            i = i + 1;
        }
        Ok(memory)
    }

    /// Every byte of the `bytes` bytes from `start` lies in an area that allows `flags`;
    /// false when the range runs past the end of the address space.
    pub fn query_flags_range(&self, start: usize, bytes: usize, flags: AreaFlag) -> (r: bool)
        requires
            self.wf(),
        ensures
            r == (start + bytes <= usize::MAX
                && flags_cover(self.areas(), start as int, start + bytes, flags)),
    {
        let end = match start.checked_add(bytes) {
            Some(x) => x,
            None => {
                return false;
            },
        };
        let ghost areas = self.vma@;
        let mut curr = start;
        while curr < end
            invariant
                self.wf(),
                areas == self.vma@,
                start <= curr,
                end == start + bytes,
                flags_cover(areas, start as int, curr as int, flags),
            decreases (if curr <= end { end - curr } else { 0int }),
        {
            match self.vma.find_area(curr) {
                Some(a) => {
                    if a.flags.contains(flags) {
                        proof {
                            let i = choose|i: int| 0 <= i < areas.len() && areas[i] == *a;
                            assert forall|x: int| start <= x < a.end implies #[trigger] flagged_at(areas, x, flags) by {
                                if x >= curr {
                                    assert(areas[i].spec_contains(x));
                                }
                            }
                        }
                        assert(a.end > curr);
                        curr = a.end;
                    } else {
                        proof {
                            assert(!flagged_at(areas, curr as int, flags)) by {
                                if flagged_at(areas, curr as int, flags) {
                                    let i = choose|i: int| 0 <= i < areas.len() && (#[trigger] areas[i]).spec_contains(curr as int)
                                        && areas[i].flags.spec_contains(flags);
                                    let k = choose|k: int| 0 <= k < areas.len() && areas[k] == *a;
                                    crate::vma::lemma_areas_disjoint(areas, i, k, curr as int);
                                }
                            }
                        }
                        return false;
                    }
                },
                None => {
                    proof {
                        if flagged_at(areas, curr as int, flags) {
                            let i = choose|i: int| 0 <= i < areas.len() && (#[trigger] areas[i]).spec_contains(curr as int)
                                && areas[i].flags.spec_contains(flags);
                            assert(covers(areas, curr as int));
                        }
                    }
                    return false;
                },
            }
        }
        true
    }

    /// The directory of the process.
    pub fn get_pd(&mut self) -> (pd: &mut PD)
        ensures
            *pd == old(self).pd(),
            final(self).pd() == *final(pd),
            final(self).areas() == old(self).areas(),
            final(self).data_base() == old(self).data_base(),
    {
        &mut self.page_dir
    }

    /// The areas of the process.
    pub fn get_vma(&self) -> (v: &UserAddressSpace)
        ensures
            v@ == self.areas(),
    {
        &self.vma
    }

    /// Reserves the area of a private mapping: at `start` when it is not 0 and fits,
    /// else in the first gap that holds it.
    fn reserve_area(&mut self, start: usize, pages: usize, flags: AreaFlag) -> (r: Result<usize, Errno>)
        requires
            old(self).wf(),
        ensures
            final(self).wf(),
            final(self).pd() == old(self).pd(),
            final(self).data_base() == old(self).data_base(),
            match mmap_place(old(self).areas(), start, pages) {
                Some(s) => r == Ok::<usize, Errno>(s) && area_added(old(self).areas(), final(self).areas(), s, pages, flags),
                None => r == Err::<usize, Errno>(Errno::ENOMEM) && final(self).areas() == old(self).areas(),
            },
    {
        let ghost a = self.vma@;
        if start != 0 {
            match self.vma.allocate_fixed_area(start, pages, flags) {
                Ok(s) => {
                    return Ok(s);
                },
                Err(_) => {},
            }
        }
        match self.vma.allocate_area(pages, flags) {
            Ok(s) => {
                proof {
                    let i = choose|i: int| #[trigger] crate::vma::first_fit(a, pages * PAGE_SIZE, i)
                        && s == crate::vma::gap_lo(a, i)
                        && self.vma@ == a.insert(i, Area { start: s, end: (s + pages * PAGE_SIZE) as usize, flags });
                    let k = choose|i: int| #[trigger] crate::vma::first_fit(a, pages * PAGE_SIZE, i);
                    crate::vma::lemma_first_fit_unique(a, pages * PAGE_SIZE, i, k);
                }
                Ok(s)
            },
            Err(_) => Err(Errno::ENOMEM),
        }
    }

    /// Maps `pages` zero-filled private pages with `flags`: at `start` when it is not 0 and
    /// the pages fit there, else in the first gap that holds them. Every page is mapped,
    /// present and user, to the shared page of zeros at `zero_page`.
    pub fn mmap_private(&mut self, start: usize, pages: usize, flags: AreaFlag, zero_page: usize,
        pa: &mut PageAllocator) -> (r: Result<usize, Errno>)
        requires
            old(self).wf(),
            old(pa).wf(),
        ensures
            final(self).wf(),
            final(pa).wf(),
            final(pa).high() == old(pa).high(),
            final(self).data_base() == old(self).data_base(),
            mmap_place(old(self).areas(), start, pages) is None ==> r == Err::<usize, Errno>(Errno::ENOMEM)
                && final(self).areas() == old(self).areas() && final(self).pd() == old(self).pd()
                && *final(pa) == *old(pa),
            mmap_place(old(self).areas(), start, pages) matches Some(s) ==> match r {
                Ok(v) => v == s && area_added(old(self).areas(), final(self).areas(), s, pages, flags)
                    && forall|k: int| 0 <= k < pages ==>
                        #[trigger] final(self).pd().user_translate(s + k * PAGE_SIZE) == zero_entry(zero_page),
                Err(e) => e == Errno::ENOMEM && exists|mid: Seq<Area>| area_added(old(self).areas(), mid, s, pages, flags)
                    && area_removed(mid, final(self).areas(), s)
                    && exists|i: int| 0 <= i < pages && failed_map_cleaned(old(self).pd(), final(self).pd(), s as int, i, zero_page),
            },
            mmap_place(old(self).areas(), start, pages) is Some && old(pa).normal_free_pages() >= pages ==> r is Ok,
            r is Ok ==> final(pa).normal_free_pages() + pages >= old(pa).normal_free_pages(),
    {
        let s = self.reserve_area(start, pages, flags)?;
        let ghost mid = self.vma@;
        proof {
            let i = choose|i: int| 0 <= i <= old(self).areas().len() && mid == #[trigger] old(self).areas().insert(i,
                Area { start: s, end: (s + pages * PAGE_SIZE) as usize, flags });
            assert(mid[i].start == s);
            assert(VALID_USER_START <= s && s + pages * PAGE_SIZE <= VALID_USER_END);
        }
        let mut i: usize = 0;
        while i < pages
            invariant
                self.wf(),
                pa.wf(),
                pa.high() == old(pa).high(),
                self.vma@ == mid,
                mmap_place(old(self).areas(), start, pages) == Some(s),
                area_added(old(self).areas(), mid, s, pages, flags),
                self.system_data_base == old(self).data_base(),
                i <= pages,
                s + pages * PAGE_SIZE <= VM_OFFSET,
                forall|k: int| 0 <= k < i ==> #[trigger] self.page_dir.user_translate(s + k * PAGE_SIZE) == zero_entry(zero_page),
                pa.normal_free_pages() + i >= old(pa).normal_free_pages(),
                self.page_dir.entries@.len() == old(self).pd().entries@.len(),
                forall|k: int| 0 <= k < i ==> !self.page_dir.entries@[#[trigger] index_of(s + k * PAGE_SIZE).0].spec_is_4m(),
                forall|w: int| 0 <= w < VM_OFFSET && outside_pages(w, s as int, i as int) ==>
                    #[trigger] self.page_dir.user_translate(w) == old(self).pd().user_translate(w),
            decreases pages - i,
        {
            assert(i * PAGE_SIZE < pages * PAGE_SIZE) by (nonlinear_arith) requires i < pages;
            let vaddr = s + i * PAGE_SIZE;
            let ghost before = self.page_dir;
            match self.page_dir.map_user(vaddr, zero_page, PageFlag::present().union(PageFlag::user()), pa) {
                Ok(_) => {},
                Err(_) => {
                    let ghost pd1 = self.page_dir;
                    assert(pd1.entries@ == before.entries@ && pd1.tables@ == before.tables@);
                    self.cleanup(s, i);
                    proof {
                        let fin = self.page_dir;
                        assert forall|k: int| 0 <= k < i - 1 implies #[trigger] fin.user_translate(s + k * PAGE_SIZE) is None by {
                            assert(!pd1.entries@[index_of(s + k * PAGE_SIZE).0].spec_is_4m());
                        }
                        if i >= 1 {
                            let w = s + (i - 1) * PAGE_SIZE;
                            assert(w / 4096 == s / 4096 + (i - 1)) by (nonlinear_arith)
                                requires w == s + (i - 1) * 4096, s >= 0, i >= 1;
                            assert(outside_pages(w, s as int, i - 1));
                            assert(pd1.user_translate(w) == before.user_translate(w));
                        }
                        assert forall|w: int| 0 <= w < VM_OFFSET && outside_pages(w, s as int, i as int) implies
                            #[trigger] fin.user_translate(w) == old(self).pd().user_translate(w) by {
                            assert(outside_pages(w, s as int, i - 1));
                            assert(pd1.user_translate(w) == before.user_translate(w));
                        }
                        assert(failed_map_cleaned(old(self).pd(), fin, s as int, i as int, zero_page));
                    }
                    return Err(Errno::ENOMEM);
                },
            }
            proof {
                assert((1u32 | 4u32) == 5u32) by (bit_vector);
                assert forall|k: int| 0 <= k < i + 1 implies #[trigger] self.page_dir.user_translate(s + k * PAGE_SIZE) == zero_entry(zero_page) by {
                    if k < i {
                        lemma_pages_apart(s as int, k, i as int);
                    }
                }
            }
            i = i + 1;
        }
        Ok(s)
    }

    /// Gives back the area at `start` and unmaps the first `count - 1` of its pages.
    fn cleanup(&mut self, start: usize, count: usize)
        requires
            old(self).wf(),
            start + count * PAGE_SIZE <= VM_OFFSET,
        ensures
            final(self).wf(),
            final(self).data_base() == old(self).data_base(),
            area_removed(old(self).areas(), final(self).areas(), start),
            final(self).pd().entries@ == old(self).pd().entries@,
            forall|k: int| 0 <= k < count - 1 && !old(self).pd().entries@[index_of(start + k * PAGE_SIZE).0].spec_is_4m()
                ==> #[trigger] final(self).pd().user_translate(start + k * PAGE_SIZE) is None,
            forall|w: int| 0 <= w < VM_OFFSET && outside_pages(w, start as int, count - 1) ==>
                #[trigger] final(self).pd().user_translate(w) == old(self).pd().user_translate(w),
    {
        self.vma.deallocate_area(start);
        let ghost after = self.vma@;
        let ghost pd0 = self.page_dir;
        let n = match count.checked_sub(1) {
            Some(x) => x,
            None => {
                return;
            },
        };
        let mut i: usize = 0;
        while i < n
            invariant
                self.wf(),
                self.vma@ == after,
                self.system_data_base == old(self).data_base(),
                start + n * PAGE_SIZE <= VM_OFFSET,
                n == count - 1,
                i <= n,
                pd0 == old(self).pd(),
                self.page_dir.entries@ == pd0.entries@,
                forall|k: int| 0 <= k < i && !pd0.entries@[index_of(start + k * PAGE_SIZE).0].spec_is_4m()
                    ==> #[trigger] self.page_dir.user_translate(start + k * PAGE_SIZE) is None,
                forall|w: int| 0 <= w < VM_OFFSET && outside_pages(w, start as int, i as int) ==>
                    #[trigger] self.page_dir.user_translate(w) == pd0.user_translate(w),
            decreases n - i,
        {
            assert(i * PAGE_SIZE < n * PAGE_SIZE) by (nonlinear_arith) requires i < n;
            let ghost before = self.page_dir;
            self.page_dir.unmap_user(start + i * PAGE_SIZE);
            proof {
                assert forall|k: int| 0 <= k < i + 1 && !pd0.entries@[index_of(start + k * PAGE_SIZE).0].spec_is_4m()
                    implies #[trigger] self.page_dir.user_translate(start + k * PAGE_SIZE) is None by {
                    if k < i {
                        lemma_pages_apart(start as int, k, i as int);
                    }
                }
                assert forall|w: int| 0 <= w < VM_OFFSET && outside_pages(w, start as int, i + 1) implies
                    #[trigger] self.page_dir.user_translate(w) == pd0.user_translate(w) by {
                    lemma_outside_step(w, start as int, i as int);
                    assert(before.user_translate(w) == pd0.user_translate(w));
                }
            }
            i = i + 1;
        }
    }

    /// Removes the private mapping of the `pages` pages at `start`, which must be exactly
    /// one area, unmaps its pages, and gives back to `pa` the physical pages other than
    /// the page of zeros that they mapped.
    pub fn munmap_private(&mut self, start: usize, pages: usize, zero_page: usize, pa: &mut PageAllocator)
        -> (r: Result<(), Errno>)
        requires
            old(self).wf(),
            old(pa).wf(),
            pages * PAGE_SIZE <= usize::MAX,
            start + pages * PAGE_SIZE <= usize::MAX
                && is_whole_area(old(self).areas(), start as int, start + pages * PAGE_SIZE)
                ==> frames_owned(*old(pa), released_pages(old(self).pd(), start as int, pages as nat, zero_page)),
        ensures
            final(self).wf(),
            final(pa).wf(),
            final(self).data_base() == old(self).data_base(),
            r is Ok <==> start + pages * PAGE_SIZE <= usize::MAX
                && is_whole_area(old(self).areas(), start as int, start + pages * PAGE_SIZE),
            r is Err ==> *final(pa) == *old(pa),
            match r {
                Ok(_) => {
                    let freed = released_pages(old(self).pd(), start as int, pages as nat, zero_page);
                    &&& area_removed(old(self).areas(), final(self).areas(), start)
                    &&& forall|k: int| 0 <= k < freed.len() ==>
                        !page_owned(*final(pa), #[trigger] spec_phys_to_virt(freed[k] as int) as usize)
                    &&& forall|x: usize| page_owned(*final(pa), x) ==> page_owned(*old(pa), x)
                    &&& final(self).pd().entries@ == old(self).pd().entries@
                    &&& forall|k: int| 0 <= k < pages && !old(self).pd().entries@[index_of(start + k * PAGE_SIZE).0].spec_is_4m()
                        ==> #[trigger] final(self).pd().user_translate(start + k * PAGE_SIZE) is None
                },
                Err(e) => e == Errno::EINVAL && final(self).areas() == old(self).areas()
                    && final(self).pd() == old(self).pd(),
            },
    {
        let end = match start.checked_add(pages * PAGE_SIZE) {
            Some(e) => e,
            None => {
                return Err(Errno::EINVAL);
            },
        };
        let ghost a = self.vma@;
        let area = match self.vma.find_area(start) {
            Some(x) => *x,
            None => {
                proof {
                    if is_whole_area(a, start as int, end as int) {
                        let i = choose|i: int| 0 <= i < a.len() && (#[trigger] a[i]).spec_contains(start as int)
                            && a[i].start == start && a[i].end == end;
                        assert(covers(a, start as int));
                    }
                }
                return Err(Errno::EINVAL);
            },
        };
        proof {
            let k = choose|k: int| 0 <= k < a.len() && a[k] == area;
            if is_whole_area(a, start as int, end as int) {
                let i = choose|i: int| 0 <= i < a.len() && (#[trigger] a[i]).spec_contains(start as int)
                    && a[i].start == start && a[i].end == end;
                crate::vma::lemma_areas_disjoint(a, i, k, start as int);
            }
        }
        if area.start != start || area.end != end {
            return Err(Errno::EINVAL);
        }
        let removed = self.vma.deallocate_area(start);
        let ghost pd0 = self.page_dir;
        let ghost a1 = self.vma@;
        proof {
            let k = choose|k: int| 0 <= k < a.len() && a[k] == area;
            assert(areas_wf(a));
            assert(end <= VALID_USER_END);
            assert(a[k].start == start);
            assert(removed is Some);
            assert(area_removed(a, a1, start));
        }
        let mut freed: Vec<usize> = Vec::new();
        let mut i: usize = 0;
        while i < pages
            invariant
                self.wf(),
                self.system_data_base == old(self).data_base(),
                end == start + pages * PAGE_SIZE,
                end <= VM_OFFSET,
                i <= pages,
                self.page_dir.entries@ == pd0.entries@,
                self.vma@ == a1,
                freed@ == released_pages(pd0, start as int, i as nat, zero_page),
                forall|k: int| i <= k < pages ==>
                    #[trigger] self.page_dir.user_translate(start + k * PAGE_SIZE) == pd0.user_translate(start + k * PAGE_SIZE),
                forall|k: int| 0 <= k < i && !pd0.entries@[index_of(start + k * PAGE_SIZE).0].spec_is_4m()
                    ==> #[trigger] self.page_dir.user_translate(start + k * PAGE_SIZE) is None,
            decreases pages - i,
        {
            assert(i * PAGE_SIZE < pages * PAGE_SIZE) by (nonlinear_arith) requires i < pages;
            let vaddr = start + i * PAGE_SIZE;
            match self.page_dir.lookup_user(vaddr) {
                Some(p) => {
                    if p != zero_page {
                        freed.push(p);
                    }
                },
                None => {},
            }
            self.page_dir.unmap_user(vaddr);
            proof {
                assert forall|k: int| i + 1 <= k < pages implies
                    #[trigger] self.page_dir.user_translate(start + k * PAGE_SIZE) == pd0.user_translate(start + k * PAGE_SIZE) by {
                    lemma_pages_apart(start as int, i as int, k);
                }
                assert forall|k: int| 0 <= k < i + 1 && !pd0.entries@[index_of(start + k * PAGE_SIZE).0].spec_is_4m()
                    implies #[trigger] self.page_dir.user_translate(start + k * PAGE_SIZE) is None by {
                    if k < i {
                        lemma_pages_apart(start as int, k, i as int);
                    }
                }
            }
            i = i + 1;
        }
        give_back_pages(&freed, pa);
        Ok(())
    }

    /// Maps the user page at `vaddr`, with `flags`, to a fresh page taken from high memory
    /// (or the linear map when high memory has none) that gets `content`.
    /// When the mapping fails the fresh page goes back.
    fn map_fresh_page(&mut self, vaddr: usize, content: Vec<u8>, flags: PageFlag, pa: &mut PageAllocator, mem: &mut PhysMem)
        -> (r: Result<(), AllocError>)
        requires
            old(self).wf(),
            old(pa).wf(),
            vaddr < VM_OFFSET,
        ensures
            final(self).wf(),
            final(pa).wf(),
            final(self).areas() == old(self).areas(),
            final(self).data_base() == old(self).data_base(),
            forall|w: int| 0 <= w < VM_OFFSET && index_of(w) != index_of(vaddr as int) ==>
                #[trigger] final(self).pd().user_translate(w) == old(self).pd().user_translate(w),
            r is Ok ==> exists|phys: usize| final(mem).log() == old(mem).log().push((phys, content@))
                && final(self).pd().user_translate(vaddr as int) == pte_target(PD::spec_pte(phys, flags)),
            r is Err ==> final(mem).log() == old(mem).log(),
            r is Ok ==> old(pa).high().can_serve(0) || old(pa).normal().can_serve(0),
            (old(pa).high().can_serve(0) || old(pa).normal().can_serve(0))
                && !old(self).pd().entries@[index_of(vaddr as int).0].spec_is_4m() ==> r is Ok,
            old(pa).normal_free_pages() >= 2 ==> r is Ok,
            r is Ok ==> final(pa).normal_free_pages() + 2 >= old(pa).normal_free_pages(),
    {
        let page = match pa.alloc_page(0, GFP::High) {
            Ok(a) => a,
            Err(_) => {
                return Err(AllocError);
            },
        };
        proof { lemma_fresh_page_owned(*old(pa), *pa, GFP::High, page); }
        let ghost pa1 = *pa;
        let phys = virt_to_phys(page);
        proof { pa1.normal().lemma_free_frames_count(); }
        match self.page_dir.map_user(vaddr, phys, flags, pa) {
            Ok(_) => {
                proof {
                    if pa.normal() != pa1.normal() {
                        let pr = choose|pr: Result<usize, ()>| alloc_outcome(pa1.normal(), pa.normal(), 0, pr)
                            && (pr is Ok <==> true);
                        lemma_alloc_page_count(pa1.normal(), pa.normal(), pr);
                    }
                }
                mem.write_page(phys, content);
                Ok(())
            },
            Err(_) => {
                proof {
                    let pr = choose|pr: Result<usize, ()>| alloc_outcome(pa1.normal(), pa.normal(), 0, pr)
                        && (pr is Ok <==> false);
                }
                pa.free_page(page);
                Err(AllocError)
            },
        }
    }

    /// Maps the pages of `data` at `addr` in a new readable and writable area, each on a
    /// fresh page that gets its part of `data` followed by zeros.
    fn copy_data_at(&mut self, addr: usize, data: &[u8], pa: &mut PageAllocator, mem: &mut PhysMem)
        -> (r: Result<(), AllocError>)
        requires
            old(self).wf(),
            old(pa).wf(),
        ensures
            final(self).wf(),
            final(pa).wf(),
            final(self).data_base() == old(self).data_base(),
            old(mem).log().is_prefix_of(final(mem).log()),
            data@.len() == 0 ==> r is Ok && final(self).areas() == old(self).areas()
                && final(mem).log() == old(mem).log(),
            data@.len() > 0 && r is Ok ==> ({
                let n = pages_for_len(data@.len() as int);
                &&& area_added(old(self).areas(), final(self).areas(), addr, n as usize, AreaFlag { bits: 3 })
                &&& final(mem).log().len() == old(mem).log().len() + n
                &&& forall|i: int| 0 <= i < n ==> {
                    let w = #[trigger] final(mem).log()[old(mem).log().len() + i];
                    &&& w.1 == page_content(data@, i)
                    &&& final(self).pd().user_translate(addr + i * PAGE_SIZE)
                        == pte_target(PD::spec_pte(w.0, PageFlag { bits: 7 }))
                }
            }),
            forall|w: int| 0 <= w < VM_OFFSET && outside_pages(w, addr as int, pages_for_len(data@.len() as int)) ==>
                #[trigger] final(self).pd().user_translate(w) == old(self).pd().user_translate(w),
            data@.len() > 0 && !fixed_fits(old(self).areas(), addr as int, addr + pages_for_len(data@.len() as int) * PAGE_SIZE)
                ==> r is Err && final(self).areas() == old(self).areas() && *final(pa) == *old(pa)
                    && final(mem).log() == old(mem).log(),
            data@.len() > 0 && fixed_fits(old(self).areas(), addr as int, addr + pages_for_len(data@.len() as int) * PAGE_SIZE)
                && old(pa).normal_free_pages() >= 2 * pages_for_len(data@.len() as int) ==> r is Ok,
            r is Ok ==> final(pa).normal_free_pages() + 2 * pages_for_len(data@.len() as int) >= old(pa).normal_free_pages(),
    {
        if data.len() == 0 {
            return Ok(());
        }
        let extra: usize = if data.len() % PAGE_SIZE != 0 { 1 } else { 0 };
        let n = data.len() / PAGE_SIZE + extra;
        self.vma.allocate_fixed_area(addr, n, AreaFlag::readable().union(AreaFlag::writable()))?;
        let ghost a1 = self.vma@;
        let ghost log0 = mem.log();
        proof {
            assert((1u32 | 2u32) == 3u32) by (bit_vector);
            let i = choose|i: int| 0 <= i <= old(self).areas().len() && a1 == #[trigger] old(self).areas().insert(i,
                Area { start: addr, end: (addr + n * PAGE_SIZE) as usize, flags: AreaFlag { bits: 3 } });
            assert(a1[i].start == addr);
            assert(addr + n * PAGE_SIZE <= VALID_USER_END);
            assert(n * PAGE_SIZE >= data@.len()) by (nonlinear_arith)
                requires n == data@.len() / 4096 + extra, extra == (if data@.len() % 4096 != 0 { 1int } else { 0 });
        }
        let mut i: usize = 0;
        while i < n
            invariant
                self.wf(),
                pa.wf(),
                self.vma@ == a1,
                self.system_data_base == old(self).data_base(),
                i <= n,
                n == pages_for_len(data@.len() as int),
                n * PAGE_SIZE >= data@.len(),
                addr + n * PAGE_SIZE <= VM_OFFSET,
                log0 == old(mem).log(),
                mem.log().len() == log0.len() + i,
                log0.is_prefix_of(mem.log()),
                forall|k: int| 0 <= k < i ==> {
                    let w = #[trigger] mem.log()[log0.len() + k];
                    &&& w.1 == page_content(data@, k)
                    &&& self.page_dir.user_translate(addr + k * PAGE_SIZE) == pte_target(PD::spec_pte(w.0, PageFlag { bits: 7 }))
                },
                forall|w: int| 0 <= w < VM_OFFSET && outside_pages(w, addr as int, i as int) ==>
                    #[trigger] self.page_dir.user_translate(w) == old(self).pd().user_translate(w),
                pa.normal_free_pages() + 2 * i >= old(pa).normal_free_pages(),
                fixed_fits(old(self).areas(), addr as int, addr + n * PAGE_SIZE),
            decreases n - i,
        {
            assert(i * PAGE_SIZE < n * PAGE_SIZE) by (nonlinear_arith) requires i < n;
            assert(i * PAGE_SIZE < data@.len()) by (nonlinear_arith)
                requires i < n, n == pages_for_len(data@.len() as int), data@.len() > 0;
            let content = page_of(data, i);
            let ghost log1 = mem.log();
            let ghost pd1 = self.page_dir;
            let step = self.map_fresh_page(addr + i * PAGE_SIZE, content, PageFlag::user_rdwr(), pa, mem);
            proof {
                assert forall|w: int| 0 <= w < VM_OFFSET && outside_pages(w, addr as int, i + 1) implies
                    #[trigger] self.page_dir.user_translate(w) == old(self).pd().user_translate(w) by {
                    lemma_outside_step(w, addr as int, i as int);
                    assert(pd1.user_translate(w) == old(self).pd().user_translate(w));
                }
                assert forall|w: int| 0 <= w < VM_OFFSET && outside_pages(w, addr as int, n as int) implies
                    outside_pages(w, addr as int, i + 1) by {}
            }
            if step.is_err() {
                return Err(AllocError);
            }
            proof {
                assert forall|k: int| 0 <= k < i + 1 implies {
                    let w = #[trigger] mem.log()[log0.len() + k];
                    &&& w.1 == page_content(data@, k)
                    &&& self.page_dir.user_translate(addr + k * PAGE_SIZE) == pte_target(PD::spec_pte(w.0, PageFlag { bits: 7 }))
                } by {
                    assert(mem.log()[log0.len() + k] == if k < i { log1[log0.len() + k] } else { mem.log().last() });
                    if k < i {
                        lemma_pages_apart(addr as int, k, i as int);
                    }
                }
                assert(log0.is_prefix_of(mem.log()));
            }
            i = i + 1;
        }
        Ok(())
    }

    /// Loads a section of `len` bytes at `addr` whose first bytes are `data`: reserves the
    /// pages it spans with `flags`, and maps each to a fresh page that gets its part of the
    /// section, zeros before the start and after the end of the data.
    #[verifier::rlimit(60)]
    fn load_section(&mut self, addr: usize, data: &[u8], len: usize, flags: AreaFlag, pa: &mut PageAllocator,
        mem: &mut PhysMem) -> (r: Result<(), Errno>)
        requires
            old(self).wf(),
            old(pa).wf(),
            addr + len + PAGE_SIZE <= usize::MAX,
        ensures
            final(self).wf(),
            final(pa).wf(),
            final(self).data_base() == old(self).data_base(),
            old(mem).log().is_prefix_of(final(mem).log()),
            r is Err ==> r == Err::<(), Errno>(Errno::ENOMEM),
            len == 0 ==> r is Ok && final(self).areas() == old(self).areas() && final(mem).log() == old(mem).log(),
            len > 0 && r is Ok ==> ({
                let n = section_pages(addr as int, len as int);
                let base = addr - addr % PAGE_SIZE;
                &&& area_added(old(self).areas(), final(self).areas(), base as usize, n as usize, flags)
                &&& final(mem).log().len() == old(mem).log().len() + n
                &&& forall|i: int| 0 <= i < n ==> {
                    let w = #[trigger] final(mem).log()[old(mem).log().len() + i];
                    &&& w.1 == section_page(addr as int, data@, i)
                    &&& final(self).pd().user_translate(base + i * PAGE_SIZE)
                        == pte_target(PD::spec_pte(w.0, flags.spec_page_flag()))
                }
            }),
            ({
                let n = section_pages(addr as int, len as int);
                let base = addr - addr % PAGE_SIZE;
                &&& len > 0 && !fixed_fits(old(self).areas(), base, base + n * PAGE_SIZE) ==> r is Err
                    && final(self).areas() == old(self).areas() && *final(pa) == *old(pa)
                    && final(mem).log() == old(mem).log()
                &&& len > 0 && fixed_fits(old(self).areas(), base, base + n * PAGE_SIZE)
                    && old(pa).normal_free_pages() >= 2 * n ==> r is Ok
                &&& r is Ok && len > 0 ==> final(pa).normal_free_pages() + 2 * n >= old(pa).normal_free_pages()
                &&& len == 0 ==> *final(pa) == *old(pa)
            }),
    {
        if len == 0 {
            return Ok(());
        }
        let aligned_addr = addr - addr % PAGE_SIZE;
        let l_padding = addr % PAGE_SIZE;
        proof { crate::util::lemma_round_up_page((addr + len) as usize); }
        let r_padding = next_align(addr + len, PAGE_SIZE) - (addr + len);
        let needed_pages = (l_padding + len + r_padding) / PAGE_SIZE;
        proof { lemma_section_pages(addr as int, len as int, needed_pages as int); }
        match self.vma.allocate_fixed_area(aligned_addr, needed_pages, flags) {
            Ok(_) => {},
            Err(_) => {
                return Err(Errno::ENOMEM);
            },
        }
        let ghost a1 = self.vma@;
        let ghost log0 = mem.log();
        proof {
            let i = choose|i: int| 0 <= i <= old(self).areas().len() && a1 == #[trigger] old(self).areas().insert(i,
                Area { start: aligned_addr, end: (aligned_addr + needed_pages * PAGE_SIZE) as usize, flags });
            assert(a1[i].start == aligned_addr);
            assert(aligned_addr + needed_pages * PAGE_SIZE <= VALID_USER_END);
        }
        let page_flag = flags.to_page_flag();
        let mut chunks = PageAlignedChunk::new(addr, data, len);
        assert(data@.subrange(0, data@.len() as int) =~= data@);
        let mut i: usize = 0;
        while i < needed_pages
            invariant
                self.wf(),
                pa.wf(),
                self.vma@ == a1,
                self.system_data_base == old(self).data_base(),
                i <= needed_pages,
                len > 0,
                needed_pages == section_pages(addr as int, len as int),
                aligned_addr == addr - addr % PAGE_SIZE,
                aligned_addr + needed_pages * PAGE_SIZE <= VM_OFFSET,
                page_flag == flags.spec_page_flag(),
                chunks.wf(),
                chunk_state(chunks, addr as int, data@, len as int, i as int),
                log0 == old(mem).log(),
                mem.log().len() == log0.len() + i,
                log0.is_prefix_of(mem.log()),
                forall|k: int| 0 <= k < i ==> {
                    let w = #[trigger] mem.log()[log0.len() + k];
                    &&& w.1 == section_page(addr as int, data@, k)
                    &&& self.page_dir.user_translate(aligned_addr + k * PAGE_SIZE) == pte_target(PD::spec_pte(w.0, page_flag))
                },
                pa.normal_free_pages() + 2 * i >= old(pa).normal_free_pages(),
                fixed_fits(old(self).areas(), aligned_addr as int, aligned_addr + needed_pages * PAGE_SIZE),
            decreases needed_pages - i,
        {
            proof {
                lemma_section_remain(addr as int, len as int, i as int, needed_pages as int);
                lemma_chunk_step(chunks, addr as int, data@, len as int, i as int);
            }
            let chunk = match chunks.next() {
                Some(c) => c,
                None => {
                    assert(false);
                    return Err(Errno::ENOMEM);
                },
            };
            assert(chunk.data@ == data@.subrange(chunk_start(addr as int, data@.len() as int, i as int),
                chunk_end(addr as int, data@.len() as int, i as int)));
            let mut content = zero_page_content();
            chunk.write_to_page(&mut content, 0);
            assert(content@ =~= section_page(addr as int, data@, i as int));
            assert(i * PAGE_SIZE < needed_pages * PAGE_SIZE) by (nonlinear_arith) requires i < needed_pages;
            let ghost log1 = mem.log();
            match self.map_fresh_page(aligned_addr + i * PAGE_SIZE, content, page_flag, pa, mem) {
                Ok(_) => {},
                Err(_) => {
                    return Err(Errno::ENOMEM);
                },
            }
            proof {
                assert forall|k: int| 0 <= k < i + 1 implies {
                    let w = #[trigger] mem.log()[log0.len() + k];
                    &&& w.1 == section_page(addr as int, data@, k)
                    &&& self.page_dir.user_translate(aligned_addr + k * PAGE_SIZE) == pte_target(PD::spec_pte(w.0, page_flag))
                } by {
                    assert(mem.log()[log0.len() + k] == if k < i { log1[log0.len() + k] } else { mem.log().last() });
                    if k < i {
                        lemma_pages_apart(aligned_addr as int, k, i as int);
                    }
                }
                assert(log0.is_prefix_of(mem.log()));
            }
            i = i + 1;
        }
        Ok(())
    }

    /// Copies `data` to the next page boundary at or after the end of the system data,
    /// which then ends after it, and returns where it starts.
    fn push_data(&mut self, data: &[u8], pa: &mut PageAllocator, mem: &mut PhysMem) -> (r: Result<usize, AllocError>)
        requires
            old(self).wf(),
            old(pa).wf(),
            old(self).data_base() + PAGE_SIZE <= usize::MAX,
        ensures
            final(self).wf(),
            final(pa).wf(),
            old(mem).log().is_prefix_of(final(mem).log()),
            r matches Ok(a) ==> a == round_up_page(old(self).data_base() as int)
                && final(self).data_base() == a + data@.len(),
            r is Ok && data@.len() == 0 ==> final(self).areas() == old(self).areas()
                && final(mem).log() == old(mem).log(),
            r matches Ok(a) ==> data@.len() > 0 ==> ({
                let n = pages_for_len(data@.len() as int);
                &&& area_added(old(self).areas(), final(self).areas(), a, n as usize, AreaFlag { bits: 3 })
                &&& final(mem).log().len() == old(mem).log().len() + n
                &&& forall|i: int| 0 <= i < n ==> {
                    let w = #[trigger] final(mem).log()[old(mem).log().len() + i];
                    &&& w.1 == page_content(data@, i)
                    &&& final(self).pd().user_translate(a + i * PAGE_SIZE)
                        == pte_target(PD::spec_pte(w.0, PageFlag { bits: 7 }))
                }
            }),
            forall|w: int| 0 <= w < VM_OFFSET && outside_pages(w, round_up_page(old(self).data_base() as int),
                pages_for_len(data@.len() as int)) ==>
                #[trigger] final(self).pd().user_translate(w) == old(self).pd().user_translate(w),
            ({
                let a = round_up_page(old(self).data_base() as int);
                let n = pages_for_len(data@.len() as int);
                &&& data@.len() > 0 && !fixed_fits(old(self).areas(), a, a + n * PAGE_SIZE) ==> r is Err
                    && final(self).areas() == old(self).areas() && *final(pa) == *old(pa)
                    && final(mem).log() == old(mem).log() && final(self).data_base() == old(self).data_base()
                &&& data@.len() == 0 || fixed_fits(old(self).areas(), a, a + n * PAGE_SIZE)
                    && old(pa).normal_free_pages() >= 2 * n ==> r is Ok
                &&& r is Ok ==> final(pa).normal_free_pages() + 2 * n >= old(pa).normal_free_pages()
            }),
    {
        let addr = next_align(self.system_data_base, PAGE_SIZE);
        proof { crate::util::lemma_round_up_page(self.system_data_base); }
        self.copy_data_at(addr, data, pa, mem)?;
        if data.len() > usize::MAX - addr {
            return Err(AllocError);
        }
        self.system_data_base = addr + data.len();
        Ok(addr)
    }

    /// The argument strings `args` laid out for a new process from `copy_base` on: their
    /// bytes, each string ended by a zero byte, and the address of each string followed by
    /// a null pointer. Without an argument array, no bytes and just the null pointer. Fails
    /// with `E2BIG` when a string does not fit in `max_bytes` bytes together with the
    /// strings before it.
    #[verifier::spinoff_prover]
    #[verifier::rlimit(40)]
    pub fn copy_c_argv(args: Option<&Vec<Vec<u8>>>, copy_base: usize, max_bytes: usize)
        -> (r: Result<(Vec<u8>, Vec<usize>), Errno>)
        requires
            args matches Some(a) ==> argv_fits(views(a@), copy_base as int, max_bytes as int),
        ensures
            match args {
                None => r matches Ok((b, p)) && b@ == Seq::<u8>::empty() && p@ == seq![0usize],
                Some(a) => match r {
                    Ok((b, p)) => !too_big(views(a@), max_bytes as int) && b@ == joined(views(a@))
                        && p@ == argv_pointers(views(a@), copy_base as int),
                    Err(e) => e == Errno::E2BIG && too_big(views(a@), max_bytes as int),
                },
            },
    {
        let a = match args {
            None => {
                let mut p: Vec<usize> = Vec::new();
                p.push(0);
                return Ok((Vec::new(), p));
            },
            Some(a) => a,
        };
        let packed = StringVec::new(a, max_bytes)?;
        let ghost strs = views(a@);
        let mut ptrs: Vec<usize> = Vec::new();
        let mut k: usize = 0;
        proof {
            assert(!too_big(strs, usize::MAX as int)) by {
                assert forall|j: int| 0 <= j < strs.len() implies
                    !((#[trigger] strs[j]).len() + joined(strs.take(j)).len() > usize::MAX) by {
                    assert(strs[j].len() + joined(strs.take(j)).len() <= max_bytes);
                }
            }
            if strs.len() > 0 {
                lemma_offsets_at(strs, 0);
            }
        }
        while k < packed.index.len()
            invariant
                strs == views(a@),
                !too_big(strs, max_bytes as int),
                !too_big(strs, usize::MAX as int),
                packed.index@ == offsets(strs),
                packed.index@.len() == strs.len(),
                argv_fits(strs, copy_base as int, max_bytes as int),
                k <= packed.index@.len(),
                ptrs@ == offsets(strs).take(k as int).map_values(|o: usize| (o + copy_base) as usize),
            decreases packed.index@.len() - k,
        {
            proof {
                reveal(argv_fits);
                lemma_offsets_at(strs, k as int);
                let t = strs.take(k + 1);
                assert forall|i: int| 0 <= i < t.len() implies
                    !((#[trigger] t[i]).len() + joined(t.take(i)).len() > max_bytes) by {
                    assert(t.take(i) =~= strs.take(i));
                    assert(t[i] == strs[i]);
                }
                assert(t.drop_last() =~= strs.take(k as int));
                assert(copy_base + joined(t).len() <= usize::MAX);
            }
            ptrs.push(packed.index[k] + copy_base);
            k = k + 1;
            assert(ptrs@ =~= offsets(strs).take(k as int).map_values(|o: usize| (o + copy_base) as usize));
        }
        ptrs.push(0);
        assert(offsets(strs).take(k as int) =~= offsets(strs));
        Ok((packed.data, ptrs))
    }

    /// Copies the argument strings `args` for a new process after the system data, each
    /// ended by a zero byte, then the array of their addresses ended by a null pointer, and
    /// returns the address of the array and the number of strings. Fails with `E2BIG` when a
    /// string does not fit in `max_bytes` bytes together with the strings before it, and
    /// with `ENOMEM` when the pages for them cannot be had.
    #[verifier::rlimit(60)]
    pub fn push_string_array(&mut self, args: Option<&Vec<Vec<u8>>>, max_bytes: usize,
        pa: &mut PageAllocator, mem: &mut PhysMem) -> (r: Result<(usize, usize), Errno>)
        requires
            old(self).wf(),
            old(pa).wf(),
            old(self).data_base() + PAGE_SIZE <= usize::MAX,
            round_up_page(old(self).data_base() as int) + max_bytes + 1 + PAGE_SIZE <= usize::MAX,
        ensures
            final(self).wf(),
            final(pa).wf(),
            old(mem).log().is_prefix_of(final(mem).log()),
            ({
                let strs = match args { Some(a) => views(a@), None => Seq::<Seq<u8>>::empty() };
                let ptrs = match args { Some(a) => argv_pointers(strs, round_up_page(old(self).data_base() as int)),
                    None => seq![0usize] };
                let strings_at = round_up_page(old(self).data_base() as int);
                let array_at = round_up_page(strings_at + joined(strs).len());
                &&& (r == Err::<(usize, usize), Errno>(Errno::E2BIG)) <==> (args is Some && too_big(strs, max_bytes as int))
                &&& r is Err ==> r == Err::<(usize, usize), Errno>(Errno::E2BIG) || r == Err::<(usize, usize), Errno>(Errno::ENOMEM)
                &&& ({
                    let n1 = pages_for_len(joined(strs).len() as int);
                    let n2 = pages_for_len(le_bytes(ptrs).len() as int);
                    &&& !(args is Some && too_big(strs, max_bytes as int))
                    &&& n1 == 0 || fixed_fits(old(self).areas(), strings_at, strings_at + n1 * PAGE_SIZE)
                    &&& fixed_fits(old(self).areas(), array_at, array_at + n2 * PAGE_SIZE)
                    &&& old(pa).normal_free_pages() >= 2 * (n1 + n2)
                }) ==> r is Ok
                &&& r matches Ok((b, n)) ==> {
                    let l0 = old(mem).log().len();
                    let n1 = pages_for_len(joined(strs).len() as int);
                    let n2 = pages_for_len(le_bytes(ptrs).len() as int);
                    &&& b == array_at
                    &&& n == strs.len()
                    &&& final(self).data_base() == b + le_bytes(ptrs).len()
                    &&& final(mem).log().len() == l0 + n1 + n2
                    &&& forall|i: int| 0 <= i < n1 ==> {
                        let w = #[trigger] final(mem).log()[l0 + i];
                        &&& w.1 == page_content(joined(strs), i)
                        &&& final(self).pd().user_translate(strings_at + i * PAGE_SIZE)
                            == pte_target(PD::spec_pte(w.0, PageFlag { bits: 7 }))
                    }
                    &&& forall|i: int| 0 <= i < n2 ==> {
                        let w = #[trigger] final(mem).log()[l0 + n1 + i];
                        &&& w.1 == page_content(le_bytes(ptrs), i)
                        &&& final(self).pd().user_translate(b + i * PAGE_SIZE)
                            == pte_target(PD::spec_pte(w.0, PageFlag { bits: 7 }))
                    }
                }
            }),
    {
        let copy_base = next_align(self.system_data_base, PAGE_SIZE);
        proof { crate::util::lemma_round_up_page(self.system_data_base); }
        let ghost strs = match args { Some(a) => views(a@), None => Seq::<Seq<u8>>::empty() };
        let ghost ptrs = match args { Some(a) => argv_pointers(strs, copy_base as int), None => seq![0usize] };
        proof {
            if let Some(a) = args {
                lemma_argv_fits_below(views(a@), copy_base as int, max_bytes as int);
            }
        }
        let (bytes_of_args, arg_ptrs) = Self::copy_c_argv(args, copy_base, max_bytes)?;
        proof {
            assert(bytes_of_args@ == joined(strs));
            assert(arg_ptrs@ == ptrs);
            if strs.len() > 0 {
                assert(!too_big(strs, usize::MAX as int)) by {
                    assert forall|j: int| 0 <= j < strs.len() implies
                        !((#[trigger] strs[j]).len() + joined(strs.take(j)).len() > usize::MAX) by {
                        assert(strs[j].len() + joined(strs.take(j)).len() <= max_bytes);
                    }
                }
                lemma_offsets_at(strs, 0);
            }
            assert(arg_ptrs@.len() == strs.len() + 1);
        }
        let ghost log0 = mem.log();
        match self.push_data(&bytes_of_args, pa, mem) {
            Ok(_) => {},
            Err(_) => {
                return Err(Errno::ENOMEM);
            },
        }
        let ghost log1 = mem.log();
        let ghost pd1 = self.page_dir;
        let ghost areas0 = old(self).areas();
        let ghost areas1 = self.vma@;
        let ghost n1 = pages_for_len(joined(strs).len() as int);
        let ghost array_at = round_up_page(copy_base + joined(strs).len());
        let ghost n2 = pages_for_len(le_bytes(ptrs).len() as int);
        proof { lemma_round_up_after(copy_base as int, joined(strs).len() as int); }
        proof {
            if n1 > 0 {
                assert(bytes_of_args@.len() > 0);
                let k = choose|k: int| 0 <= k <= areas0.len() && areas1 == #[trigger] areas0.insert(k,
                    Area { start: copy_base, end: (copy_base + n1 * PAGE_SIZE) as usize, flags: AreaFlag { bits: 3 } });
                assert(areas_wf(areas1));
                assert(areas1.len() == areas0.len() + 1);
                lemma_area_in_user(areas1, k);
                if fixed_fits(areas0, array_at, array_at + n2 * PAGE_SIZE) {
                    assert forall|j: int| 0 <= j < areas1.len() implies
                        (#[trigger] areas1[j]).start != array_at
                        && (areas1[j].end <= array_at || array_at + n2 * PAGE_SIZE <= areas1[j].start) by {
                        if j < k {
                            assert(areas1[j] == areas0[j]);
                        } else if j > k {
                            assert(areas1[j] == areas0[j - 1]);
                        }
                    }
                    assert(fixed_fits(areas1, array_at, array_at + n2 * PAGE_SIZE));
                }
            } else {
                assert(areas1 == areas0);
            }
        }
        let bytes = words_to_bytes(&arg_ptrs);
        let array_base = match self.push_data(&bytes, pa, mem) {
            Ok(a) => a,
            Err(_) => {
                return Err(Errno::ENOMEM);
            },
        };
        proof {
            let n2 = pages_for_len(le_bytes(ptrs).len() as int);
            assert(le_bytes(ptrs).len() > 0) by {
                assert(ptrs.len() > 0);
                assert(ptrs.drop_last().len() < ptrs.len());
            }
            assert forall|i: int| 0 <= i < n1 implies {
                let w = #[trigger] mem.log()[log0.len() + i];
                &&& w.1 == page_content(joined(strs), i)
                &&& self.page_dir.user_translate(copy_base + i * PAGE_SIZE)
                    == pte_target(PD::spec_pte(w.0, PageFlag { bits: 7 }))
            } by {
                assert(mem.log()[log0.len() + i] == log1[log0.len() + i]);
                lemma_page_before(copy_base as int, i, n1);
                assert(copy_base + i * PAGE_SIZE < copy_base + n1 * PAGE_SIZE) by (nonlinear_arith) requires i < n1;
                assert(outside_pages(copy_base + i * PAGE_SIZE, array_base as int, n2));
                assert(self.page_dir.user_translate(copy_base + i * PAGE_SIZE) == pd1.user_translate(copy_base + i * PAGE_SIZE));
            }
            assert forall|i: int| 0 <= i < n2 implies {
                let w = #[trigger] mem.log()[log0.len() + n1 + i];
                &&& w.1 == page_content(le_bytes(ptrs), i)
                &&& self.page_dir.user_translate(array_base + i * PAGE_SIZE)
                    == pte_target(PD::spec_pte(w.0, PageFlag { bits: 7 }))
            } by {
                assert(log1.len() == log0.len() + n1);
                assert(mem.log()[log0.len() + n1 + i] == mem.log()[log1.len() + i]);
            }
        }
        Ok((array_base, arg_ptrs.len() - 1))
    }

    /// A copy of the memory for a new process, over a new directory that copies the entries
    /// of `kernel`: the same areas, and each of their pages mapped readable and writable to
    /// a fresh page that gets the bytes of the page it copies, or to the page of zeros at
    /// `zero_page` itself where the page maps it.
    #[verifier::rlimit(60)]
    pub fn clone(&self, kernel: &PD, zero_page: usize, pa: &mut PageAllocator, mem: &mut PhysMem)
        -> (r: Result<Memory, AllocError>)
        requires
            self.wf(),
            kernel.wf(),
            kernel.user_part_direct(),
            old(pa).wf(),
            areas_page_aligned(self.areas()),
            sources_ready(*self, *old(pa), zero_page),
        ensures
            final(pa).wf(),
            old(mem).log().is_prefix_of(final(mem).log()),
            r matches Ok(m) ==> {
                &&& m.wf()
                &&& m.areas() == self.areas()
                &&& m.data_base() == self.data_base()
                &&& forall|i: int, k: int| #[trigger] in_area(self.areas(), i, k) ==> exists|d: usize|
                    page_cloned(*self, m.pd(), *final(pa), old(mem).log(), final(mem).log(), zero_page,
                        page_at(self.areas(), i, k), d)
            },
            old(pa).normal_free_pages() >= 1 + 2 * area_pages(self.areas(), self.areas().len() as int) ==> r is Ok,
            r is Ok ==> final(pa).normal_free_pages() + 1 + 2 * area_pages(self.areas(), self.areas().len() as int)
                >= old(pa).normal_free_pages(),
    {
        proof {
            old(pa).normal().lemma_free_frames_count();
            assert forall|x: int| 0 <= x < self.areas().len() implies (#[trigger] self.areas()[x]).start <= self.areas()[x].end by {
                assert(areas_wf(self.areas()));
            }
            lemma_area_pages_grow(self.areas(), 0, self.areas().len() as int);
        }
        let mut page_dir = match PD::new(kernel, pa) {
            Ok(pd) => pd,
            Err(_) => {
                return Err(AllocError);
            },
        };
        proof {
            let pr = choose|pr: Result<usize, ()>| alloc_outcome(old(pa).normal(), pa.normal(), 0, pr)
                && (pr is Ok <==> true);
            lemma_alloc_page_count(old(pa).normal(), pa.normal(), pr);
        }
        let ghost total = area_pages(self.areas(), self.areas().len() as int);
        let ghost areas = self.vma@;
        let ghost log0 = mem.log();
        let ghost mut dst: Map<int, usize> = Map::empty();
        let n = self.vma.get_areas().len();
        let mut i: usize = 0;
        while i < n
            invariant
                self.wf(),
                areas == self.areas(),
                n == areas.len(),
                i <= n,
                areas_page_aligned(areas),
                page_dir.wf(),
                pa.wf(),
                log0 == old(mem).log(),
                log0.is_prefix_of(mem.log()),
                sources_ready(*self, *pa, zero_page),
                sources_kept(*self, log0, mem.log(), zero_page),
                forall|i2: int, k2: int| #[trigger] in_area(areas, i2, k2) && i2 < i ==> dst.dom().contains(page_at(areas, i2, k2))
                    && page_cloned(*self, page_dir, *pa, log0, mem.log(), zero_page, page_at(areas, i2, k2), dst[page_at(areas, i2, k2)]),
                total == area_pages(areas, n as int),
                forall|x: int| 0 <= x < areas.len() ==> (#[trigger] areas[x]).start <= areas[x].end,
                pa.normal_free_pages() + 1 + 2 * area_pages(areas, i as int) >= old(pa).normal_free_pages(),
            decreases n - i,
        {
            let area = self.vma.get_areas()[i];
            assert(area == areas[i as int]);
            proof { lemma_area_pages_grow(areas, i + 1, n as int); }
            let mut v = area.start;
            let ghost mut k: int = 0;
            while v < area.end
                invariant
                    self.wf(),
                    areas == self.areas(),
                    n == areas.len(),
                    i < n,
                    area == areas[i as int],
                    areas_page_aligned(areas),
                    0 <= k,
                    v == area.start + k * PAGE_SIZE,
                    v <= area.end || k == 0 || v - PAGE_SIZE < area.end,
                    page_dir.wf(),
                    pa.wf(),
                    log0 == old(mem).log(),
                    log0.is_prefix_of(mem.log()),
                    sources_ready(*self, *pa, zero_page),
                    sources_kept(*self, log0, mem.log(), zero_page),
                    forall|i2: int, k2: int| #[trigger] in_area(areas, i2, k2) && (i2 < i || (i2 == i && k2 < k))
                        ==> dst.dom().contains(page_at(areas, i2, k2))
                        && page_cloned(*self, page_dir, *pa, log0, mem.log(), zero_page, page_at(areas, i2, k2), dst[page_at(areas, i2, k2)]),
                    total == area_pages(areas, n as int),
                    forall|x: int| 0 <= x < areas.len() ==> (#[trigger] areas[x]).start <= areas[x].end,
                    area_pages(areas, i + 1) <= total,
                    k <= pages_for_len(area.end - area.start),
                    pa.normal_free_pages() + 1 + 2 * (area_pages(areas, i as int) + k) >= old(pa).normal_free_pages(),
                decreases if v <= area.end { area.end - v } else { 0int },
            {
                assert(k + 1 <= pages_for_len(area.end - area.start)) by (nonlinear_arith)
                    requires v == area.start + k * 4096, v < area.end, 0 <= k;
                assert(in_area(areas, i as int, k));
                assert(page_at(areas, i as int, k) == v);
                assert(v < VM_OFFSET);
                let src = match self.page_dir.lookup_user(v) {
                    Some(s) => s,
                    None => {
                        assert(false);
                        return Err(AllocError);
                    },
                };
                let ghost pa0 = *pa;
                let ghost log1 = mem.log();
                let ghost pd0 = page_dir;
                let d = self.clone_page_at(&mut page_dir, v, src, zero_page, pa, mem)?;
                proof {
                    assert forall|i2: int, k2: int| #[trigger] in_area(areas, i2, k2) && (i2 < i || (i2 == i && k2 < k + 1))
                        implies dst.insert(v as int, d).dom().contains(page_at(areas, i2, k2))
                        && page_cloned(*self, page_dir, *pa, log0, mem.log(), zero_page, page_at(areas, i2, k2),
                            dst.insert(v as int, d)[page_at(areas, i2, k2)]) by {
                        let w = page_at(areas, i2, k2);
                        if i2 == i && k2 == k {
                            assert(w == v);
                        } else {
                            lemma_earlier_page_below(areas, i2, k2, i as int, k);
                            lemma_aligned_pages_apart(areas, i2, k2, i as int, k);
                            assert(w != v);
                            assert(page_cloned(*self, pd0, pa0, log0, log1, zero_page, w, dst[w]));
                            let dw = dst[w];
                            let s = self.pd().user_translate(w)->0;
                            if s != zero_page as int {
                                assert(page_owned(pa0, spec_phys_to_virt(dw as int) as usize));
                                assert(content_of(mem.log(), dw) == content_of(log1, dw));
                            }
                        }
                    }
                    assert forall|i2: int, k2: int| #[trigger] in_area(areas, i2, k2) implies {
                        let t = self.pd().user_translate(page_at(areas, i2, k2));
                        t->0 != zero_page as int ==> content_of(mem.log(), t->0 as usize) == content_of(log0, t->0 as usize)
                    } by {
                        let t = self.pd().user_translate(page_at(areas, i2, k2));
                        if t->0 != zero_page as int {
                            assert(page_owned(pa0, spec_phys_to_virt(t->0) as usize));
                            assert(content_of(mem.log(), t->0 as usize) == content_of(log1, t->0 as usize));
                        }
                    }
                    dst = dst.insert(v as int, d);
                    k = k + 1;
                }
                v = v + PAGE_SIZE;
            }
            proof {
                assert forall|i2: int, k2: int| #[trigger] in_area(areas, i2, k2) && i2 < i + 1 implies
                    dst.dom().contains(page_at(areas, i2, k2))
                    && page_cloned(*self, page_dir, *pa, log0, mem.log(), zero_page, page_at(areas, i2, k2), dst[page_at(areas, i2, k2)]) by {
                    if i2 == i {
                        assert(k2 < k) by (nonlinear_arith)
                            requires page_at(areas, i2, k2) < areas[i2].end, areas[i2].end <= v,
                                v == areas[i2].start + k * 4096, page_at(areas, i2, k2) == areas[i2].start + k2 * 4096;
                    }
                }
            }
            i = i + 1;
        }
        proof {
            assert forall|i2: int, k2: int| #[trigger] in_area(areas, i2, k2) implies exists|d: usize|
                page_cloned(*self, page_dir, *pa, log0, mem.log(), zero_page, page_at(areas, i2, k2), d) by {
                assert(page_cloned(*self, page_dir, *pa, log0, mem.log(), zero_page, page_at(areas, i2, k2), dst[page_at(areas, i2, k2)]));
            }
        }
        let vma = self.vma.clone();
        let m = Memory { system_data_base: self.system_data_base, vma, page_dir };
        assert(m.areas() == self.areas());
        assert(m.pd() == page_dir);
        assert(m.wf());
        Ok(m)
    }

    /// Gives the user page at `vaddr` of `pd` what the page `src` holds: a fresh page from
    /// high memory (or the linear map) with the bytes of `src`, or the page of zeros itself
    /// when `src` is it; mapped readable and writable.
    fn clone_page_at(&self, pd: &mut PD, vaddr: usize, src: usize, zero_page: usize, pa: &mut PageAllocator,
        mem: &mut PhysMem) -> (r: Result<usize, AllocError>)
        requires
            old(pd).wf(),
            old(pa).wf(),
            vaddr < VM_OFFSET,
            src != zero_page ==> page_owned(*old(pa), spec_phys_to_virt(src as int) as usize),
        ensures
            final(pd).wf(),
            final(pa).wf(),
            forall|x: usize| page_owned(*old(pa), x) ==> #[trigger] page_owned(*final(pa), x),
            old(mem).log().is_prefix_of(final(mem).log()),
            forall|p: usize| page_owned(*old(pa), #[trigger] spec_phys_to_virt(p as int) as usize)
                ==> content_of(final(mem).log(), p) == content_of(old(mem).log(), p),
            forall|w: int| 0 <= w < VM_OFFSET && index_of(w) != index_of(vaddr as int) ==>
                #[trigger] final(pd).user_translate(w) == old(pd).user_translate(w),
            r matches Ok(d) ==> {
                &&& final(pd).user_translate(vaddr as int) == pte_target(PD::spec_pte(d, PageFlag { bits: 7 }))
                &&& src == zero_page ==> d == zero_page
                &&& src != zero_page ==> page_owned(*final(pa), spec_phys_to_virt(d as int) as usize)
                    && (content_of(old(mem).log(), src) is Some ==> content_of(final(mem).log(), d) == content_of(old(mem).log(), src))
            },
            old(pa).normal_free_pages() >= (if src != zero_page { 2int } else { 1int }) ==> r is Ok,
            r is Ok ==> final(pa).normal_free_pages() + (if src != zero_page { 2int } else { 1int })
                >= old(pa).normal_free_pages(),
    {
        let d = if src != zero_page {
            let a = match pa.alloc_page(0, GFP::High) {
                Ok(a) => a,
                Err(_) => {
                    return Err(AllocError);
                },
            };
            proof {
                lemma_owned_grows(*old(pa), *pa, a);
                lemma_linear_roundtrip(a);
            }
            let d = virt_to_phys(a);
            let ghost log_before = mem.log();
            let _ = copy_user_to_user_page(mem, src, d);
            proof {
                assert forall|p: usize| page_owned(*old(pa), #[trigger] spec_phys_to_virt(p as int) as usize)
                    implies content_of(mem.log(), p) == content_of(log_before, p) by {
                    if p == d {
                        assert(spec_phys_to_virt(d as int) == a);
                    }
                }
            }
            d
        } else {
            zero_page
        };
        let ghost pa1 = *pa;
        proof { pa1.normal().lemma_free_frames_count(); }
        match pd.map_user(vaddr, d, PageFlag::user_rdwr(), pa) {
            Ok(_) => {},
            Err(_) => {
                proof { lemma_map_keeps_owned(pa1, *pa); }
                return Err(AllocError);
            },
        }
        proof {
            lemma_map_keeps_owned(pa1, *pa);
            if pa.normal() != pa1.normal() {
                let pr = choose|pr: Result<usize, ()>| alloc_outcome(pa1.normal(), pa.normal(), 0, pr)
                    && (pr is Ok <==> true);
                lemma_alloc_page_count(pa1.normal(), pa.normal(), pr);
            }
        }
        Ok(d)
    }

    /// Reserves `nr_pages` readable and writable pages of stack below `stack_base`, each on
    /// a fresh page of zeros.
    fn reserve_stack(&mut self, stack_base: usize, nr_pages: usize, pa: &mut PageAllocator, mem: &mut PhysMem)
        -> (r: Result<(), AllocError>)
        requires
            old(self).wf(),
            old(pa).wf(),
            nr_pages * PAGE_SIZE <= stack_base,
        ensures
            final(self).wf(),
            final(pa).wf(),
            final(self).data_base() == old(self).data_base(),
            old(mem).log().is_prefix_of(final(mem).log()),
            r is Ok ==> ({
                let top = stack_base - nr_pages * PAGE_SIZE;
                &&& area_added(old(self).areas(), final(self).areas(), top as usize, nr_pages, AreaFlag { bits: 3 })
                &&& final(mem).log().len() == old(mem).log().len() + nr_pages
                &&& forall|i: int| 0 <= i < nr_pages ==> {
                    let w = #[trigger] final(mem).log()[old(mem).log().len() + i];
                    &&& w.1 == Seq::new(PAGE_SIZE as nat, |j: int| 0u8)
                    &&& final(self).pd().user_translate(top + i * PAGE_SIZE)
                        == pte_target(PD::spec_pte(w.0, PageFlag { bits: 7 }))
                }
            }),
            !fixed_fits(old(self).areas(), stack_base - nr_pages * PAGE_SIZE, stack_base as int) ==> r is Err
                && final(self).areas() == old(self).areas() && *final(pa) == *old(pa)
                && final(mem).log() == old(mem).log(),
            fixed_fits(old(self).areas(), stack_base - nr_pages * PAGE_SIZE, stack_base as int)
                && old(pa).normal_free_pages() >= 2 * nr_pages ==> r is Ok,
            r is Ok ==> final(pa).normal_free_pages() + 2 * nr_pages >= old(pa).normal_free_pages(),
    {
        let stack_top = stack_base - nr_pages * PAGE_SIZE;
        self.vma.allocate_fixed_area(stack_top, nr_pages, AreaFlag::readable().union(AreaFlag::writable()))?;
        let ghost a1 = self.vma@;
        let ghost log0 = mem.log();
        proof {
            assert((1u32 | 2u32) == 3u32) by (bit_vector);
            let i = choose|i: int| 0 <= i <= old(self).areas().len() && a1 == #[trigger] old(self).areas().insert(i,
                Area { start: stack_top, end: (stack_top + nr_pages * PAGE_SIZE) as usize, flags: AreaFlag { bits: 3 } });
            assert(a1[i].start == stack_top);
        }
        let mut i: usize = 0;
        while i < nr_pages
            invariant
                self.wf(),
                pa.wf(),
                self.vma@ == a1,
                self.system_data_base == old(self).data_base(),
                i <= nr_pages,
                stack_top == stack_base - nr_pages * PAGE_SIZE,
                stack_top + nr_pages * PAGE_SIZE <= VM_OFFSET,
                log0 == old(mem).log(),
                mem.log().len() == log0.len() + i,
                log0.is_prefix_of(mem.log()),
                forall|k: int| 0 <= k < i ==> {
                    let w = #[trigger] mem.log()[log0.len() + k];
                    &&& w.1 == Seq::new(PAGE_SIZE as nat, |j: int| 0u8)
                    &&& self.page_dir.user_translate(stack_top + k * PAGE_SIZE) == pte_target(PD::spec_pte(w.0, PageFlag { bits: 7 }))
                },
                pa.normal_free_pages() + 2 * i >= old(pa).normal_free_pages(),
                fixed_fits(old(self).areas(), stack_top as int, stack_base as int),
            decreases nr_pages - i,
        {
            assert(i * PAGE_SIZE < nr_pages * PAGE_SIZE) by (nonlinear_arith) requires i < nr_pages;
            let content = zero_page_content();
            let ghost log1 = mem.log();
            self.map_fresh_page(stack_top + i * PAGE_SIZE, content, PageFlag::user_rdwr(), pa, mem)?;
            proof {
                assert forall|k: int| 0 <= k < i + 1 implies {
                    let w = #[trigger] mem.log()[log0.len() + k];
                    &&& w.1 == Seq::new(PAGE_SIZE as nat, |j: int| 0u8)
                    &&& self.page_dir.user_translate(stack_top + k * PAGE_SIZE) == pte_target(PD::spec_pte(w.0, PageFlag { bits: 7 }))
                } by {
                    assert(mem.log()[log0.len() + k] == if k < i { log1[log0.len() + k] } else { mem.log().last() });
                    if k < i {
                        lemma_pages_apart(stack_top as int, k, i as int);
                    }
                }
                assert(log0.is_prefix_of(mem.log()));
            }
            i = i + 1;
        }
        Ok(())
    }
}

/// Every string that fits in `max_bytes` bytes together with the strings before it ends,
/// with its zero byte, within `usize` when the strings are laid out from `base` on.
#[verifier::opaque]
pub open spec fn argv_fits(strs: Seq<Seq<u8>>, base: int, max_bytes: int) -> bool {
    forall|k: int| 0 <= k < strs.len() && !too_big(#[trigger] strs.take(k + 1), max_bytes)
        ==> base + joined(strs.take(k + 1)).len() <= usize::MAX
}

/// Strings laid out from `base` fit when `max_bytes` bytes and a zero byte do.
pub proof fn lemma_argv_fits_below(strs: Seq<Seq<u8>>, base: int, max_bytes: int)
    requires
        base + max_bytes + 1 <= usize::MAX,
    ensures
        argv_fits(strs, base, max_bytes),
{
    reveal(argv_fits);
    assert forall|k: int| 0 <= k < strs.len() && !too_big(#[trigger] strs.take(k + 1), max_bytes)
        implies base + joined(strs.take(k + 1)).len() <= usize::MAX by {
        let t = strs.take(k + 1);
        assert(t.drop_last() =~= strs.take(k));
        assert(t.take(k) =~= strs.take(k));
        assert(!(t[k].len() + joined(t.take(k)).len() > max_bytes));
    }
}

/// The addresses of the strings laid out from `base` on, followed by a null pointer.
pub open spec fn argv_pointers(strs: Seq<Seq<u8>>, base: int) -> Seq<usize> {
    offsets(strs).map_values(|o: usize| (o + base) as usize).push(0usize)
}

/// Pages spanned by the `len` bytes from `addr`.
pub open spec fn section_pages(addr: int, len: int) -> int {
    (round_up_page(addr + len) - (addr - addr % PAGE_SIZE as int)) / PAGE_SIZE as int
}

/// Where the data of page `i` of a section at `addr` starts in its `dlen` bytes of data.
pub open spec fn chunk_start(addr: int, dlen: int, i: int) -> int {
    let off = addr % PAGE_SIZE as int;
    if i == 0 { 0 } else if dlen < PAGE_SIZE - off + (i - 1) * PAGE_SIZE { dlen } else { PAGE_SIZE - off + (i - 1) * PAGE_SIZE }
}

/// Where the data of page `i` of a section at `addr` ends in its `dlen` bytes of data.
pub open spec fn chunk_end(addr: int, dlen: int, i: int) -> int {
    chunk_start(addr, dlen, i + 1)
}

/// Page `i` of a section at `addr` with the bytes `data`: its part of the data, after
/// zeros up to the start of the section on the first page, and zeros after it.
pub open spec fn section_page(addr: int, data: Seq<u8>, i: int) -> Seq<u8> {
    zero_extended(if i == 0 { addr % PAGE_SIZE as int } else { 0 },
        data.subrange(chunk_start(addr, data.len() as int, i), chunk_end(addr, data.len() as int, i)))
}

/// Bytes of a section of `len` bytes at `addr` still to lay out after `i` pages.
pub open spec fn section_remain(addr: int, len: int, i: int) -> int {
    let off = addr % PAGE_SIZE as int;
    if i == 0 { len } else if len > PAGE_SIZE - off + (i - 1) * PAGE_SIZE { len - (PAGE_SIZE - off) - (i - 1) * PAGE_SIZE } else { 0 }
}

/// The walk over the pages of a section at `addr` stands at page `i`.
pub open spec fn chunk_state(c: PageAlignedChunk, addr: int, data: Seq<u8>, len: int, i: int) -> bool {
    &&& c.spec_next_offset() == if i == 0 { addr % PAGE_SIZE as int } else { 0 }
    &&& c.spec_data() == data.subrange(chunk_start(addr, data.len() as int, i), data.len() as int)
    &&& c.spec_remain() == section_remain(addr, len, i)
}

/// The padded length of a section, in pages.
proof fn lemma_section_pages(addr: int, len: int, n: int)
    requires
        0 <= addr,
        0 < len,
        n == (addr % 4096 + len + (round_up_page(addr + len) - (addr + len))) / 4096,
    ensures
        n == section_pages(addr, len),
        n * PAGE_SIZE == round_up_page(addr + len) - (addr - addr % 4096),
        n >= 1,
{
    let e = addr + len;
    assert(round_up_page(e) % 4096 == 0 && round_up_page(e) >= e) by (nonlinear_arith)
        requires e >= 0, round_up_page(e) == (e + 4095) / 4096 * 4096;
    assert((addr - addr % 4096) % 4096 == 0) by (nonlinear_arith) requires addr >= 0;
    assert((round_up_page(e) - (addr - addr % 4096)) % 4096 == 0) by (nonlinear_arith)
        requires round_up_page(e) % 4096 == 0, (addr - addr % 4096) % 4096 == 0;
    assert(round_up_page(e) - (addr - addr % 4096) >= 4096) by (nonlinear_arith)
        requires round_up_page(e) >= e, e == addr + len, len > 0, addr >= 0,
            (round_up_page(e) - (addr - addr % 4096)) % 4096 == 0;
}

/// Bytes remain to lay out exactly on the pages the section spans.
proof fn lemma_section_remain(addr: int, len: int, i: int, n: int)
    requires
        0 <= addr,
        0 < len,
        0 <= i < n,
        n == section_pages(addr, len),
        n * PAGE_SIZE == round_up_page(addr + len) - (addr - addr % 4096),
    ensures
        section_remain(addr, len, i) > 0,
{
    let off = addr % 4096;
    let e = addr + len;
    assert(round_up_page(e) < e + 4096) by (nonlinear_arith)
        requires e >= 0, round_up_page(e) == (e + 4095) / 4096 * 4096;
    assert(i * 4096 < off + len) by (nonlinear_arith)
        requires i < n, n * 4096 == round_up_page(e) - (addr - off), round_up_page(e) < e + 4096, e == addr + len,
            i >= 0, n >= 0;
}

/// One step of the walk over the pages of a section.
proof fn lemma_chunk_step(c: PageAlignedChunk, addr: int, data: Seq<u8>, len: int, i: int)
    requires
        0 <= addr,
        0 <= i,
        0 < len,
        section_remain(addr, len, i) > 0,
        chunk_state(c, addr, data, len, i),
    ensures
        ({
            let room = PAGE_SIZE - c.spec_next_offset();
            let n = if c.spec_data().len() < room { c.spec_data().len() as int } else { room };
            &&& c.spec_data().subrange(0, n) == data.subrange(chunk_start(addr, data.len() as int, i),
                chunk_end(addr, data.len() as int, i))
            &&& c.spec_data().subrange(n, c.spec_data().len() as int)
                == data.subrange(chunk_start(addr, data.len() as int, i + 1), data.len() as int)
            &&& (if section_remain(addr, len, i) >= room { section_remain(addr, len, i) - room } else { 0 })
                == section_remain(addr, len, i + 1)
        }),
{
    let room = PAGE_SIZE - c.spec_next_offset();
    let n = if c.spec_data().len() < room { c.spec_data().len() as int } else { room };
    let s = chunk_start(addr, data.len() as int, i);
    assert(s + n == chunk_end(addr, data.len() as int, i));
    assert(c.spec_data().subrange(0, n) =~= data.subrange(s, s + n));
    assert(c.spec_data().subrange(n, c.spec_data().len() as int) =~= data.subrange(s + n, data.len() as int));
}

/// Unmapping the private mapping just made gives back the areas there were, among areas
/// that are not empty.
pub proof fn lemma_munmap_undoes_mmap(a0: Seq<Area>, a1: Seq<Area>, a2: Seq<Area>, s: usize, pages: usize, flags: AreaFlag)
    requires
        areas_wf(a1),
        forall|k: int| 0 <= k < a0.len() ==> (#[trigger] a0[k]).start < a0[k].end,
        0 < pages,
        s + pages * PAGE_SIZE <= usize::MAX,
        area_added(a0, a1, s, pages, flags),
        area_removed(a1, a2, s),
    ensures
        a2 == a0,
{
    let area = Area { start: s, end: (s + pages * PAGE_SIZE) as usize, flags };
    let i = choose|i: int| 0 <= i <= a0.len() && a1 == #[trigger] a0.insert(i, area);
    assert(a1[i].start == s);
    let j = choose|j: int| 0 <= j < a1.len() && (#[trigger] a1[j]).start == s
        && (forall|k: int| 0 <= k < j ==> (#[trigger] a1[k]).start != s) && a2 == a1.remove(j);
    crate::vma::lemma_release_undoes_reserve(a0, i, area, j);
}

/// The page of `w` is none of the `n` pages from the page of `addr`.
pub open spec fn outside_pages(w: int, addr: int, n: int) -> bool {
    let p = PAGE_SIZE as int;
    (w / p) < (addr / p) || (w / p) >= (addr / p) + n
}

/// An address outside the first `i + 1` pages from `addr` is outside the first `i`, and
/// not in the page of page `i`.
proof fn lemma_outside_step(w: int, addr: int, i: int)
    requires
        0 <= w,
        0 <= addr,
        0 <= i,
        outside_pages(w, addr, i + 1),
    ensures
        outside_pages(w, addr, i),
        index_of(w) != index_of(addr + i * PAGE_SIZE),
{
    assert((addr + i * 4096) / 4096 == addr / 4096 + i) by (nonlinear_arith) requires addr >= 0, i >= 0;
    crate::page_directory::lemma_index_same_page(w, addr + i * PAGE_SIZE);
}

/// From a page boundary, the first page boundary at or after `len` bytes is `len`
/// rounded up to whole pages.
proof fn lemma_round_up_after(a: int, len: int)
    requires
        a % PAGE_SIZE as int == 0,
        0 <= a,
        0 <= len,
    ensures
        round_up_page(a + len) == a + pages_for_len(len) * PAGE_SIZE,
        len == 0 ==> pages_for_len(len) == 0,
{
    assert(round_up_page(a + len) == a + pages_for_len(len) * 4096) by (nonlinear_arith)
        requires a % 4096 == 0, a >= 0, len >= 0, round_up_page(a + len) == (a + len + 4095) / 4096 * 4096,
            pages_for_len(len) == len / 4096 + if len % 4096 != 0 { 1int } else { 0 };
}

/// Page `i` of `n` pages from a page boundary lies below the page boundary after them.
proof fn lemma_page_before(a: int, i: int, n: int)
    requires
        a % PAGE_SIZE as int == 0,
        0 <= a,
        0 <= i < n,
    ensures
        (a + i * PAGE_SIZE) / (PAGE_SIZE as int) < (a + n * PAGE_SIZE) / (PAGE_SIZE as int),
{
    assert((a + i * 4096) / 4096 < (a + n * 4096) / 4096) by (nonlinear_arith)
        requires a % 4096 == 0, a >= 0, 0 <= i < n;
}

/// The area that a block of `len` bytes of system data at the page boundary `a` gets.
pub open spec fn data_area(a: int, len: int) -> Area {
    Area { start: a as usize, end: (a + pages_for_len(len) * PAGE_SIZE) as usize, flags: AreaFlag { bits: 3 } }
}

/// The area that a loadable section gets: the pages it spans, with its rights.
pub open spec fn section_area(s: LoadableSection) -> Area {
    let base = s.vaddr - s.vaddr % PAGE_SIZE;
    Area { start: base as usize, end: (base + section_pages(s.vaddr as int, s.mem_size as int) * PAGE_SIZE) as usize,
        flags: s.flags }
}

/// An area just added is among the areas.
proof fn lemma_added_contains(a: Seq<Area>, b: Seq<Area>, x: Area)
    requires
        exists|i: int| 0 <= i <= a.len() && b == #[trigger] a.insert(i, x),
    ensures
        b.contains(x),
{
    let i = choose|i: int| 0 <= i <= a.len() && b == #[trigger] a.insert(i, x);
    assert(b[i] == x);
}

/// Adding an area keeps the areas there were.
proof fn lemma_added_keeps(a: Seq<Area>, b: Seq<Area>, x: Area)
    requires
        exists|i: int, y: Area| 0 <= i <= a.len() && b == #[trigger] a.insert(i, y),
        a.contains(x),
    ensures
        b.contains(x),
{
    let (i, y) = choose|i: int, y: Area| 0 <= i <= a.len() && b == #[trigger] a.insert(i, y);
    let k = choose|k: int| 0 <= k < a.len() && a[k] == x;
    if k < i {
        assert(b[k] == x);
    } else {
        assert(b[k + 1] == x);
    }
}

/// An area of a well-formed address space lies in the user part.
proof fn lemma_area_in_user(areas: Seq<Area>, k: int)
    requires
        areas_wf(areas),
        0 <= k < areas.len(),
    ensures
        VALID_USER_START <= areas[k].start <= areas[k].end <= VALID_USER_END,
{
    assert(VALID_USER_START <= areas[k].start);
}

/// The areas start on page boundaries.
pub open spec fn areas_page_aligned(areas: Seq<Area>) -> bool {
    forall|i: int| 0 <= i < areas.len() ==> (#[trigger] areas[i]).start as int % PAGE_SIZE as int == 0
}

/// Where the memory of a new process goes, in the order it is laid out: the stack, the
/// data at `trampoline_base`, then each section; each as its first address and its number
/// of pages, or `None` where it takes no area.
pub open spec fn elf_layout(stack_base: usize, nr_stack_pages: usize, trampoline_base: usize, tramp_len: nat,
    sections: Seq<LoadableSection>) -> Seq<Option<(int, int)>> {
    seq![
        Some((stack_base - nr_stack_pages * PAGE_SIZE, nr_stack_pages as int)),
        if tramp_len > 0 { Some((round_up_page(trampoline_base as int), pages_for_len(tramp_len as int))) } else { None },
    ] + sections.map_values(|s: LoadableSection| if s.mem_size > 0 {
        Some((s.vaddr - s.vaddr % PAGE_SIZE, section_pages(s.vaddr as int, s.mem_size as int)))
    } else {
        None
    })
}

/// Two runs of pages, each as its first address and its number of pages, start apart and
/// share no page.
pub open spec fn runs_apart(a: (int, int), b: (int, int)) -> bool {
    a.0 != b.0 && (a.0 + a.1 * PAGE_SIZE <= b.0 || b.0 + b.1 * PAGE_SIZE <= a.0)
}

/// Every run of the layout lies in user space, and any two are apart.
pub open spec fn layout_fits(l: Seq<Option<(int, int)>>) -> bool {
    &&& forall|i: int| 0 <= i < l.len() && (#[trigger] l[i]) is Some ==>
        VALID_USER_START <= l[i].unwrap().0 && l[i].unwrap().0 + l[i].unwrap().1 * PAGE_SIZE <= VALID_USER_END
    &&& forall|i: int, j: int| 0 <= i < j < l.len() && (#[trigger] l[i]) is Some && (#[trigger] l[j]) is Some ==>
        runs_apart(l[i].unwrap(), l[j].unwrap())
}

/// Pages of the first `k` runs of the layout.
pub open spec fn layout_pages(l: Seq<Option<(int, int)>>, k: int) -> int
    decreases k,
{
    if k <= 0 {
        0
    } else {
        layout_pages(l, k - 1) + match l[k - 1] { Some(r) => r.1, None => 0 }
    }
}

/// The area spans the run of the entry.
pub open spec fn area_of_entry(e: Option<(int, int)>, a: Area) -> bool {
    e matches Some(r) && a.start == r.0 && a.end == r.0 + r.1 * PAGE_SIZE
}

/// The area spans a run among the first `k` of the layout.
pub open spec fn entry_among(l: Seq<Option<(int, int)>>, k: int, a: Area) -> bool {
    exists|m: int| 0 <= m < k && #[trigger] area_of_entry(l[m], a)
}

/// Every area spans a run among the first `k` of the layout.
pub open spec fn areas_from(areas: Seq<Area>, l: Seq<Option<(int, int)>>, k: int) -> bool {
    forall|j: int| 0 <= j < areas.len() ==> #[trigger] entry_among(l, k, areas[j])
}

/// More runs hold no fewer pages.
proof fn lemma_layout_pages_grow(l: Seq<Option<(int, int)>>, i: int, j: int)
    requires
        0 <= i <= j <= l.len(),
        forall|x: int| 0 <= x < l.len() && (#[trigger] l[x]) is Some ==> l[x].unwrap().1 >= 0,
    ensures
        layout_pages(l, i) <= layout_pages(l, j),
    decreases j - i,
{
    if i < j {
        lemma_layout_pages_grow(l, i, j - 1);
        if l[j - 1] is Some {
            assert(l[j - 1].unwrap().1 >= 0);
        }
    }
}

/// The run of the next entry fits among areas laid out from the entries before it.
proof fn lemma_layout_next_fits(areas: Seq<Area>, l: Seq<Option<(int, int)>>, k: int)
    requires
        layout_fits(l),
        areas_from(areas, l, k),
        0 <= k < l.len(),
        l[k] is Some,
    ensures
        fixed_fits(areas, l[k].unwrap().0, l[k].unwrap().0 + l[k].unwrap().1 * PAGE_SIZE),
{
    assert(l[k] is Some);
    assert forall|j: int| 0 <= j < areas.len() implies (#[trigger] areas[j]).start != l[k].unwrap().0
        && (areas[j].end <= l[k].unwrap().0 || l[k].unwrap().0 + l[k].unwrap().1 * PAGE_SIZE <= areas[j].start) by {
        assert(entry_among(l, k, areas[j]));
        let m = choose|m: int| 0 <= m < k && #[trigger] area_of_entry(l[m], areas[j]);
        assert(l[m] is Some);
        assert(runs_apart(l[m].unwrap(), l[k].unwrap()));
    }
}

/// Adding the area of entry `k` keeps every area spanning an earlier or that run.
proof fn lemma_layout_step(a: Seq<Area>, b: Seq<Area>, l: Seq<Option<(int, int)>>, k: int, x: Area)
    requires
        areas_from(a, l, k),
        0 <= k < l.len(),
        b == a || (area_of_entry(l[k], x) && exists|i: int| 0 <= i <= a.len() && b == #[trigger] a.insert(i, x)),
    ensures
        areas_from(b, l, k + 1),
{
    assert forall|j: int| 0 <= j < b.len() implies #[trigger] entry_among(l, k + 1, b[j]) by {
        if b == a {
            assert(entry_among(l, k, a[j]));
            let m = choose|m: int| 0 <= m < k && #[trigger] area_of_entry(l[m], a[j]);
            assert(area_of_entry(l[m], b[j]));
        } else {
            let i = choose|i: int| 0 <= i <= a.len() && b == #[trigger] a.insert(i, x);
            if j == i {
                assert(area_of_entry(l[k], b[j]));
            } else {
                let aj = if j < i { j } else { j - 1 };
                assert(b[j] == a[aj]);
                assert(entry_among(l, k, a[aj]));
                let m = choose|m: int| 0 <= m < k && #[trigger] area_of_entry(l[m], a[aj]);
                assert(area_of_entry(l[m], b[j]));
            }
        }
    }
}

/// Pages of the first `i` areas, an area's last page counted whole.
pub open spec fn area_pages(areas: Seq<Area>, i: int) -> int
    decreases i,
{
    if i <= 0 {
        0
    } else {
        area_pages(areas, i - 1) + pages_for_len(areas[i - 1].end - areas[i - 1].start)
    }
}

/// More areas hold no fewer pages.
proof fn lemma_area_pages_grow(areas: Seq<Area>, i: int, j: int)
    requires
        0 <= i <= j <= areas.len(),
        forall|x: int| 0 <= x < areas.len() ==> (#[trigger] areas[x]).start <= areas[x].end,
    ensures
        area_pages(areas, i) <= area_pages(areas, j),
    decreases j - i,
{
    if i < j {
        lemma_area_pages_grow(areas, i, j - 1);
        assert(areas[j - 1].start <= areas[j - 1].end);
    }
}

/// Address of page `k` of area `i`.
pub open spec fn page_at(areas: Seq<Area>, i: int, k: int) -> int {
    areas[i].start + k * PAGE_SIZE
}

/// Area `i` has a page `k`.
pub open spec fn in_area(areas: Seq<Area>, i: int, k: int) -> bool {
    0 <= i < areas.len() && 0 <= k && page_at(areas, i, k) < areas[i].end
}

/// Every page of every area of `m` is mapped, and what it maps, the page of zeros
/// `zero_page` aside, is a page in use of `pa`.
pub open spec fn sources_ready(m: Memory, pa: PageAllocator, zero_page: usize) -> bool {
    forall|i: int, k: int| #[trigger] in_area(m.areas(), i, k) ==> {
        let t = m.pd().user_translate(page_at(m.areas(), i, k));
        &&& t is Some
        &&& t->0 != zero_page as int ==> page_owned(pa, spec_phys_to_virt(t->0) as usize)
    }
}

/// The pages that the areas of `m` map, the page of zeros aside, hold in `log1` what
/// they held in `log0`.
pub open spec fn sources_kept(m: Memory, log0: Seq<(usize, Seq<u8>)>, log1: Seq<(usize, Seq<u8>)>, zero_page: usize) -> bool {
    forall|i: int, k: int| #[trigger] in_area(m.areas(), i, k) ==> {
        let t = m.pd().user_translate(page_at(m.areas(), i, k));
        t->0 != zero_page as int ==> content_of(log1, t->0 as usize) == content_of(log0, t->0 as usize)
    }
}

/// The user page at `v` of `pd` copies that of `m`: it maps `d` readable and writable,
/// where `d` is the page of zeros when `m` maps `v` to it, and otherwise a page in use of
/// `pa` that holds in `log1` what the page of `m` held in `log0`, when that is known.
pub open spec fn page_cloned(m: Memory, pd: PD, pa: PageAllocator, log0: Seq<(usize, Seq<u8>)>,
    log1: Seq<(usize, Seq<u8>)>, zero_page: usize, v: int, d: usize) -> bool {
    let s = m.pd().user_translate(v)->0;
    &&& pd.user_translate(v) == pte_target(PD::spec_pte(d, PageFlag { bits: 7 }))
    &&& s == zero_page as int ==> d == zero_page
    &&& s != zero_page as int ==> page_owned(pa, spec_phys_to_virt(d as int) as usize)
        && (content_of(log0, s as usize) is Some ==> content_of(log1, d) == content_of(log0, s as usize))
}

/// A page of an area that comes before another lies below it.
proof fn lemma_earlier_page_below(areas: Seq<Area>, i2: int, k2: int, i: int, k: int)
    requires
        areas_wf(areas),
        in_area(areas, i2, k2),
        in_area(areas, i, k),
        i2 < i || (i2 == i && k2 < k),
    ensures
        page_at(areas, i2, k2) < page_at(areas, i, k),
{
    if i2 < i {
        assert(areas[i2].end <= areas[i].start);
    }
}

/// Pages of page-aligned areas at different addresses have different directory and table
/// indices.
proof fn lemma_aligned_pages_apart(areas: Seq<Area>, i2: int, k2: int, i: int, k: int)
    requires
        areas_page_aligned(areas),
        in_area(areas, i2, k2),
        in_area(areas, i, k),
        page_at(areas, i2, k2) < page_at(areas, i, k),
        0 <= areas[i2].start,
    ensures
        index_of(page_at(areas, i2, k2)) != index_of(page_at(areas, i, k)),
{
    let a = page_at(areas, i2, k2);
    let b = page_at(areas, i, k);
    let sa = areas[i2].start as int;
    let sb = areas[i].start as int;
    assert(sa % 4096 == 0 && sb % 4096 == 0);
    assert(a % 4096 == 0) by (nonlinear_arith) requires a == sa + k2 * 4096, sa % 4096 == 0;
    assert(b % 4096 == 0) by (nonlinear_arith) requires b == sb + k * 4096, sb % 4096 == 0;
    assert(a / 4096 < b / 4096) by (nonlinear_arith) requires a < b, a % 4096 == 0, b % 4096 == 0, a >= 0;
    assert(a / 4096 == (a / 0x40_0000) * 1024 + (a % 0x40_0000) / 4096) by (nonlinear_arith) requires a >= 0;
    assert(b / 4096 == (b / 0x40_0000) * 1024 + (b % 0x40_0000) / 4096) by (nonlinear_arith) requires b >= 0;
}

/// An allocation of one page keeps the pages in use in use, and hands out a page that was
/// not in use.
proof fn lemma_owned_grows(p0: PageAllocator, p1: PageAllocator, a: usize)
    requires
        p0.wf(),
        p1.wf(),
        alloc_high_outcome(p0, p1, 0, Ok(a)),
    ensures
        forall|x: usize| page_owned(p0, x) ==> #[trigger] page_owned(p1, x),
        !page_owned(p0, a),
        page_owned(p1, a),
{
    assert forall|x: usize| page_owned(p0, x) implies #[trigger] page_owned(p1, x) by {
        lemma_fresh_page_apart(p0, p1, a, seq![x]);
        assert(seq![x][0] == x);
    }
    lemma_fresh_page_apart(p0, p1, a, Seq::empty());
    if page_owned(p0, a) {
        lemma_fresh_page_apart(p0, p1, a, seq![a]);
        assert(seq![a][0] == a);
    }
}

/// What `map_user` does to the page allocator keeps the pages in use in use.
proof fn lemma_map_keeps_owned(p0: PageAllocator, p1: PageAllocator)
    requires
        p1.high() == p0.high(),
        p1 == p0 || exists|pr: Result<usize, ()>| alloc_outcome(p0.normal(), p1.normal(), 0, pr),
    ensures
        forall|x: usize| page_owned(p0, x) ==> #[trigger] page_owned(p1, x),
{
    if p1 != p0 {
        let pr = choose|pr: Result<usize, ()>| alloc_outcome(p0.normal(), p1.normal(), 0, pr);
        lemma_alloc_keeps_used(p0.normal(), p1.normal(), 0, pr);
    }
}

/// Distinct pages from one start have distinct directory and table indices.
proof fn lemma_pages_apart(s: int, k: int, i: int)
    requires
        0 <= s,
        0 <= k < i,
    ensures
        index_of(s + k * PAGE_SIZE) != index_of(s + i * PAGE_SIZE),
{
    let a = s + k * 4096;
    let b = s + i * 4096;
    assert(a / 4096 < b / 4096) by (nonlinear_arith) requires a == s + k * 4096, b == s + i * 4096, k < i, s >= 0;
    assert(a / 4096 == (a / 0x40_0000) * 1024 + (a % 0x40_0000) / 4096) by (nonlinear_arith) requires a >= 0;
    assert(b / 4096 == (b / 0x40_0000) * 1024 + (b % 0x40_0000) / 4096) by (nonlinear_arith) requires b >= 0;
}

} // verus!
