use vstd::prelude::*;
use crate::constant::{MAX_RANK, PAGE_SIZE, VM_OFFSET};
use crate::buddy_math::{psize, lemma_psize, block_aligned};
use crate::util::usize_modulus;
use crate::vmemory::VMemory;
use crate::buddy_allocator::{BuddyAllocator, alloc_outcome, free_outcome, page_addr, page_index,
    block_frames, block_round_up, lemma_alloc_page_count};

verus! {

/// Zone to allocate pages from.
pub enum GFP {
    Normal,
    High,
}

/// Page allocator over two zones: the linear map (normal) and high memory.
///
/// A block of the normal zone has its linear-map address at or above `VM_OFFSET`; a block
/// of high memory below it, which is how a freed address finds its zone again.
pub struct PageAllocator {
    high: BuddyAllocator,
    normal: BuddyAllocator,
}

/// Every frame of `frames` has a linear-map address below `VM_OFFSET`.
pub open spec fn high_placed(frames: Set<int>) -> bool {
    forall|p: int| #[trigger] frames.contains(p) ==> page_addr(p) < VM_OFFSET
}

/// Every frame of `frames` sits in the linear map at `VM_OFFSET` plus its physical address,
/// with room for one more page below the top of the address space.
pub open spec fn normal_placed(frames: Set<int>) -> bool {
    forall|p: int| #[trigger] frames.contains(p) ==> p * PAGE_SIZE + VM_OFFSET + PAGE_SIZE <= usize::MAX
}

/// The linear-map address of a frame placed as in the normal zone.
pub proof fn lemma_normal_addr(p: int)
    requires
        0 <= p,
        p * PAGE_SIZE + VM_OFFSET + PAGE_SIZE <= usize::MAX,
    ensures
        page_addr(p) == p * PAGE_SIZE + VM_OFFSET,
{
    vstd::arithmetic::div_mod::lemma_small_mod((p * PAGE_SIZE) as nat, usize_modulus() as nat);
    vstd::arithmetic::div_mod::lemma_small_mod((p * PAGE_SIZE + VM_OFFSET) as nat, usize_modulus() as nat);
}

impl PageAllocator {
    /// The allocator of high memory.
    pub closed spec fn high(&self) -> BuddyAllocator {
        self.high
    }

    /// The allocator of the linear map.
    pub closed spec fn normal(&self) -> BuddyAllocator {
        self.normal
    }

    /// Number of free frames of the linear map.
    pub open spec fn normal_free_pages(&self) -> nat {
        self.normal().free_frames().len()
    }

    /// The free blocks of both zones are merged as far as they go.
    pub open spec fn merged(&self) -> bool {
        self.high().merged() && self.normal().merged()
    }

    /// Number of free frames of both zones.
    pub open spec fn free_pages(&self) -> nat {
        self.high().free_frames().len() + self.normal().free_frames().len()
    }

    pub open spec fn wf(&self) -> bool {
        &&& self.high().wf()
        &&& self.normal().wf()
        &&& high_placed(self.high().span())
        &&& normal_placed(self.normal().span())
    }

    /// A page allocator whose zones hold the blocks of the frame ranges that `vm` gives,
    /// each over a table of `table_len` frames.
    pub fn init(vm: &VMemory, table_len: usize) -> (pa: PageAllocator)
        requires
            vm.normal_pfn.start <= vm.normal_pfn.end,
            vm.high_pfn.start <= vm.high_pfn.end,
            block_round_up(vm.normal_pfn.end as int) <= table_len,
            block_round_up(vm.high_pfn.end as int) <= table_len,
            table_len * PAGE_SIZE <= usize_modulus(),
            high_placed(Set::new(|p: int| block_round_up(vm.high_pfn.start as int) <= p
                < block_round_up(vm.high_pfn.end as int))),
            normal_placed(Set::new(|p: int| block_round_up(vm.normal_pfn.start as int) <= p
                < block_round_up(vm.normal_pfn.end as int))),
        ensures
            pa.wf(),
            pa.normal().allocated() == Map::<int, int>::empty(),
            pa.high().allocated() == Map::<int, int>::empty(),
            pa.normal().free_frames() == Set::new(|p: int| block_round_up(vm.normal_pfn.start as int) <= p
                < block_round_up(vm.normal_pfn.end as int)),
            pa.high().free_frames() == Set::new(|p: int| block_round_up(vm.high_pfn.start as int) <= p
                < block_round_up(vm.high_pfn.end as int)),
            pa.merged(),
    {
        let normal = BuddyAllocator::construct_at(vm.normal_pfn.start, vm.normal_pfn.end, table_len);
        let high = BuddyAllocator::construct_at(vm.high_pfn.start, vm.high_pfn.end, table_len);
        PageAllocator { high, normal }
    }

    /// Allocates a block of `2^rank` pages: from high memory first when `flag` asks for it,
    /// else, or when high memory has no block, from the linear map.
    pub fn alloc_page(&mut self, rank: usize, flag: GFP) -> (r: Result<usize, ()>)
        requires
            old(self).wf(),
        ensures
            final(self).wf(),
            match flag {
                GFP::High => if old(self).high().can_serve(rank as int) {
                    &&& alloc_outcome(old(self).high(), final(self).high(), rank, r)
                    &&& final(self).normal() == old(self).normal()
                } else {
                    &&& final(self).high() == old(self).high()
                    &&& alloc_outcome(old(self).normal(), final(self).normal(), rank, r)
                },
                GFP::Normal => {
                    &&& final(self).high() == old(self).high()
                    &&& alloc_outcome(old(self).normal(), final(self).normal(), rank, r)
                },
            },
            rank == 0 && old(self).normal_free_pages() > 0 ==> r is Ok,
            rank == 0 && r is Ok ==> final(self).normal_free_pages() + 1 >= old(self).normal_free_pages(),
            rank == 0 && r is Err ==> final(self).normal_free_pages() == old(self).normal_free_pages(),
            rank == 0 && flag is High ==> (r is Ok <==> old(self).free_pages() > 0),
            rank == 0 && r is Ok ==> final(self).free_pages() + 1 == old(self).free_pages(),
            rank == 0 && r is Err ==> final(self).free_pages() == old(self).free_pages(),
            old(self).merged() ==> final(self).merged(),
    {
        proof {
            self.normal.lemma_free_frames_count();
            self.high.lemma_free_frames_count();
        }
        match flag {
            GFP::High => {
                let rh = self.high.alloc_page(rank);
                proof {
                    if rank == 0 {
                        lemma_alloc_page_count(old(self).high, self.high, rh);
                    }
                }
                match rh {
                    Ok(addr) => Ok(addr),
                    Err(_) => {
                        let ghost n0 = self.normal;
                        let rn = self.normal.alloc_page(rank);
                        proof {
                            if rank == 0 {
                                lemma_alloc_page_count(n0, self.normal, rn);
                            }
                        }
                        rn
                    },
                }
            },
            GFP::Normal => {
                let rn = self.normal.alloc_page(rank);
                proof {
                    if rank == 0 {
                        lemma_alloc_page_count(old(self).normal, self.normal, rn);
                    }
                }
                rn
            },
        }
    }

    /// Gives back the block at the linear-map address `page` to the zone that its address
    /// belongs to.
    pub fn free_page(&mut self, page: usize)
        requires
            old(self).wf(),
            page < VM_OFFSET ==> old(self).high().allocated().dom().contains(page_index(page as int)),
            page >= VM_OFFSET ==> old(self).normal().allocated().dom().contains(page_index(page as int)),
        ensures
            final(self).wf(),
            page < VM_OFFSET ==> free_outcome(old(self).high(), final(self).high(), page)
                && final(self).normal() == old(self).normal(),
            page >= VM_OFFSET ==> free_outcome(old(self).normal(), final(self).normal(), page)
                && final(self).high() == old(self).high(),
            old(self).merged() ==> final(self).merged(),
    {
        if page < VM_OFFSET {
            self.high.free_page(page);
        } else {
            self.normal.free_page(page);
        }
    }

    /// A block in use of either zone has its linear-map address on the side of `VM_OFFSET`
    /// that `free_page` sends back to that zone.
    pub proof fn lemma_block_zone(&self, idx: int)
        requires
            self.wf(),
        ensures
            self.high().allocated().dom().contains(idx) ==> page_addr(idx) < VM_OFFSET,
            self.normal().allocated().dom().contains(idx) ==> page_addr(idx) >= VM_OFFSET,
    {
        self.high().lemma_in_span();
        self.normal().lemma_in_span();
        if self.high().allocated().dom().contains(idx) {
            assert(block_frames(idx, self.high().allocated()[idx]).contains(idx));
            assert(self.high().span().contains(idx));
        }
        if self.normal().allocated().dom().contains(idx) {
            assert(block_frames(idx, self.normal().allocated()[idx]).contains(idx));
            assert(self.normal().span().contains(idx));
            lemma_normal_addr(idx);
        }
    }
}

/// A block that the normal zone hands out lies wholly below the top of the address space,
/// at its frame's linear-map address.
pub proof fn lemma_normal_block_fits(a: BuddyAllocator, b: BuddyAllocator, rank: usize, addr: usize)
    requires
        a.wf(),
        normal_placed(a.span()),
        alloc_outcome(a, b, rank, Ok(addr)),
    ensures
        addr + psize(rank as int) * PAGE_SIZE <= usize::MAX,
        addr % PAGE_SIZE == 0,
{
    let k = choose|k: int| rank <= k <= MAX_RANK && {
        let idx = (#[trigger] a.lists()[k]).last() as int;
        &&& a.lists()[k].len() > 0
        &&& forall|j: int| rank <= j < k ==> #[trigger] a.lists()[j].len() == 0
        &&& addr == page_addr(idx)
        &&& page_index(addr as int) == idx
        &&& block_aligned(idx, rank as int)
        &&& block_frames(idx, rank as int).subset_of(a.free_frames())
        &&& b.allocated() == a.allocated().insert(idx, rank as int)
        &&& b.free_frames() == a.free_frames().difference(block_frames(idx, rank as int))
    };
    let idx = a.lists()[k].last() as int;
    a.lemma_in_span();
    lemma_psize(rank as int);
    let last = idx + psize(rank as int) - 1;
    assert(block_frames(idx, rank as int).contains(idx));
    assert(block_frames(idx, rank as int).contains(last));
    assert(a.span().contains(idx));
    assert(a.span().contains(last));
    lemma_normal_addr(idx);
}

/// The page at the linear-map address `a` is a block in use of the zone that `free_page`
/// sends `a` back to.
pub open spec fn page_owned(pa: PageAllocator, a: usize) -> bool {
    &&& a < VM_OFFSET ==> pa.high().allocated().dom().contains(page_index(a as int))
    &&& a >= VM_OFFSET ==> pa.normal().allocated().dom().contains(page_index(a as int))
}

/// An allocation keeps every block that was in use in use.
pub proof fn lemma_alloc_keeps_used(a: BuddyAllocator, b: BuddyAllocator, rank: usize, r: Result<usize, ()>)
    requires
        alloc_outcome(a, b, rank, r),
    ensures
        a.allocated().dom().subset_of(b.allocated().dom()),
{
}

/// A page that an allocation of one page hands out is owned by the allocator that made it.
pub proof fn lemma_fresh_page_owned(p0: PageAllocator, p1: PageAllocator, flag: GFP, a: usize)
    requires
        p1.wf(),
        match flag {
            GFP::High => if p0.high().can_serve(0) {
                alloc_outcome(p0.high(), p1.high(), 0, Ok(a))
            } else {
                alloc_outcome(p0.normal(), p1.normal(), 0, Ok(a))
            },
            GFP::Normal => alloc_outcome(p0.normal(), p1.normal(), 0, Ok(a)),
        },
    ensures
        page_owned(p1, a),
{
    let from_high = flag is High && p0.high().can_serve(0);
    let (z0, z1) = if from_high { (p0.high(), p1.high()) } else { (p0.normal(), p1.normal()) };
    let k = choose|k: int| 0 <= k <= MAX_RANK && {
        let idx = (#[trigger] z0.lists()[k]).last() as int;
        &&& z0.lists()[k].len() > 0
        &&& forall|j: int| 0 <= j < k ==> #[trigger] z0.lists()[j].len() == 0
        &&& a == page_addr(idx)
        &&& page_index(a as int) == idx
        &&& block_aligned(idx, 0)
        &&& block_frames(idx, 0).subset_of(z0.free_frames())
        &&& z1.allocated() == z0.allocated().insert(idx, 0)
        &&& z1.free_frames() == z0.free_frames().difference(block_frames(idx, 0))
    };
    let idx = z0.lists()[k].last() as int;
    p1.lemma_block_zone(idx);
}

/// What `alloc_page` with `GFP::High` leaves in `p1` from `p0` and returns in `r`.
pub open spec fn alloc_high_outcome(p0: PageAllocator, p1: PageAllocator, rank: usize, r: Result<usize, ()>) -> bool {
    if p0.high().can_serve(rank as int) {
        alloc_outcome(p0.high(), p1.high(), rank, r) && p1.normal() == p0.normal()
    } else {
        p1.high() == p0.high() && alloc_outcome(p0.normal(), p1.normal(), rank, r)
    }
}

/// The linear-map address of a frame is page aligned.
pub proof fn lemma_page_addr_aligned(idx: int)
    requires
        0 <= idx,
    ensures
        page_addr(idx) % PAGE_SIZE as int == 0,
{
    let m = crate::util::usize_modulus();
    crate::util::lemma_modulus_is_pow2();
    vstd::arithmetic::power2::lemma2_to64();
    vstd::arithmetic::power2::lemma2_to64_rest();
    assert(m == 4096 * (m / 4096));
    vstd::arithmetic::div_mod::lemma_mod_mod(idx * 4096, 4096, m / 4096);
    vstd::arithmetic::div_mod::lemma_mod_multiples_basic(idx, 4096);
    let x = (idx * 4096) % m;
    vstd::arithmetic::div_mod::lemma_mod_mod(x + VM_OFFSET, 4096, m / 4096);
    assert((x + VM_OFFSET) % 4096 == 0) by (nonlinear_arith)
        requires x % 4096 == 0, VM_OFFSET % 4096 == 0;
}

/// A page handed out by an allocation of one page is owned afterwards, page aligned, and
/// none of the pages owned before; the pages owned before stay owned.
pub proof fn lemma_fresh_page_apart(p0: PageAllocator, p1: PageAllocator, a: usize, owned: Seq<usize>)
    requires
        p0.wf(),
        p1.wf(),
        alloc_high_outcome(p0, p1, 0, Ok(a)),
        forall|k: int| 0 <= k < owned.len() ==> page_owned(p0, #[trigger] owned[k]),
    ensures
        page_owned(p1, a),
        a % PAGE_SIZE == 0,
        forall|k: int| 0 <= k < owned.len() ==> page_owned(p1, #[trigger] owned[k]) && owned[k] != a,
{
    let from_high = p0.high().can_serve(0);
    let (z0, z1) = if from_high { (p0.high(), p1.high()) } else { (p0.normal(), p1.normal()) };
    let k = choose|k: int| 0 <= k <= MAX_RANK && {
        let idx = (#[trigger] z0.lists()[k]).last() as int;
        &&& z0.lists()[k].len() > 0
        &&& forall|j: int| 0 <= j < k ==> #[trigger] z0.lists()[j].len() == 0
        &&& a == page_addr(idx)
        &&& page_index(a as int) == idx
        &&& block_aligned(idx, 0)
        &&& block_frames(idx, 0).subset_of(z0.free_frames())
        &&& z1.allocated() == z0.allocated().insert(idx, 0)
        &&& z1.free_frames() == z0.free_frames().difference(block_frames(idx, 0))
    };
    let idx = z0.lists()[k].last() as int;
    p1.lemma_block_zone(idx);
    lemma_psize(0);
    assert(block_frames(idx, 0).contains(idx));
    z0.lemma_in_span();
    assert(idx >= 0);
    lemma_page_addr_aligned(idx);
    if z0.allocated().dom().contains(idx) {
        z0.lemma_allocated_not_free(idx);
        assert(block_frames(idx, z0.allocated()[idx]).contains(idx));
    }
    assert(page_owned(p1, a));
    assert forall|j: int| 0 <= j < owned.len() implies page_owned(p1, #[trigger] owned[j]) && owned[j] != a by {
        let o = owned[j];
        assert(page_owned(p0, o));
        if (o < VM_OFFSET) == from_high {
            assert(z0.allocated().dom().contains(page_index(o as int)));
        }
    }
}

} // verus!
