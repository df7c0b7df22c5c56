use vstd::prelude::*;
use vstd::arithmetic::power2::pow2;
use crate::constant::MAX_RANK;
use crate::util::{bit_scan_reverse, bit_len, lemma_bit_len_bound, lemma_bit_len_above, lemma_bit_len_at_least};
use crate::cache::{FreeNode, covered};
use crate::cache::{insert_seq, Error};
use crate::constant::VM_OFFSET;
use crate::size_cache::{SizeCache, carve_outcome};
use crate::page_allocator::{PageAllocator, GFP as Zone, page_owned};
use crate::buddy_allocator::{alloc_outcome, free_outcome, page_addr, page_index, block_frames,
    lemma_free_undoes_alloc};
use crate::buddy_math::{block_aligned, lemma_psize};

verus! {

/// Level of the smallest requests: 64 bytes.
pub const LEVEL_MIN: usize = 6;
/// First level served by whole blocks of pages.
pub const LEVEL_END: usize = 12;
/// Number of cache levels.
pub const LEVEL_RNG: usize = 6;

/// Pool to allocate from.
#[derive(Clone, Copy, Debug, PartialEq, Eq, Structural)]
pub enum GFP {
    Atomic,
    Normal,
}

/// Level of a request of `size` bytes aligned to `align`: the number of binary digits of
/// the larger of the two less one, at least `LEVEL_MIN`.
pub open spec fn spec_level(size: usize, align: usize) -> usize {
    if size <= 1 && align == 1 {
        LEVEL_MIN
    } else {
        let rank = if size > align { bit_len((size - 1) as nat) } else { bit_len((align - 1) as nat) };
        if rank < LEVEL_MIN { LEVEL_MIN } else { rank as usize }
    }
}

/// Level of a request of `size` bytes aligned to `align`.
pub fn level_of(size: usize, align: usize) -> (l: usize)
    requires
        align >= 1,
    ensures
        l == spec_level(size, align),
        LEVEL_MIN <= l <= usize::BITS,
{
    proof {
        if size > 0 { lemma_bit_len_bound((size - 1) as usize); }
        lemma_bit_len_bound((align - 1) as usize);
    }
    if size <= 1 && align == 1 {
        return LEVEL_MIN;
    }
    let rank = if size > align { bit_scan_reverse(size - 1) + 1 } else { bit_scan_reverse(align - 1) + 1 };
    if rank < LEVEL_MIN { LEVEL_MIN } else { rank }
}

/// Allocator of kernel memory: requests below a page go to caches of slots of 64 to
/// 2048 bytes, larger ones to whole blocks of the page allocator, counted by rank.
pub struct MemoryAllocator {
    c64: SizeCache<64>,
    c128: SizeCache<128>,
    c256: SizeCache<256>,
    c512: SizeCache<512>,
    c1024: SizeCache<1024>,
    c2048: SizeCache<2048>,
    rank_count: Vec<usize>,
}

/// Statistics of a memory allocator: pages taken by each cache, and blocks in use of each
/// rank.
#[derive(Debug, PartialEq, Eq)]
pub struct MemoryAllocatorStat {
    pub cache_stat: Vec<usize>,
    pub rank_stat: Vec<usize>,
}

impl MemoryAllocatorStat {
    pub fn hand_made(cache_stat: Vec<usize>, rank_count: Vec<usize>) -> (s: MemoryAllocatorStat)
        ensures
            s.cache_stat@ == cache_stat@,
            s.rank_stat@ == rank_count@,
    {
        MemoryAllocatorStat { cache_stat, rank_stat: rank_count }
    }
}

impl MemoryAllocator {
    /// Blocks in use of each rank.
    pub closed spec fn ranks(&self) -> Seq<usize> {
        self.rank_count@
    }

    /// Free chunks of the cache of `level`.
    pub closed spec fn cache_free(&self, level: int) -> Seq<FreeNode> {
        if level == 6 {
            self.c64.free()
        } else if level == 7 {
            self.c128.free()
        } else if level == 8 {
            self.c256.free()
        } else if level == 9 {
            self.c512.free()
        } else if level == 10 {
            self.c1024.free()
        } else if level == 11 {
            self.c2048.free()
        } else {
            Seq::empty()
        }
    }

    /// Pages taken by the cache of `level`.
    pub closed spec fn cache_pages(&self, level: int) -> usize {
        if level == 6 {
            self.c64.pages()
        } else if level == 7 {
            self.c128.pages()
        } else if level == 8 {
            self.c256.pages()
        } else if level == 9 {
            self.c512.pages()
        } else if level == 10 {
            self.c1024.pages()
        } else if level == 11 {
            self.c2048.pages()
        } else {
            0
        }
    }

    pub closed spec fn wf(&self) -> bool {
        &&& self.c64.wf()
        &&& self.c128.wf()
        &&& self.c256.wf()
        &&& self.c512.wf()
        &&& self.c1024.wf()
        &&& self.c2048.wf()
        &&& self.rank_count@.len() == MAX_RANK + 1
    }

    pub fn new() -> (m: MemoryAllocator)
        ensures
            m.wf(),
            m.ranks() == Seq::new((MAX_RANK + 1) as nat, |i: int| 0usize),
            forall|l: int| LEVEL_MIN <= l < LEVEL_END ==> m.cache_free(l) == Seq::<FreeNode>::empty()
                && m.cache_pages(l) == 0,
    {
        let mut rank_count: Vec<usize> = Vec::new();
        let mut i: usize = 0;
        while i <= MAX_RANK
            invariant
                i <= MAX_RANK + 1,
                rank_count@ == Seq::new(i as nat, |k: int| 0usize),
            decreases MAX_RANK + 1 - i,
        {
            rank_count.push(0);
            i = i + 1;
            assert(rank_count@ =~= Seq::new(i as nat, |k: int| 0usize));
        }
        MemoryAllocator {
            c64: SizeCache::new(),
            c128: SizeCache::new(),
            c256: SizeCache::new(),
            c512: SizeCache::new(),
            c1024: SizeCache::new(),
            c2048: SizeCache::new(),
            rank_count,
        }
    }

    /// Pages taken by each cache, and blocks in use of each rank.
    pub fn statistic(&self) -> (s: MemoryAllocatorStat)
        requires
            self.wf(),
        ensures
            s.cache_stat@ == Seq::new(LEVEL_RNG as nat, |i: int| self.cache_pages(LEVEL_MIN + i)),
            s.rank_stat@ == self.ranks(),
    {
        let mut cache_stat: Vec<usize> = Vec::new();
        cache_stat.push(self.c64.page_count());
        cache_stat.push(self.c128.page_count());
        cache_stat.push(self.c256.page_count());
        cache_stat.push(self.c512.page_count());
        cache_stat.push(self.c1024.page_count());
        cache_stat.push(self.c2048.page_count());
        assert(cache_stat@ =~= Seq::new(LEVEL_RNG as nat, |i: int| self.cache_pages(LEVEL_MIN + i)));
        let mut rank_stat: Vec<usize> = Vec::new();
        let mut i: usize = 0;
        while i <= MAX_RANK
            invariant
                self.wf(),
                i <= MAX_RANK + 1,
                rank_stat@ == self.rank_count@.subrange(0, i as int),
            decreases MAX_RANK + 1 - i,
        {
            rank_stat.push(self.rank_count[i]);
            i = i + 1;
            assert(rank_stat@ =~= self.rank_count@.subrange(0, i as int));
        }
        assert(rank_stat@ =~= self.rank_count@);
        MemoryAllocatorStat { cache_stat, rank_stat }
    }

    /// Allocates `size` bytes aligned to `align`: from the cache of the request's level
    /// below `LEVEL_END`, else as a block of the page allocator's linear map of rank
    /// `level - LEVEL_END`, counted under that rank whether or not the block comes.
    pub fn allocate(&mut self, size: usize, align: usize, pa: &mut PageAllocator) -> (r: Result<usize, ()>)
        requires
            old(self).wf(),
            old(pa).wf(),
            can_allocate(*old(self), size, align),
        ensures
            final(self).wf(),
            final(pa).wf(),
            allocate_outcome(*old(self), *final(self), *old(pa), *final(pa), size, align, r),
            old(pa).merged() ==> final(pa).merged(),
    {
        let level = level_of(size, align);
        if level < LEVEL_END {
            proof { lemma_pow2_levels(); }
            let res = if level == 6 {
                assert(SizeCache::<64>::slot() == 64 && SizeCache::<64>::slot_pages() == 1);
                let r = self.c64.allocate(pa);
                r
            } else if level == 7 {
                assert(SizeCache::<128>::slot() == 128 && SizeCache::<128>::slot_pages() == 1);
                let r = self.c128.allocate(pa);
                r
            } else if level == 8 {
                assert(SizeCache::<256>::slot() == 256 && SizeCache::<256>::slot_pages() == 1);
                let r = self.c256.allocate(pa);
                r
            } else if level == 9 {
                assert(SizeCache::<512>::slot() == 512 && SizeCache::<512>::slot_pages() == 1);
                let r = self.c512.allocate(pa);
                r
            } else if level == 10 {
                assert(SizeCache::<1024>::slot() == 1024 && SizeCache::<1024>::slot_pages() == 1);
                let r = self.c1024.allocate(pa);
                r
            } else {
                assert(SizeCache::<2048>::slot() == 2048 && SizeCache::<2048>::slot_pages() == 1);
                let r = self.c2048.allocate(pa);
                r
            };
            match res {
                Ok(a) => Ok(a),
                Err(_) => Err(()),
            }
        } else {
            let rank = level - LEVEL_END;
            let c = self.rank_count[rank];
            self.rank_count.set(rank, c + 1);
            pa.alloc_page(rank, Zone::Normal)
        }
    }

    /// Takes back what an allocation of `size` bytes aligned to `align` gave at `ptr`.
    pub fn deallocate(&mut self, ptr: usize, size: usize, align: usize, pa: &mut PageAllocator)
        requires
            old(self).wf(),
            old(pa).wf(),
            can_deallocate(*old(self), *old(pa), ptr, size, align),
        ensures
            final(self).wf(),
            final(pa).wf(),
            deallocate_outcome(*old(self), *final(self), *old(pa), *final(pa), ptr, size, align),
            old(pa).merged() ==> final(pa).merged(),
    {
        let level = level_of(size, align);
        if level < LEVEL_END {
            proof { lemma_pow2_levels(); }
            if level == 6 {
                assert(SizeCache::<64>::slot() == 64);
                self.c64.dealloc(ptr);
            } else if level == 7 {
                assert(SizeCache::<128>::slot() == 128);
                self.c128.dealloc(ptr);
            } else if level == 8 {
                assert(SizeCache::<256>::slot() == 256);
                self.c256.dealloc(ptr);
            } else if level == 9 {
                assert(SizeCache::<512>::slot() == 512);
                self.c512.dealloc(ptr);
            } else if level == 10 {
                assert(SizeCache::<1024>::slot() == 1024);
                self.c1024.dealloc(ptr);
            } else {
                assert(SizeCache::<2048>::slot() == 2048);
                self.c2048.dealloc(ptr);
            }
        } else {
            let rank = level - LEVEL_END;
            let c = self.rank_count[rank];
            self.rank_count.set(rank, c - 1);
            pa.free_page(ptr);
        }
    }
}

/// Allocates `size` bytes aligned to `align` from the allocator that `flag` names; the
/// other one is left as it was.
pub fn kmalloc(
    size: usize, align: usize, flag: GFP,
    atomic: &mut MemoryAllocator, normal: &mut MemoryAllocator, pa: &mut PageAllocator,
) -> (r: Result<usize, ()>)
    requires
        old(atomic).wf(),
        old(normal).wf(),
        old(pa).wf(),
        flag == GFP::Atomic ==> can_allocate(*old(atomic), size, align),
        flag == GFP::Normal ==> can_allocate(*old(normal), size, align),
    ensures
        final(atomic).wf(),
        final(normal).wf(),
        final(pa).wf(),
        flag == GFP::Atomic ==> allocate_outcome(*old(atomic), *final(atomic), *old(pa), *final(pa), size, align, r)
            && *final(normal) == *old(normal),
        flag == GFP::Normal ==> allocate_outcome(*old(normal), *final(normal), *old(pa), *final(pa), size, align, r)
            && *final(atomic) == *old(atomic),
        old(pa).merged() ==> final(pa).merged(),
{
    match flag {
        GFP::Atomic => atomic.allocate(size, align, pa),
        GFP::Normal => normal.allocate(size, align, pa),
    }
}

/// Gives back to the allocator that `flag` names what it allocated at `ptr` for `size`
/// bytes aligned to `align`; the other one is left as it was.
pub fn kfree(
    ptr: usize, size: usize, align: usize, flag: GFP,
    atomic: &mut MemoryAllocator, normal: &mut MemoryAllocator, pa: &mut PageAllocator,
)
    requires
        old(atomic).wf(),
        old(normal).wf(),
        old(pa).wf(),
        flag == GFP::Atomic ==> can_deallocate(*old(atomic), *old(pa), ptr, size, align),
        flag == GFP::Normal ==> can_deallocate(*old(normal), *old(pa), ptr, size, align),
    ensures
        final(atomic).wf(),
        final(normal).wf(),
        final(pa).wf(),
        flag == GFP::Atomic ==> deallocate_outcome(*old(atomic), *final(atomic), *old(pa), *final(pa), ptr, size, align)
            && *final(normal) == *old(normal),
        flag == GFP::Normal ==> deallocate_outcome(*old(normal), *final(normal), *old(pa), *final(pa), ptr, size, align)
            && *final(atomic) == *old(atomic),
        old(pa).merged() ==> final(pa).merged(),
{
    match flag {
        GFP::Atomic => atomic.deallocate(ptr, size, align, pa),
        GFP::Normal => normal.deallocate(ptr, size, align, pa),
    }
}

/// Giving back the block that an allocation of `size` bytes aligned to `align` handed out,
/// for a request of `LEVEL_END` or more, restores the counter of every rank, and the blocks
/// in use and the free frames of the page allocator.
pub proof fn lemma_deallocate_undoes_allocate(
    m0: MemoryAllocator, m1: MemoryAllocator, m2: MemoryAllocator,
    p0: PageAllocator, p1: PageAllocator, p2: PageAllocator,
    size: usize, align: usize, a: usize,
)
    requires
        m0.wf(),
        p0.wf(),
        p1.wf(),
        can_allocate(m0, size, align),
        spec_level(size, align) >= LEVEL_END,
        allocate_outcome(m0, m1, p0, p1, size, align, Ok(a)),
        deallocate_outcome(m1, m2, p1, p2, a, size, align),
    ensures
        m2.ranks() == m0.ranks(),
        p2.high() == p0.high(),
        p2.normal().allocated() == p0.normal().allocated(),
        p2.normal().free_frames() == p0.normal().free_frames(),
{
    let l = spec_level(size, align) as int;
    let rank = (l - LEVEL_END) as usize;
    let z0 = p0.normal();
    let z1 = p1.normal();
    let k = choose|k: int| rank <= k <= MAX_RANK && {
        let idx = (#[trigger] z0.lists()[k]).last() as int;
        &&& z0.lists()[k].len() > 0
        &&& forall|j: int| rank <= j < k ==> #[trigger] z0.lists()[j].len() == 0
        &&& a == page_addr(idx)
        &&& page_index(a as int) == idx
        &&& block_aligned(idx, rank as int)
        &&& block_frames(idx, rank as int).subset_of(z0.free_frames())
        &&& z1.allocated() == z0.allocated().insert(idx, rank as int)
        &&& z1.free_frames() == z0.free_frames().difference(block_frames(idx, rank as int))
    };
    let idx = z0.lists()[k].last() as int;
    z0.lemma_in_span();
    assert(z0.span().contains(idx)) by {
        lemma_psize(rank as int);
        assert(block_frames(idx, rank as int).contains(idx));
    }
    p1.lemma_block_zone(idx);
    lemma_free_undoes_alloc(&z0, &z1, &p2.normal(), idx, rank as int);
    assert(m2.ranks() =~= m0.ranks());
}

/// What `allocate` needs: a known alignment, a level that the page allocator serves, and
/// room in the counter that the request moves.
pub open spec fn can_allocate(m: MemoryAllocator, size: usize, align: usize) -> bool {
    let l = spec_level(size, align) as int;
    &&& align >= 1
    &&& l <= LEVEL_END + MAX_RANK
    &&& l >= LEVEL_END ==> m.ranks()[l - LEVEL_END] < usize::MAX
    &&& l < LEVEL_END ==> m.cache_pages(l) + 1 <= usize::MAX
}

/// The caches of every level but `l` are as they were.
pub open spec fn caches_kept(m0: MemoryAllocator, m1: MemoryAllocator, l: int) -> bool {
    forall|k: int| LEVEL_MIN <= k < LEVEL_END && k != l ==> m1.cache_free(k) == m0.cache_free(k)
        && m1.cache_pages(k) == m0.cache_pages(k)
}

/// What an allocation of `size` bytes aligned to `align` does: below `LEVEL_END` the
/// cache of its level carves a slot of `2^level` bytes, taking one page when no free chunk
/// holds one; from `LEVEL_END` on the counter of rank `level - LEVEL_END` goes up by one
/// and the normal zone of the page allocator is asked for a block of that rank.
pub open spec fn allocate_outcome(
    m0: MemoryAllocator, m1: MemoryAllocator, p0: PageAllocator, p1: PageAllocator,
    size: usize, align: usize, r: Result<usize, ()>,
) -> bool {
    let l = spec_level(size, align) as int;
    if l < LEVEL_END {
        &&& carve_outcome(m0.cache_free(l), m1.cache_free(l), m0.cache_pages(l), m1.cache_pages(l),
            p0, p1, pow2_of(l), 1,
            match r { Ok(a) => Ok::<usize, Error>(a), Err(_) => Err::<usize, Error>(Error::Alloc) })
        &&& caches_kept(m0, m1, l)
        &&& m1.ranks() == m0.ranks()
    } else {
        &&& m1.ranks() == m0.ranks().update(l - LEVEL_END, (m0.ranks()[l - LEVEL_END] + 1) as usize)
        &&& caches_kept(m0, m1, -1)
        &&& p1.high() == p0.high()
        &&& alloc_outcome(p0.normal(), p1.normal(), (l - LEVEL_END) as usize, r)
    }
}

/// What `deallocate` needs: the request's level is served; below `LEVEL_END` the slot
/// fits the address space and is not free already; from `LEVEL_END` on a block of that
/// rank is counted and `ptr` is a block in use of the page allocator.
pub open spec fn can_deallocate(m: MemoryAllocator, p: PageAllocator, ptr: usize, size: usize, align: usize) -> bool {
    let l = spec_level(size, align) as int;
    &&& align >= 1
    &&& l <= LEVEL_END + MAX_RANK
    &&& l < LEVEL_END ==> ptr + pow2_of(l) <= usize::MAX && !covered(m.cache_free(l)).contains(ptr as int)
    &&& l >= LEVEL_END ==> m.ranks()[l - LEVEL_END] > 0 && page_owned(p, ptr)
}

/// What a deallocation does: below `LEVEL_END` the slot goes back to the free chunks of
/// its level's cache; from `LEVEL_END` on the counter of the rank goes down by one and the
/// block goes back to the zone that holds it.
pub open spec fn deallocate_outcome(
    m0: MemoryAllocator, m1: MemoryAllocator, p0: PageAllocator, p1: PageAllocator,
    ptr: usize, size: usize, align: usize,
) -> bool {
    let l = spec_level(size, align) as int;
    if l < LEVEL_END {
        &&& m1.cache_free(l) == insert_seq(m0.cache_free(l), FreeNode { addr: ptr, bytes: pow2_of(l) as usize })
        &&& m1.cache_pages(l) == m0.cache_pages(l)
        &&& caches_kept(m0, m1, l)
        &&& m1.ranks() == m0.ranks()
        &&& p1 == p0
    } else {
        &&& m1.ranks() == m0.ranks().update(l - LEVEL_END, (m0.ranks()[l - LEVEL_END] - 1) as usize)
        &&& caches_kept(m0, m1, -1)
        &&& ptr < VM_OFFSET ==> free_outcome(p0.high(), p1.high(), ptr) && p1.normal() == p0.normal()
        &&& ptr >= VM_OFFSET ==> free_outcome(p0.normal(), p1.normal(), ptr) && p1.high() == p0.high()
    }
}

/// `2^l` for the cache levels.
pub open spec fn pow2_of(l: int) -> int {
    vstd::arithmetic::power2::pow2(l as nat) as int
}

proof fn lemma_pow2_levels()
    ensures
        pow2_of(6) == 64,
        pow2_of(7) == 128,
        pow2_of(8) == 256,
        pow2_of(9) == 512,
        pow2_of(10) == 1024,
        pow2_of(11) == 2048,
{
    vstd::arithmetic::power2::lemma2_to64();
}


/// The level of a request is the least level, and none below `LEVEL_MIN`, whose blocks of
/// `2^level` bytes hold `size` bytes and are at least `align` bytes: so a block of the
/// level, which starts on a multiple of its size, also starts on a multiple of any
/// power-of-two `align`.
pub proof fn lemma_level_fits_request(size: usize, align: usize)
    requires
        align >= 1,
    ensures
        LEVEL_MIN <= spec_level(size, align),
        size <= pow2(spec_level(size, align) as nat),
        align <= pow2(spec_level(size, align) as nat),
        spec_level(size, align) > LEVEL_MIN ==> pow2((spec_level(size, align) - 1) as nat) < size
            || pow2((spec_level(size, align) - 1) as nat) < align,
{
    let l = spec_level(size, align);
    vstd::arithmetic::power2::lemma2_to64();
    if size > 0 {
        lemma_bit_len_above((size - 1) as nat);
        lemma_bit_len_bound((size - 1) as usize);
    }
    lemma_bit_len_above((align - 1) as nat);
    lemma_bit_len_bound((align - 1) as usize);
    let bs = bit_len((size - 1) as nat);
    let ba = bit_len((align - 1) as nat);
    if size > 1 {
        lemma_bit_len_at_least((size - 1) as nat);
    }
    if align > 1 {
        lemma_bit_len_at_least((align - 1) as nat);
    }
    if !(size <= 1 && align == 1) {
        if size > align {
            assert(size > 1);
            if bs < LEVEL_MIN {
                vstd::arithmetic::power2::lemma_pow2_strictly_increases(bs, LEVEL_MIN as nat);
                if ba < LEVEL_MIN {
                    vstd::arithmetic::power2::lemma_pow2_strictly_increases(ba, LEVEL_MIN as nat);
                }
            }
        } else {
            if ba >= LEVEL_MIN {
                if size > 0 && bs < ba {
                    vstd::arithmetic::power2::lemma_pow2_strictly_increases(bs, ba);
                }
            } else {
                vstd::arithmetic::power2::lemma_pow2_strictly_increases(ba, LEVEL_MIN as nat);
            }
        }
    }
    assert(l >= LEVEL_MIN);
}

} // verus!
