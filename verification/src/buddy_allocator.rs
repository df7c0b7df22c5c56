use vstd::prelude::*;
use crate::constant::{MAX_RANK, PAGE_SIZE, VM_OFFSET};
use crate::meta_page::{MetaPage, MetaPageTable, links_wf};
use crate::util::{rank_to_pages, addr_to_pfn, pfn_to_addr, phys_to_virt, virt_to_phys,
    spec_phys_to_virt, spec_virt_to_phys, usize_modulus};
use crate::buddy_math::{psize, in_block, block_aligned, buddy_of, lemma_psize, lemma_psize_small, lemma_buddy_involution,
    lemma_aligned_same, lemma_nested, lemma_buddy, lemma_round_down, lemma_aligned_lower, lemma_buddy_in_range};

verus! {

/// Linear-map address of the first byte of frame `idx`.
pub open spec fn page_addr(idx: int) -> int {
    spec_phys_to_virt((idx * PAGE_SIZE) % usize_modulus())
}

/// Frame index of the linear-map address `ptr`.
pub open spec fn page_index(ptr: int) -> int {
    spec_virt_to_phys(ptr) / PAGE_SIZE as int
}

/// Some block holds frame `p`.
pub open spec fn covered(b: Map<int, int>, p: int) -> bool {
    exists|h: int| #[trigger] b.dom().contains(h) && in_block(h, b[h], p)
}

/// `x` rounded up to a whole block of the largest rank.
pub open spec fn block_round_up(x: int) -> int {
    (x + 1023) / 1024 * 1024
}

/// The frames of the block of rank `r` at `h`.
pub open spec fn block_frames(h: int, r: int) -> Set<int> {
    Set::new(|p: int| in_block(h, r, p))
}

/// The linear-map address of a frame below the top of the address space leads back to
/// that frame.
pub proof fn lemma_page_index_of_addr(idx: int)
    requires
        0 <= idx,
        idx * PAGE_SIZE < usize_modulus(),
    ensures
        page_index(page_addr(idx)) == idx,
{
    let m = usize_modulus();
    let x = idx * 4096;
    vstd::layout::unsigned_int_max_values();
    vstd::arithmetic::div_mod::lemma_small_mod(x as nat, m as nat);
    assert(VM_OFFSET < m);
    let y = (x + VM_OFFSET) % m;
    if x + VM_OFFSET < m {
        vstd::arithmetic::div_mod::lemma_small_mod((x + VM_OFFSET) as nat, m as nat);
        assert(y - VM_OFFSET == x);
    } else {
        vstd::arithmetic::div_mod::lemma_mod_sub_multiples_vanish(x + VM_OFFSET, m);
        vstd::arithmetic::div_mod::lemma_small_mod((x + VM_OFFSET - m) as nat, m as nat);
        assert(y == x + VM_OFFSET - m);
        vstd::arithmetic::div_mod::lemma_mod_sub_multiples_vanish(x, m);
        assert(y - VM_OFFSET == -m + x);
    }
    assert(spec_virt_to_phys(y) == x);
    assert(x / 4096 == idx) by (nonlinear_arith) requires x == idx * 4096;
}

/// What an allocation of rank `req_rank` from `a` leaves in `b` and returns in `r`: the
/// last block of the smallest nonempty free list of rank at least `req_rank`, split down to
/// `req_rank`, is in use, and `r` holds the linear-map address of its first frame; with
/// no such list, nothing changes and `r` is an error.
pub open spec fn alloc_outcome(a: BuddyAllocator, b: BuddyAllocator, req_rank: usize, r: Result<usize, ()>) -> bool {
    &&& b.span() == a.span()
    &&& (r is Ok <==> a.can_serve(req_rank as int))
    &&& match r {
        Ok(addr) => exists|rank: int| req_rank <= rank <= MAX_RANK && {
            let idx = (#[trigger] a.lists()[rank]).last() as int;
            &&& a.lists()[rank].len() > 0
            &&& forall|k: int| req_rank <= k < rank ==> #[trigger] a.lists()[k].len() == 0
            &&& addr == page_addr(idx)
            &&& page_index(addr as int) == idx
            &&& block_aligned(idx, req_rank as int)
            &&& block_frames(idx, req_rank as int).subset_of(a.free_frames())
            &&& b.allocated() == a.allocated().insert(idx, req_rank as int)
            &&& b.free_frames() == a.free_frames().difference(block_frames(idx, req_rank as int))
            &&& b.lists().len() == a.lists().len()
            &&& forall|k: int| 0 <= k <= MAX_RANK ==> #[trigger] b.lists()[k] == if k == rank {
                a.lists()[rank].drop_last()
            } else if req_rank <= k < rank {
                a.lists()[k].push((idx + psize(k)) as usize)
            } else {
                a.lists()[k]
            }
        },
        Err(_) => {
            &&& forall|k: int| req_rank <= k <= MAX_RANK ==> #[trigger] a.lists()[k].len() == 0
            &&& b.allocated() == a.allocated()
            &&& b.free_frames() == a.free_frames()
            &&& b.lists() == a.lists()
        },
    }
}

/// What giving back the block at the linear-map address `ptr` of `a` leaves in `b`: the
/// block is no longer in use and all its frames are free.
pub open spec fn free_outcome(a: BuddyAllocator, b: BuddyAllocator, ptr: usize) -> bool {
    let idx = page_index(ptr as int);
    &&& b.span() == a.span()
    &&& b.allocated() == a.allocated().remove(idx)
    &&& b.free_frames() == a.free_frames().union(block_frames(idx, a.allocated()[idx]))
}

/// Buddy page allocator over a table of page metadata.
///
/// The managed frames `[base, top)` are split into blocks of `2^rank` frames, each on a
/// multiple of its size. A block is free or in use; free blocks of each rank are kept
/// in a list. A block in use is split down to the requested rank on allocation, and a
/// block given back is merged with its buddy for as long as the buddy is free too.
pub struct BuddyAllocator {
    table: MetaPageTable,
    free_list: Vec<Vec<usize>>,
    base: usize,
    top: usize,
    blocks: Ghost<Map<int, int>>,
    inuse: Ghost<Set<int>>,
}

impl BuddyAllocator {
    /// Blocks in use, each with its rank.
    pub closed spec fn allocated(&self) -> Map<int, int> {
        self.blocks@.restrict(self.inuse@)
    }

    /// Frames of the free blocks.
    pub closed spec fn free_frames(&self) -> Set<int> {
        Set::new(|p: int| exists|h: int| #[trigger] self.blocks@.dom().contains(h) && !self.inuse@.contains(h)
            && in_block(h, self.blocks@[h], p))
    }

    /// Frames that the allocator manages.
    pub closed spec fn span(&self) -> Set<int> {
        Set::new(|p: int| self.base <= p < self.top)
    }

    /// Some free list of rank at least `req_rank` holds a block.
    pub open spec fn can_serve(&self, req_rank: int) -> bool {
        exists|k: int| req_rank <= k <= MAX_RANK && #[trigger] self.lists()[k].len() > 0
    }

    /// The free lists, by rank.
    pub closed spec fn lists(&self) -> Seq<Seq<usize>> {
        Seq::new(self.free_list@.len(), |r: int| self.free_list@[r]@)
    }

    /// Invariant, with `pending` a free block that is not in its list yet.
    pub closed spec fn wf_pending(&self, pending: Option<int>) -> bool {
        let b = self.blocks@;
        let u = self.inuse@;
        let t = self.table@;
        &&& self.free_list@.len() == MAX_RANK + 1
        &&& self.base <= self.top <= t.len()
        &&& self.top * PAGE_SIZE <= usize_modulus()
        &&& block_aligned(self.base as int, MAX_RANK as int)
        &&& block_aligned(self.top as int, MAX_RANK as int)
        &&& forall|h: int| #[trigger] b.dom().contains(h) ==> {
            &&& 0 <= b[h] <= MAX_RANK
            &&& block_aligned(h, b[h])
            &&& self.base <= h
            &&& h + psize(b[h]) <= self.top
            &&& t[h].spec_rank() == b[h]
            &&& t[h].spec_inuse() == u.contains(h)
        }
        &&& u.subset_of(b.dom())
        &&& forall|p: int| self.base <= p < self.top && (#[trigger] t[p]).spec_inuse() ==> u.contains(p)
        &&& forall|h1: int, h2: int| #[trigger] b.dom().contains(h1) && #[trigger] b.dom().contains(h2) && h1 != h2
            ==> h1 + psize(b[h1]) <= h2 || h2 + psize(b[h2]) <= h1
        &&& forall|p: int| self.base <= p < self.top ==> #[trigger] covered(b, p)
        &&& forall|r: int, i: int| 0 <= r <= MAX_RANK && 0 <= i < self.free_list@[r]@.len() ==> {
            let h = #[trigger] self.free_list@[r]@[i] as int;
            &&& b.dom().contains(h)
            &&& b[h] == r
            &&& !u.contains(h)
            &&& pending != Some(h)
        }
        &&& forall|r: int, i: int, j: int| 0 <= r <= MAX_RANK && 0 <= i < j < self.free_list@[r]@.len() ==>
            #[trigger] self.free_list@[r]@[i] != #[trigger] self.free_list@[r]@[j]
        &&& forall|h: int| #[trigger] b.dom().contains(h) && !u.contains(h) && pending != Some(h) ==>
            self.free_list@[b[h]]@.contains(h as usize)
        &&& pending matches Some(ph) ==> b.dom().contains(ph) && !u.contains(ph)
    }

    pub open spec fn wf(&self) -> bool {
        self.wf_pending(None)
    }

    /// The block at `h` is a free block of rank `r`.
    pub closed spec fn free_at(&self, h: int, r: int) -> bool {
        &&& self.blocks@.dom().contains(h)
        &&& self.blocks@[h] == r
        &&& !self.inuse@.contains(h)
    }

    /// Free blocks are merged as far as they go: no free block below the largest rank has
    /// a free buddy of its rank.
    pub closed spec fn merged(&self) -> bool {
        forall|h: int| #[trigger] self.free_at(h, self.blocks@[h]) && self.blocks@[h] < MAX_RANK
            ==> !self.free_at(buddy_of(h, self.blocks@[h]), self.blocks@[h])
    }

    /// `merged`, but for free blocks whose buddy is the block at `p`.
    spec fn merged_but(&self, p: int) -> bool {
        forall|h: int| #[trigger] self.free_at(h, self.blocks@[h]) && self.blocks@[h] < MAX_RANK && h != p
            ==> buddy_of(h, self.blocks@[h]) == p || !self.free_at(buddy_of(h, self.blocks@[h]), self.blocks@[h])
    }

    /// Splitting the pending block at `p` keeps all other free blocks merged.
    proof fn lemma_split_keeps_merged(&self, s0: BuddyAllocator, p: int, cur: int)
        requires
            s0.wf_pending(Some(p)),
            s0.blocks@.dom().contains(p),
            s0.blocks@[p] == cur,
            1 <= cur <= MAX_RANK,
            self.wf_pending(Some(p)),
            self.blocks@ == s0.blocks@.insert(p, cur - 1).insert(p + psize(cur - 1), cur - 1),
            self.inuse@ == s0.inuse@,
            !s0.blocks@.dom().contains(p + psize(cur - 1)),
            s0.merged_but(p),
        ensures
            self.merged_but(p),
    {
        let ps = psize(cur - 1);
        let r = p + ps;
        lemma_psize(cur - 1);
        assert(block_aligned(p, cur));
        assert(p >= 0);
        // `p` starts an even half, so its buddy at rank `cur - 1` is the upper half
        vstd::arithmetic::div_mod::lemma_fundamental_div_mod(p, 2 * ps);
        let m = p / (2 * ps);
        assert(p == ps * (2 * m)) by (nonlinear_arith) requires p == (2 * ps) * m + p % (2 * ps), p % (2 * ps) == 0;
        vstd::arithmetic::div_mod::lemma_div_multiples_vanish(2 * m, ps);
        lemma_buddy(p, cur - 1);
        assert(buddy_of(p, cur - 1) == r);
        lemma_buddy_involution(p, cur - 1);
        assert forall|h: int| #[trigger] self.free_at(h, self.blocks@[h]) && self.blocks@[h] < MAX_RANK && h != p
            implies buddy_of(h, self.blocks@[h]) == p || !self.free_at(buddy_of(h, self.blocks@[h]), self.blocks@[h]) by {
            if h != r {
                let rh = self.blocks@[h];
                assert(s0.free_at(h, s0.blocks@[h]));
                let bh = buddy_of(h, rh);
                if bh == r && rh == cur - 1 {
                    lemma_buddy_involution(h, rh);
                }
                if bh != p && bh != r {
                    assert(self.free_at(bh, rh) == s0.free_at(bh, rh));
                }
            }
        }
    }

    /// A pending block whose buddy is not a free block of its rank leaves all blocks merged.
    proof fn lemma_merged_at(&self, p: int)
        requires
            self.wf_pending(Some(p)),
            self.blocks@.dom().contains(p),
            self.merged_but(p),
            !(self.blocks@[p] < MAX_RANK && self.free_at(buddy_of(p, self.blocks@[p]), self.blocks@[p])),
        ensures
            self.merged(),
    {
        assert forall|h: int| #[trigger] self.free_at(h, self.blocks@[h]) && self.blocks@[h] < MAX_RANK implies
            !self.free_at(buddy_of(h, self.blocks@[h]), self.blocks@[h]) by {
            let r = self.blocks@[h];
            if h != p && buddy_of(h, r) == p && self.free_at(p, r) {
                lemma_buddy_involution(h, r);
                assert(self.free_at(buddy_of(p, self.blocks@[p]), self.blocks@[p]));
            }
        }
    }

    /// An allocator over a table of `table_len` frames whose free list holds the blocks of
    /// `2^MAX_RANK` frames that start from `start`, rounded up to a block, up to `end`.
    pub fn construct_at(start: usize, end: usize, table_len: usize) -> (a: BuddyAllocator)
        requires
            start <= end,
            block_round_up(end as int) <= table_len,
            table_len * PAGE_SIZE <= usize_modulus(),
        ensures
            a.wf(),
            a.allocated() == Map::<int, int>::empty(),
            a.free_frames() == Set::new(|p: int| block_round_up(start as int) <= p < block_round_up(end as int)),
            a.span() == a.free_frames(),
            forall|r: int| 0 <= r < MAX_RANK ==> #[trigger] a.lists()[r].len() == 0,
            a.merged(),
    {
        let s = (start + 1023) / 1024 * 1024;
        let e = (end + 1023) / 1024 * 1024;
        assert(s <= e) by (nonlinear_arith) requires start <= end, s == (start + 1023) / 1024 * 1024,
            e == (end + 1023) / 1024 * 1024;
        assert(s % 1024 == 0 && e % 1024 == 0) by (nonlinear_arith)
            requires s == (start + 1023) / 1024 * 1024, e == (end + 1023) / 1024 * 1024;
        let a = Self::build(s, e, table_len);
        assert(a.span() =~= a.free_frames());
        proof {
            assert forall|h: int| #[trigger] a.free_at(h, a.blocks@[h]) && a.blocks@[h] < MAX_RANK implies
                !a.free_at(buddy_of(h, a.blocks@[h]), a.blocks@[h]) by {
                assert(a.free_list@[a.blocks@[h]]@.contains(h as usize));
                assert(a.lists()[a.blocks@[h]].len() == 0);
            }
        }
        a
    }

    /// An allocator whose free list holds every block of `2^MAX_RANK` frames between
    /// `start` and `end`, over a table of `table_len` frames.
    fn build(start: usize, end: usize, table_len: usize) -> (a: BuddyAllocator)
        requires
            start % 1024 == 0,
            end % 1024 == 0,
            start <= end <= table_len,
            table_len * PAGE_SIZE <= usize_modulus(),
        ensures
            a.wf(),
            a.allocated() == Map::<int, int>::empty(),
            a.free_frames() == Set::new(|p: int| start <= p < end),
            a.span() == Set::new(|p: int| start <= p < end),
            forall|r: int| 0 <= r < MAX_RANK ==> #[trigger] a.lists()[r].len() == 0,
    {
        proof { lemma_psize_small(MAX_RANK as int); lemma_psize_small(0); }
        assert(psize(10) == 1024) by { vstd::arithmetic::power2::lemma2_to64(); }
        let mut table = MetaPageTable::new(table_len);
        let mut free_list: Vec<Vec<usize>> = Vec::new();
        let mut r: usize = 0;
        while r <= MAX_RANK
            invariant
                r <= MAX_RANK + 1,
                free_list@.len() == r,
                forall|k: int| 0 <= k < r ==> (#[trigger] free_list@[k])@.len() == 0,
            decreases MAX_RANK + 1 - r,
        {
            free_list.push(Vec::new());
            r = r + 1;
        }
        let mut addr: usize = start;
        let ghost mut blocks: Map<int, int> = Map::empty();
        while addr < end
            invariant
                start <= addr <= end,
                addr % 1024 == 0,
                start % 1024 == 0,
                end % 1024 == 0,
                end <= table_len,
                table@.len() == table_len,
                free_list@.len() == MAX_RANK + 1,
                psize(10) == 1024,
                forall|k: int| 0 <= k < MAX_RANK ==> (#[trigger] free_list@[k])@.len() == 0,
                free_list@[MAX_RANK as int]@.len() == (addr - start) / 1024,
                forall|i: int| 0 <= i < free_list@[MAX_RANK as int]@.len() ==>
                    #[trigger] free_list@[MAX_RANK as int]@[i] == start + 1024 * i,
                forall|h: int| #[trigger] blocks.dom().contains(h) <==> start <= h < addr && h % 1024 == 0,
                forall|h: int| #[trigger] blocks.dom().contains(h) ==> blocks[h] == 10,
                forall|k: int| 0 <= k < table_len ==> (#[trigger] table@[k]).spec_inuse() == false,
                forall|k: int| 0 <= k < table_len ==> (#[trigger] table@[k]).spec_rank() == (
                    if start <= k < addr && k % 1024 == 0 { 10usize } else { 0usize }),
            decreases end - addr,
        {
            table.set_rank_at(addr, MAX_RANK);
            let ghost fl0 = free_list@;
            let mut lst = free_list.remove(MAX_RANK);
            assert(lst@ == fl0[MAX_RANK as int]@);
            lst.push(addr);
            free_list.insert(MAX_RANK, lst);
            proof {
                assert(free_list@ == fl0.update(MAX_RANK as int, lst));
                assert(addr - start + 1024 == (addr + 1024 - start));
                assert((addr + 1024 - start) / 1024 == (addr - start) / 1024 + 1) by (nonlinear_arith)
                    requires addr % 1024 == 0, start % 1024 == 0, start <= addr;
                assert(addr == start + 1024 * ((addr - start) / 1024)) by (nonlinear_arith)
                    requires addr % 1024 == 0, start % 1024 == 0, start <= addr;
            }
            proof {
                blocks = blocks.insert(addr as int, 10);
            }
            addr = addr + 1024;
        }
        let a = BuddyAllocator {
            table,
            free_list,
            base: start,
            top: end,
            blocks: Ghost(blocks),
            inuse: Ghost(Set::empty()),
        };
        proof {
            let b = a.blocks@;
            assert forall|h: int| #[trigger] b.dom().contains(h) implies {
                &&& 0 <= b[h] <= MAX_RANK
                &&& block_aligned(h, b[h])
                &&& a.base <= h
                &&& h + psize(b[h]) <= a.top
                &&& a.table@[h].spec_rank() == b[h]
                &&& a.table@[h].spec_inuse() == a.inuse@.contains(h)
            } by {
                assert(h + 1024 <= end) by (nonlinear_arith)
                    requires h % 1024 == 0, end % 1024 == 0, h < end;
            }
            assert forall|h1: int, h2: int| #[trigger] b.dom().contains(h1) && #[trigger] b.dom().contains(h2) && h1 != h2
                implies h1 + psize(b[h1]) <= h2 || h2 + psize(b[h2]) <= h1 by {
                assert(h1 + 1024 <= h2 || h2 + 1024 <= h1) by (nonlinear_arith)
                    requires h1 % 1024 == 0, h2 % 1024 == 0, h1 != h2;
            }
            assert forall|p: int| a.base <= p < a.top implies #[trigger] covered(b, p) by {
                let h = (p / 1024) * 1024;
                assert(h % 1024 == 0 && h <= p < h + 1024 && start <= h) by (nonlinear_arith)
                    requires h == (p / 1024) * 1024, start % 1024 == 0, start <= p;
                assert(b.dom().contains(h));
            }
            let l = a.free_list@[MAX_RANK as int]@;
            assert forall|r: int, i: int| 0 <= r <= MAX_RANK && 0 <= i < a.free_list@[r]@.len() implies {
                let h = #[trigger] a.free_list@[r]@[i] as int;
                &&& b.dom().contains(h)
                &&& b[h] == r
                &&& !a.inuse@.contains(h)
                &&& None::<int> != Some(h)
            } by {
                if r < MAX_RANK {
                    assert(a.free_list@[r]@.len() == 0);
                } else {
                    let h = start + 1024 * i;
                    assert(l[i] == h);
                    assert(h % 1024 == 0 && h < end) by (nonlinear_arith)
                        requires h == start + 1024 * i, start % 1024 == 0, i < (end - start) / 1024, start <= end;
                }
            }
            assert forall|r: int, i: int, j: int| 0 <= r <= MAX_RANK && 0 <= i < j < a.free_list@[r]@.len() implies
                #[trigger] a.free_list@[r]@[i] != #[trigger] a.free_list@[r]@[j] by {
                if r < MAX_RANK {
                    assert(a.free_list@[r]@.len() == 0);
                } else {
                    assert(l[i] == start + 1024 * i);
                    assert(l[j] == start + 1024 * j);
                }
            }
            assert forall|h: int| #[trigger] b.dom().contains(h) && !a.inuse@.contains(h) && None::<int> != Some(h) implies
                a.free_list@[b[h]]@.contains(h as usize) by {
                let i = (h - start) / 1024;
                assert(h == start + 1024 * i && 0 <= i < (end - start) / 1024) by (nonlinear_arith)
                    requires start <= h < end, h % 1024 == 0, start % 1024 == 0, end % 1024 == 0, i == (h - start) / 1024;
                assert(l[i] == h);
            }
            assert(forall|p: int| a.base <= p < a.top && (#[trigger] a.table@[p]).spec_inuse() ==> a.inuse@.contains(p));
            assert(a.wf());
            assert(a.allocated() =~= Map::<int, int>::empty());
            assert forall|p: int| a.free_frames().contains(p) <==> start <= p < end by {
                if start <= p < end {
                    let h = (p / 1024) * 1024;
                    assert(h % 1024 == 0 && h <= p < h + 1024 && start <= h) by (nonlinear_arith)
                        requires h == (p / 1024) * 1024, start % 1024 == 0, start <= p;
                    assert(b.dom().contains(h));
                    assert(b[h] == 10);
                    assert(in_block(h, b[h], p));
                }
                if a.free_frames().contains(p) {
                    let h = choose|h: int| #[trigger] b.dom().contains(h) && !a.inuse@.contains(h) && in_block(h, b[h], p);
                    assert(h + 1024 <= end) by (nonlinear_arith)
                        requires h % 1024 == 0, end % 1024 == 0, h < end;
                }
            }
            assert(a.free_frames() =~= Set::new(|p: int| start <= p < end));
            assert(a.span() =~= Set::new(|p: int| start <= p < end));
        }
        a
    }


    /// Takes the last block off the free list of `rank`.
    fn pop_free(&mut self, rank: usize) -> (page: usize)
        requires
            old(self).wf(),
            rank <= MAX_RANK,
            old(self).free_list@[rank as int]@.len() > 0,
        ensures
            page == old(self).free_list@[rank as int]@.last(),
            final(self).wf_pending(Some(page as int)),
            final(self).blocks == old(self).blocks,
            final(self).inuse == old(self).inuse,
            final(self).table == old(self).table,
            final(self).base == old(self).base,
            final(self).top == old(self).top,
            final(self).free_list@[rank as int]@ == old(self).free_list@[rank as int]@.drop_last(),
            forall|r: int| 0 <= r <= MAX_RANK && r != rank ==> #[trigger] final(self).free_list@[r]@ == old(self).free_list@[r]@,
    {
        let ghost fl0 = self.free_list@;
        let mut lst = self.free_list.remove(rank);
        assert(lst@ == fl0[rank as int]@);
        let page = lst.pop().unwrap();
        self.free_list.insert(rank, lst);
        proof {
            assert(self.free_list@ == fl0.update(rank as int, lst));
            let b = self.blocks@;
            let u = self.inuse@;
            let l0 = fl0[rank as int]@;
            let n = l0.len() - 1;
            assert(l0[n] == page);
            assert forall|r: int, i: int| 0 <= r <= MAX_RANK && 0 <= i < self.free_list@[r]@.len() implies {
                let h = #[trigger] self.free_list@[r]@[i] as int;
                &&& b.dom().contains(h)
                &&& b[h] == r
                &&& !u.contains(h)
                &&& Some(page as int) != Some(h)
            } by {
                if r == rank {
                    assert(self.free_list@[r]@[i] == l0[i]);
                    assert(l0[i] != l0[n]);
                } else {
                    assert(self.free_list@[r]@[i] == fl0[r]@[i]);
                }
            }
            assert forall|r: int, i: int, j: int| 0 <= r <= MAX_RANK && 0 <= i < j < self.free_list@[r]@.len() implies
                #[trigger] self.free_list@[r]@[i] != #[trigger] self.free_list@[r]@[j] by {
                if r == rank {
                    assert(self.free_list@[r]@[i] == l0[i]);
                    assert(self.free_list@[r]@[j] == l0[j]);
                } else {
                    assert(self.free_list@[r]@[i] == fl0[r]@[i]);
                    assert(self.free_list@[r]@[j] == fl0[r]@[j]);
                }
            }
            assert forall|h: int| #[trigger] b.dom().contains(h) && !u.contains(h) && Some(page as int) != Some(h) implies
                self.free_list@[b[h]]@.contains(h as usize) by {
                assert(fl0[b[h]]@.contains(h as usize));
                if b[h] == rank {
                    let i = choose|i: int| 0 <= i < l0.len() && l0[i] == h as usize;
                    assert(i != n);
                    assert(self.free_list@[b[h]]@[i] == h as usize);
                }
            }
            assert(b.dom().contains(page as int) && !u.contains(page as int)) by {
                assert(fl0[rank as int]@[n] == page);
            }
        }
        page
    }

    /// Allocates a block of `2^req_rank` frames, splitting a larger free block if need be,
    /// and returns the linear-map address of its first frame.
    pub fn alloc_page(&mut self, req_rank: usize) -> (r: Result<usize, ()>)
        requires
            old(self).wf(),
        ensures
            final(self).wf(),
            alloc_outcome(*old(self), *final(self), req_rank, r),
            r is Err ==> *final(self) == *old(self),
            old(self).merged() ==> final(self).merged(),
    {
        let mut rank = req_rank;
        while rank <= MAX_RANK
            invariant
                self.wf(),
                *self == *old(self),
                req_rank <= rank,
                forall|k: int| req_rank <= k < rank ==> #[trigger] self.lists()[k].len() == 0,
            decreases MAX_RANK + 1 - rank,
        {
            if self.free_list[rank].len() > 0 {
                let ghost old_free = self.free_frames();
                let ghost old_alloc = self.allocated();
                let ghost old_lists = self.lists();
                proof {
                    assert(old_lists[rank as int] == self.free_list@[rank as int]@);
                }
                let page = self.pop_free(rank);
                proof {
                    assert(self.free_frames() == old_free);
                    assert(self.allocated() == old_alloc);
                    if old(self).merged() {
                        assert forall|h: int| #[trigger] self.free_at(h, self.blocks@[h]) && self.blocks@[h] < MAX_RANK
                            && h != page as int implies buddy_of(h, self.blocks@[h]) == page as int
                            || !self.free_at(buddy_of(h, self.blocks@[h]), self.blocks@[h]) by {
                            assert(old(self).free_at(h, old(self).blocks@[h]));
                        }
                    }
                }
                let addr = self.split_to_rank(page, rank, req_rank);
                proof {
                    assert(forall|k: int| req_rank <= k < rank ==> #[trigger] old_lists[k].len() == 0);
                    assert(old_lists[rank as int].len() > 0);
                    assert(old_lists[rank as int].last() == page);
                }
                return Ok(addr);
            }
            rank = rank + 1;
        }
        Err(())
    }

    /// Splits the taken block at `page` of rank `rank` down to `req_rank`, putting the
    /// upper halves on the free lists, and marks the remaining block in use.
    fn split_to_rank(&mut self, page: usize, rank: usize, req_rank: usize) -> (addr: usize)
        requires
            old(self).wf_pending(Some(page as int)),
            old(self).blocks@.dom().contains(page as int),
            old(self).blocks@[page as int] == rank,
            req_rank <= rank <= MAX_RANK,
        ensures
            final(self).wf(),
            final(self).base == old(self).base,
            final(self).top == old(self).top,
            addr == page_addr(page as int),
            page_index(addr as int) == page as int,
            block_aligned(page as int, req_rank as int),
            block_frames(page as int, req_rank as int).subset_of(old(self).free_frames()),
            final(self).allocated() == old(self).allocated().insert(page as int, req_rank as int),
            final(self).free_frames() == old(self).free_frames().difference(block_frames(page as int, req_rank as int)),
            forall|k: int| 0 <= k <= MAX_RANK ==> #[trigger] final(self).free_list@[k]@ == if req_rank <= k < rank {
                old(self).free_list@[k]@.push((page + psize(k)) as usize)
            } else {
                old(self).free_list@[k]@
            },
            old(self).merged_but(page as int) ==> final(self).merged(),
    {
        let mut cur = rank;
        while req_rank < cur
            invariant
                old(self).merged_but(page as int) ==> self.merged_but(page as int),
                forall|k: int| 0 <= k <= MAX_RANK ==> #[trigger] self.free_list@[k]@ == if cur <= k < rank {
                    old(self).free_list@[k]@.push((page + psize(k)) as usize)
                } else {
                    old(self).free_list@[k]@
                },
                cur <= rank,
                self.wf_pending(Some(page as int)),
                self.blocks@.dom().contains(page as int),
                self.blocks@[page as int] == cur,
                req_rank <= cur <= MAX_RANK,
                self.free_frames() == old(self).free_frames(),
                self.allocated() == old(self).allocated(),
                self.base == old(self).base,
                self.top == old(self).top,
            decreases cur,
        {
            let ghost fl0 = self.free_list@;
            let ghost s0 = *self;
            self.split_once(page, cur);
            proof {
                if old(self).merged_but(page as int) {
                    self.lemma_split_keeps_merged(s0, page as int, cur as int);
                }
            }
            proof {
                assert forall|k: int| 0 <= k <= MAX_RANK implies #[trigger] self.free_list@[k]@ == if cur - 1 <= k < rank {
                    old(self).free_list@[k]@.push((page + psize(k)) as usize)
                } else {
                    old(self).free_list@[k]@
                } by {
                    assert(fl0[k]@ == if cur <= k < rank {
                        old(self).free_list@[k]@.push((page + psize(k)) as usize)
                    } else {
                        old(self).free_list@[k]@
                    });
                }
            }
            cur = cur - 1;
        }
        let ghost b = self.blocks@;
        let ghost u0 = self.inuse@;
        let ghost f0 = self.free_frames();
        let ghost t0 = self.table@;
        proof {
            lemma_psize(cur as int);
            lemma_page_index_of_addr(page as int);
        }
        let ghost sl = *self;
        self.table.set_inuse_at(page, true);
        proof {
            self.inuse@ = self.inuse@.insert(page as int);
            if old(self).merged_but(page as int) {
                assert forall|h: int| #[trigger] self.free_at(h, self.blocks@[h]) && self.blocks@[h] < MAX_RANK implies
                    !self.free_at(buddy_of(h, self.blocks@[h]), self.blocks@[h]) by {
                    assert(sl.free_at(h, sl.blocks@[h]));
                }
            }
            let u = self.inuse@;
            let t = self.table@;
            assert forall|h: int| #[trigger] b.dom().contains(h) implies {
                &&& 0 <= b[h] <= MAX_RANK
                &&& block_aligned(h, b[h])
                &&& self.base <= h
                &&& h + psize(b[h]) <= self.top
                &&& t[h].spec_rank() == b[h]
                &&& t[h].spec_inuse() == u.contains(h)
            } by {
                lemma_psize(b[h]);
                if h != page {
                    assert(t[h] == t0[h]);
                }
            }
            assert forall|p: int| self.base <= p < self.top && (#[trigger] t[p]).spec_inuse() implies u.contains(p) by {
                if p != page {
                    assert(t[p] == t0[p]);
                }
            }
            assert(self.wf());
            assert(self.allocated() =~= old(self).allocated().insert(page as int, req_rank as int));
            lemma_psize(req_rank as int);
            assert forall|p: int| self.free_frames().contains(p) <==>
                old(self).free_frames().difference(block_frames(page as int, req_rank as int)).contains(p) by {
                if self.free_frames().contains(p) {
                    let h = choose|h: int| #[trigger] b.dom().contains(h) && !u.contains(h) && in_block(h, b[h], p);
                    assert(f0.contains(p));
                    assert(h != page);
                    assert(h + psize(b[h]) <= page || page + psize(b[page as int]) <= h);
                }
                if old(self).free_frames().difference(block_frames(page as int, req_rank as int)).contains(p) {
                    assert(f0.contains(p));
                    let h = choose|h: int| #[trigger] b.dom().contains(h) && !u0.contains(h) && in_block(h, b[h], p);
                    assert(h != page);
                }
            }
            assert(self.free_frames() =~= old(self).free_frames().difference(block_frames(page as int, req_rank as int)));
            assert forall|p: int| block_frames(page as int, req_rank as int).contains(p) implies old(self).free_frames().contains(p) by {
                assert(b.dom().contains(page as int) && !u0.contains(page as int) && in_block(page as int, b[page as int], p));
            }
        }
        phys_to_virt(pfn_to_addr(page))
    }

    /// Halves the taken block at `page` of rank `cur`, putting the upper half on the free
    /// list of rank `cur - 1`.
    #[verifier::rlimit(60)]
    fn split_once(&mut self, page: usize, cur: usize)
        requires
            old(self).wf_pending(Some(page as int)),
            old(self).blocks@.dom().contains(page as int),
            old(self).blocks@[page as int] == cur,
            1 <= cur <= MAX_RANK,
        ensures
            final(self).wf_pending(Some(page as int)),
            final(self).base == old(self).base,
            final(self).top == old(self).top,
            final(self).blocks@.dom().contains(page as int),
            final(self).blocks@[page as int] == cur - 1,
            final(self).free_frames() == old(self).free_frames(),
            final(self).allocated() == old(self).allocated(),
            forall|k: int| 0 <= k <= MAX_RANK ==> #[trigger] final(self).free_list@[k]@ == if k == cur - 1 {
                old(self).free_list@[k]@.push((page + psize(k)) as usize)
            } else {
                old(self).free_list@[k]@
            },
            final(self).blocks@ == old(self).blocks@.insert(page as int, cur - 1).insert(page + psize(cur - 1), cur - 1),
            final(self).inuse@ == old(self).inuse@,
            !old(self).blocks@.dom().contains(page + psize(cur - 1)),
    {
        let ghost b0 = self.blocks@;
        let ghost u = self.inuse@;
        let ghost t0 = self.table@;
        let ghost fl0 = self.free_list@;
        let ghost f0 = self.free_frames();
        let ghost a0 = self.allocated();
        proof {
            lemma_psize(cur as int - 1);
            lemma_aligned_lower(page as int, cur as int, cur as int - 1);
        }
        let half = rank_to_pages(cur - 1);
        let (_, right) = self.table.split(page);
        let ghost t1 = self.table@;
        let mut lst = self.free_list.remove(cur - 1);
        assert(lst@ == fl0[cur - 1]@);
        lst.push(right);
        self.free_list.insert(cur - 1, lst);
        proof {
            let r = right as int;
            let h0 = cur as int - 1;
            let p = page as int;
            assert(r == p + psize(h0));
            assert(self.free_list@ == fl0.update(h0, lst));
            // the upper half starts inside the old block, so no block starts there
            assert(!b0.dom().contains(r)) by {
                if b0.dom().contains(r) {
                    assert(r != p);
                    assert(p + psize(b0[p]) <= r || r + psize(b0[r]) <= p);
                }
            }
            assert(block_aligned(r, h0)) by {
                vstd::arithmetic::div_mod::lemma_mod_adds(p, psize(h0), psize(h0));
                vstd::arithmetic::div_mod::lemma_mod_self_0(psize(h0));
            }
            self.blocks@ = b0.insert(p, h0).insert(r, h0);
            let b = self.blocks@;
            let t = self.table@;
            assert(!u.contains(r));
            assert forall|h: int| #[trigger] b.dom().contains(h) implies {
                &&& 0 <= b[h] <= MAX_RANK
                &&& block_aligned(h, b[h])
                &&& self.base <= h
                &&& h + psize(b[h]) <= self.top
                &&& t[h].spec_rank() == b[h]
                &&& t[h].spec_inuse() == u.contains(h)
            } by {
                if h == r {
                    assert(self.base <= r < self.top);
                    assert(!t0[r].spec_inuse());
                } else if h != p {
                    lemma_psize(b0[h]);
                    assert(t[h] == t0[h]);
                }
            }
            assert forall|q: int| self.base <= q < self.top && (#[trigger] t[q]).spec_inuse() implies u.contains(q) by {
                if q != p && q != r {
                    assert(t[q] == t0[q]);
                }
            }
            assert forall|h1: int, h2: int| #[trigger] b.dom().contains(h1) && #[trigger] b.dom().contains(h2) && h1 != h2
                implies h1 + psize(b[h1]) <= h2 || h2 + psize(b[h2]) <= h1 by {
                if h1 != p && h1 != r && h2 != p && h2 != r {
                } else if (h1 == p || h1 == r) && (h2 == p || h2 == r) {
                } else if h1 == p || h1 == r {
                    assert(p + psize(b0[p]) <= h2 || h2 + psize(b0[h2]) <= p);
                } else {
                    assert(p + psize(b0[p]) <= h1 || h1 + psize(b0[h1]) <= p);
                }
            }
            assert forall|q: int| self.base <= q < self.top implies #[trigger] covered(b, q) by {
                assert(covered(b0, q));
                let h = choose|h: int| #[trigger] b0.dom().contains(h) && in_block(h, b0[h], q);
                if h == p {
                    if q < r {
                        assert(b.dom().contains(p) && in_block(p, b[p], q));
                    } else {
                        assert(b.dom().contains(r) && in_block(r, b[r], q));
                    }
                } else {
                    assert(b.dom().contains(h) && in_block(h, b[h], q));
                }
            }
            assert forall|rk: int, i: int| 0 <= rk <= MAX_RANK && 0 <= i < self.free_list@[rk]@.len() implies {
                let h = #[trigger] self.free_list@[rk]@[i] as int;
                &&& b.dom().contains(h)
                &&& b[h] == rk
                &&& !u.contains(h)
                &&& Some(p) != Some(h)
            } by {
                if rk == h0 && i == fl0[h0]@.len() {
                } else {
                    assert(self.free_list@[rk]@[i] == fl0[rk]@[i]);
                    assert(b0.dom().contains(self.free_list@[rk]@[i] as int));
                }
            }
            assert forall|rk: int, i: int, j: int| 0 <= rk <= MAX_RANK && 0 <= i < j < self.free_list@[rk]@.len() implies
                #[trigger] self.free_list@[rk]@[i] != #[trigger] self.free_list@[rk]@[j] by {
                if rk == h0 && j == fl0[h0]@.len() {
                    assert(self.free_list@[rk]@[i] == fl0[rk]@[i]);
                    assert(b0.dom().contains(fl0[rk]@[i] as int));
                } else {
                    assert(self.free_list@[rk]@[i] == fl0[rk]@[i]);
                    assert(self.free_list@[rk]@[j] == fl0[rk]@[j]);
                }
            }
            assert forall|h: int| #[trigger] b.dom().contains(h) && !u.contains(h) && Some(p) != Some(h) implies
                self.free_list@[b[h]]@.contains(h as usize) by {
                if h == r {
                    assert(self.free_list@[h0]@[fl0[h0]@.len() as int] == right);
                } else {
                    assert(b0.dom().contains(h));
                    assert(fl0[b0[h]]@.contains(h as usize));
                    let i = choose|i: int| 0 <= i < fl0[b0[h]]@.len() && fl0[b0[h]]@[i] == h as usize;
                    assert(self.free_list@[b[h]]@[i] == h as usize);
                }
            }
            assert(self.wf_pending(Some(p)));
            assert(self.allocated() =~= a0);
            assert forall|q: int| self.free_frames().contains(q) <==> f0.contains(q) by {
                if self.free_frames().contains(q) {
                    let h = choose|h: int| #[trigger] b.dom().contains(h) && !u.contains(h) && in_block(h, b[h], q);
                    if h == r || h == p {
                        assert(b0.dom().contains(p) && !u.contains(p) && in_block(p, b0[p], q));
                    } else {
                        assert(b0.dom().contains(h) && !u.contains(h) && in_block(h, b0[h], q));
                    }
                }
                if f0.contains(q) {
                    let h = choose|h: int| #[trigger] b0.dom().contains(h) && !u.contains(h) && in_block(h, b0[h], q);
                    if h == p {
                        if q < r {
                            assert(b.dom().contains(p) && !u.contains(p) && in_block(p, b[p], q));
                        } else {
                            assert(b.dom().contains(r) && !u.contains(r) && in_block(r, b[r], q));
                        }
                    } else {
                        assert(b.dom().contains(h) && !u.contains(h) && in_block(h, b[h], q));
                    }
                }
            }
            assert(self.free_frames() =~= f0);
        }
    }

    /// The buddy of the pending block at `page`, when it is a free block of the same rank.
    fn get_free_buddy(&self, page: usize) -> (r: Option<usize>)
        requires
            self.wf_pending(Some(page as int)),
        ensures
            r matches Some(b) ==> {
                &&& self.blocks@[page as int] < MAX_RANK
                &&& b == buddy_of(page as int, self.blocks@[page as int])
                &&& self.blocks@.dom().contains(b as int)
                &&& self.blocks@[b as int] == self.blocks@[page as int]
                &&& !self.inuse@.contains(b as int)
            },
            r is None ==> !({
                let bd = buddy_of(page as int, self.blocks@[page as int]);
                &&& self.blocks@[page as int] < MAX_RANK
                &&& self.blocks@.dom().contains(bd)
                &&& self.blocks@[bd] == self.blocks@[page as int]
                &&& !self.inuse@.contains(bd)
            }),
    {
        let ghost b = self.blocks@;
        let ghost pr = b[page as int];
        proof { lemma_psize(pr); }
        let rank = self.table.pages[page].rank();
        if rank >= MAX_RANK {
            return None;
        }
        let pages = rank_to_pages(rank);
        proof {
            lemma_buddy(page as int, pr);
            lemma_buddy_in_range(page as int, pr, self.base as int, self.top as int, MAX_RANK as int);
        }
        let buddy = if (page / pages) % 2 == 0 { page + pages } else { page - pages };
        assert(buddy == buddy_of(page as int, pr));
        let bp = self.table.pages[buddy];
        if !bp.inuse() && bp.rank() == rank {
            proof { self.lemma_buddy_is_head(page as int, buddy as int); }
            Some(buddy)
        } else {
            proof {
                if b.dom().contains(buddy as int) {
                    assert(self.table@[buddy as int].spec_rank() == b[buddy as int]);
                    assert(self.table@[buddy as int].spec_inuse() == self.inuse@.contains(buddy as int));
                }
            }
            None
        }
    }

    /// A frame that is the buddy of the pending block starts a block of at most the same rank.
    proof fn lemma_buddy_is_head(&self, page: int, bd: int)
        requires
            self.wf_pending(Some(page)),
            self.blocks@[page] < MAX_RANK,
            bd == buddy_of(page, self.blocks@[page]),
            self.table@[bd].spec_rank() == self.blocks@[page],
        ensures
            self.blocks@.dom().contains(bd),
            self.blocks@[bd] == self.blocks@[page],
            self.table@[bd].spec_inuse() == self.inuse@.contains(bd),
    {
        let b = self.blocks@;
        let r = b[page];
        lemma_psize(r);
        lemma_buddy(page, r);
        lemma_buddy_in_range(page, r, self.base as int, self.top as int, MAX_RANK as int);
        let par = if page < bd { page } else { bd };
        assert(covered(b, bd));
        let h = choose|h: int| #[trigger] b.dom().contains(h) && in_block(h, b[h], bd);
        let s = b[h];
        lemma_psize(s);
        if s <= r {
            lemma_aligned_lower(bd, r, s);
            lemma_aligned_same(h, bd, s);
        } else {
            lemma_aligned_lower(h, s, r + 1);
            if par < h {
                assert(in_block(par, r + 1, h));
                lemma_aligned_same(par, h, r + 1);
            }
            lemma_nested(h, s, par, r + 1);
            assert(h != page);
            assert(page + psize(r) <= h || h + psize(s) <= page);
        }
    }

    /// Takes the free block at `bd` of rank `r` off its free list.
    fn remove_free(&mut self, bd: usize, r: usize, page: usize)
        requires
            old(self).wf_pending(Some(page as int)),
            old(self).blocks@.dom().contains(bd as int),
            old(self).blocks@[bd as int] == r,
            !old(self).inuse@.contains(bd as int),
            bd != page,
        ensures
            final(self).blocks == old(self).blocks,
            final(self).inuse == old(self).inuse,
            final(self).table == old(self).table,
            final(self).base == old(self).base,
            final(self).top == old(self).top,
            final(self).free_list@.len() == MAX_RANK + 1,
            forall|rk: int, i: int| 0 <= rk <= MAX_RANK && 0 <= i < final(self).free_list@[rk]@.len() ==> {
                let h = #[trigger] final(self).free_list@[rk]@[i] as int;
                &&& old(self).blocks@.dom().contains(h)
                &&& old(self).blocks@[h] == rk
                &&& !old(self).inuse@.contains(h)
                &&& h != page
                &&& h != bd
            },
            forall|rk: int, i: int, j: int| 0 <= rk <= MAX_RANK && 0 <= i < j < final(self).free_list@[rk]@.len() ==>
                #[trigger] final(self).free_list@[rk]@[i] != #[trigger] final(self).free_list@[rk]@[j],
            forall|h: int| #[trigger] old(self).blocks@.dom().contains(h) && !old(self).inuse@.contains(h) && h != page && h != bd ==>
                final(self).free_list@[old(self).blocks@[h]]@.contains(h as usize),
    {
        let ghost fl0 = self.free_list@;
        proof {
            assert(fl0[r as int]@.contains(bd));
        }
        let mut lst = self.free_list.remove(r);
        assert(lst@ == fl0[r as int]@);
        let len = lst.len();
        let mut k: usize = 0;
        while k < len && lst[k] != bd
            invariant
                lst@ == fl0[r as int]@,
                len == lst@.len(),
                k <= len,
                lst@.contains(bd),
                forall|i: int| 0 <= i < k ==> lst@[i] != bd,
            decreases len - k,
        {
            k = k + 1;
        }
        assert(k < len && lst@[k as int] == bd) by {
            if k == len {
                let i = choose|i: int| 0 <= i < lst@.len() && lst@[i] == bd;
            }
        }
        lst.remove(k);
        self.free_list.insert(r, lst);
        proof {
            let l0 = fl0[r as int]@;
            assert(self.free_list@ == fl0.update(r as int, lst));
            assert(lst@ == l0.remove(k as int));
            let b = self.blocks@;
            let u = self.inuse@;
            assert forall|rk: int, i: int| 0 <= rk <= MAX_RANK && 0 <= i < self.free_list@[rk]@.len() implies {
                let h = #[trigger] self.free_list@[rk]@[i] as int;
                &&& b.dom().contains(h)
                &&& b[h] == rk
                &&& !u.contains(h)
                &&& h != page
                &&& h != bd
            } by {
                if rk == r {
                    if i < k {
                        assert(self.free_list@[rk]@[i] == l0[i]);
                        assert(l0[i] != l0[k as int]);
                    } else {
                        assert(self.free_list@[rk]@[i] == l0[i + 1]);
                        assert(l0[i + 1] != l0[k as int]);
                    }
                } else {
                    assert(self.free_list@[rk]@[i] == fl0[rk]@[i]);
                    if fl0[rk]@[i] == bd {
                        assert(b[bd as int] == rk);
                    }
                }
            }
            assert forall|rk: int, i: int, j: int| 0 <= rk <= MAX_RANK && 0 <= i < j < self.free_list@[rk]@.len() implies
                #[trigger] self.free_list@[rk]@[i] != #[trigger] self.free_list@[rk]@[j] by {
                if rk == r {
                    let ii = if i < k { i } else { i + 1 };
                    let jj = if j < k { j } else { j + 1 };
                    assert(self.free_list@[rk]@[i] == l0[ii]);
                    assert(self.free_list@[rk]@[j] == l0[jj]);
                } else {
                    assert(self.free_list@[rk]@[i] == fl0[rk]@[i]);
                    assert(self.free_list@[rk]@[j] == fl0[rk]@[j]);
                }
            }
            assert forall|h: int| #[trigger] b.dom().contains(h) && !u.contains(h) && h != page && h != bd implies
                self.free_list@[b[h]]@.contains(h as usize) by {
                assert(fl0[b[h]]@.contains(h as usize));
                let i = choose|i: int| 0 <= i < fl0[b[h]]@.len() && fl0[b[h]]@[i] == h as usize;
                if b[h] == r {
                    assert(i != k);
                    if i < k {
                        assert(self.free_list@[b[h]]@[i] == h as usize);
                    } else {
                        assert(self.free_list@[b[h]]@[i - 1] == h as usize);
                    }
                } else {
                    assert(self.free_list@[b[h]]@[i] == h as usize);
                }
            }
        }
    }

    /// Joins the pending block at `page` with its free buddy `bd` of the same rank into
    /// the pending block of the next rank, and returns where that block starts.
    #[verifier::rlimit(80)]
    #[verifier::spinoff_prover]
    fn merge_with_buddy(&mut self, page: usize, bd: usize) -> (left: usize)
        requires
            old(self).wf_pending(Some(page as int)),
            old(self).blocks@[page as int] < MAX_RANK,
            bd == buddy_of(page as int, old(self).blocks@[page as int]),
            old(self).blocks@.dom().contains(bd as int),
            old(self).blocks@[bd as int] == old(self).blocks@[page as int],
            !old(self).inuse@.contains(bd as int),
        ensures
            final(self).wf_pending(Some(left as int)),
            final(self).base == old(self).base,
            final(self).top == old(self).top,
            left == if page < bd { page } else { bd },
            final(self).blocks@[left as int] == old(self).blocks@[page as int] + 1,
            final(self).free_frames() == old(self).free_frames(),
            final(self).allocated() == old(self).allocated(),
            final(self).blocks@ == old(self).blocks@.remove(page as int).remove(bd as int)
                .insert(left as int, old(self).blocks@[page as int] + 1),
            final(self).inuse@ == old(self).inuse@,
    {
        let ghost b = self.blocks@;
        let ghost u = self.inuse@;
        let ghost f0 = self.free_frames();
        let ghost a0 = self.allocated();
        let ghost r = b[page as int];
        proof {
            lemma_psize(r);
            lemma_buddy(page as int, r);
            lemma_buddy_in_range(page as int, r, self.base as int, self.top as int, MAX_RANK as int);
        }
        let rank = self.table.pages[page].rank();
        self.remove_free(bd, rank, page);
        let ghost t0 = self.table@;
        let left = self.table.merge(page, bd);
        proof {
            let p = page as int;
            let q = bd as int;
            let l = left as int;
            let hi = if p < q { q } else { p };
            assert(l + psize(r + 1) == hi + psize(r));
            self.blocks@ = b.remove(p).remove(q).insert(l, r + 1);
            let b1 = self.blocks@;
            let t = self.table@;
            assert(b1.dom().contains(l));
            assert(!b1.dom().contains(hi));
            assert forall|h: int| #[trigger] b1.dom().contains(h) implies {
                &&& 0 <= b1[h] <= MAX_RANK
                &&& block_aligned(h, b1[h])
                &&& self.base <= h
                &&& h + psize(b1[h]) <= self.top
                &&& t[h].spec_rank() == b1[h]
                &&& t[h].spec_inuse() == u.contains(h)
            } by {
                if h != l {
                    assert(b.dom().contains(h));
                    lemma_psize(b[h]);
                    assert(t[h] == t0[h]);
                }
            }
            assert forall|x: int| self.base <= x < self.top && (#[trigger] t[x]).spec_inuse() implies u.contains(x) by {
                if x != l {
                    assert(t[x] == t0[x]);
                }
            }
            assert forall|h1: int, h2: int| #[trigger] b1.dom().contains(h1) && #[trigger] b1.dom().contains(h2) && h1 != h2
                implies h1 + psize(b1[h1]) <= h2 || h2 + psize(b1[h2]) <= h1 by {
                if h1 == l {
                    assert(b.dom().contains(h2) && h2 != p && h2 != q);
                    assert(p + psize(r) <= h2 || h2 + psize(b[h2]) <= p);
                    assert(q + psize(r) <= h2 || h2 + psize(b[h2]) <= q);
                } else if h2 == l {
                    assert(b.dom().contains(h1) && h1 != p && h1 != q);
                    assert(p + psize(r) <= h1 || h1 + psize(b[h1]) <= p);
                    assert(q + psize(r) <= h1 || h1 + psize(b[h1]) <= q);
                } else {
                    assert(b.dom().contains(h1) && b.dom().contains(h2));
                }
            }
            assert forall|x: int| self.base <= x < self.top implies #[trigger] covered(b1, x) by {
                assert(covered(b, x));
                let h = choose|h: int| #[trigger] b.dom().contains(h) && in_block(h, b[h], x);
                if h == p || h == q {
                    assert(b1.dom().contains(l) && in_block(l, b1[l], x));
                } else {
                    assert(b1.dom().contains(h) && in_block(h, b1[h], x));
                }
            }
            assert forall|rk: int, i: int| 0 <= rk <= MAX_RANK && 0 <= i < self.free_list@[rk]@.len() implies {
                let h = #[trigger] self.free_list@[rk]@[i] as int;
                &&& b1.dom().contains(h)
                &&& b1[h] == rk
                &&& !u.contains(h)
                &&& Some(l) != Some(h)
            } by {
                let h = self.free_list@[rk]@[i] as int;
                assert(b.dom().contains(h) && h != p && h != q);
            }
            assert forall|h: int| #[trigger] b1.dom().contains(h) && !u.contains(h) && Some(l) != Some(h) implies
                self.free_list@[b1[h]]@.contains(h as usize) by {
                assert(b.dom().contains(h) && h != p && h != q);
            }
            assert(self.wf_pending(Some(l)));
            assert(self.allocated() =~= a0);
            assert forall|x: int| self.free_frames().contains(x) <==> f0.contains(x) by {
                if self.free_frames().contains(x) {
                    let h = choose|h: int| #[trigger] b1.dom().contains(h) && !u.contains(h) && in_block(h, b1[h], x);
                    if h == l {
                        if x < hi {
                            assert(b.dom().contains(l) && !u.contains(l) && in_block(l, b[l], x));
                        } else {
                            assert(b.dom().contains(hi) && !u.contains(hi) && in_block(hi, b[hi], x));
                        }
                    } else {
                        assert(b.dom().contains(h) && !u.contains(h) && in_block(h, b[h], x));
                    }
                }
                if f0.contains(x) {
                    let h = choose|h: int| #[trigger] b.dom().contains(h) && !u.contains(h) && in_block(h, b[h], x);
                    if h == p || h == q {
                        assert(b1.dom().contains(l) && !u.contains(l) && in_block(l, b1[l], x));
                    } else {
                        assert(b1.dom().contains(h) && !u.contains(h) && in_block(h, b1[h], x));
                    }
                }
            }
            assert(self.free_frames() =~= f0);
        }
        left
    }

    /// Marks the block in use at `idx` free, leaving it off the free lists for now.
    fn mark_free(&mut self, idx: usize)
        requires
            old(self).wf(),
            old(self).allocated().dom().contains(idx as int),
        ensures
            final(self).wf_pending(Some(idx as int)),
            final(self).base == old(self).base,
            final(self).top == old(self).top,
            final(self).blocks == old(self).blocks,
            final(self).inuse@ == old(self).inuse@.remove(idx as int),
            final(self).allocated() == old(self).allocated().remove(idx as int),
            final(self).free_frames() == old(self).free_frames().union(
                block_frames(idx as int, old(self).allocated()[idx as int])),
    {
        let ghost b = self.blocks@;
        let ghost u = self.inuse@;
        let ghost t0 = self.table@;
        let ghost f0 = self.free_frames();
        proof { lemma_psize(b[idx as int]); }
        self.table.set_inuse_at(idx, false);
        proof {
            let i = idx as int;
            self.inuse@ = u.remove(i);
            let u1 = self.inuse@;
            let t = self.table@;
            assert forall|h: int| #[trigger] b.dom().contains(h) implies {
                &&& 0 <= b[h] <= MAX_RANK
                &&& block_aligned(h, b[h])
                &&& self.base <= h
                &&& h + psize(b[h]) <= self.top
                &&& t[h].spec_rank() == b[h]
                &&& t[h].spec_inuse() == u1.contains(h)
            } by {
                lemma_psize(b[h]);
                if h != i {
                    assert(t[h] == t0[h]);
                }
            }
            assert forall|x: int| self.base <= x < self.top && (#[trigger] t[x]).spec_inuse() implies u1.contains(x) by {
                if x != i {
                    assert(t[x] == t0[x]);
                }
            }
            assert forall|rk: int, j: int| 0 <= rk <= MAX_RANK && 0 <= j < self.free_list@[rk]@.len() implies {
                let h = #[trigger] self.free_list@[rk]@[j] as int;
                &&& b.dom().contains(h)
                &&& b[h] == rk
                &&& !u1.contains(h)
                &&& Some(i) != Some(h)
            } by {
                let h = self.free_list@[rk]@[j] as int;
                assert(!u.contains(h));
            }
            assert(self.wf_pending(Some(i)));
            assert(self.allocated() =~= old(self).allocated().remove(i));
            let blk = block_frames(i, b[i]);
            assert forall|x: int| self.free_frames().contains(x) <==> f0.union(blk).contains(x) by {
                if self.free_frames().contains(x) {
                    let h = choose|h: int| #[trigger] b.dom().contains(h) && !u1.contains(h) && in_block(h, b[h], x);
                    if h != i {
                        assert(b.dom().contains(h) && !u.contains(h) && in_block(h, b[h], x));
                    }
                }
                if f0.contains(x) {
                    let h = choose|h: int| #[trigger] b.dom().contains(h) && !u.contains(h) && in_block(h, b[h], x);
                    assert(b.dom().contains(h) && !u1.contains(h) && in_block(h, b[h], x));
                }
                if blk.contains(x) {
                    assert(b.dom().contains(i) && !u1.contains(i) && in_block(i, b[i], x));
                }
            }
            assert(self.free_frames() =~= f0.union(blk));
        }
    }

    /// Puts the pending block at `page` on the free list of its rank.
    fn push_free(&mut self, page: usize)
        requires
            old(self).wf_pending(Some(page as int)),
        ensures
            final(self).wf(),
            final(self).base == old(self).base,
            final(self).top == old(self).top,
            final(self).blocks == old(self).blocks,
            final(self).inuse == old(self).inuse,
            final(self).table == old(self).table,
    {
        let ghost b = self.blocks@;
        let ghost fl0 = self.free_list@;
        proof { lemma_psize(b[page as int]); }
        let rank = self.table.pages[page].rank();
        let mut lst = self.free_list.remove(rank);
        assert(lst@ == fl0[rank as int]@);
        lst.push(page);
        self.free_list.insert(rank, lst);
        proof {
            let p = page as int;
            let u = self.inuse@;
            let n = fl0[rank as int]@.len() as int;
            assert(self.free_list@ == fl0.update(rank as int, lst));
            assert forall|rk: int, i: int| 0 <= rk <= MAX_RANK && 0 <= i < self.free_list@[rk]@.len() implies {
                let h = #[trigger] self.free_list@[rk]@[i] as int;
                &&& b.dom().contains(h)
                &&& b[h] == rk
                &&& !u.contains(h)
                &&& None::<int> != Some(h)
            } by {
                if !(rk == rank && i == n) {
                    assert(self.free_list@[rk]@[i] == fl0[rk]@[i]);
                }
            }
            assert forall|rk: int, i: int, j: int| 0 <= rk <= MAX_RANK && 0 <= i < j < self.free_list@[rk]@.len() implies
                #[trigger] self.free_list@[rk]@[i] != #[trigger] self.free_list@[rk]@[j] by {
                assert(self.free_list@[rk]@[i] == fl0[rk]@[i]);
                if !(rk == rank && j == n) {
                    assert(self.free_list@[rk]@[j] == fl0[rk]@[j]);
                } else {
                    assert(Some(p) != Some(fl0[rk]@[i] as int));
                }
            }
            assert forall|h: int| #[trigger] b.dom().contains(h) && !u.contains(h) && None::<int> != Some(h) implies
                self.free_list@[b[h]]@.contains(h as usize) by {
                if h == p {
                    assert(self.free_list@[rank as int]@[n] == page);
                } else {
                    let i = choose|i: int| 0 <= i < fl0[b[h]]@.len() && fl0[b[h]]@[i] == h as usize;
                    assert(self.free_list@[b[h]]@[i] == h as usize);
                }
            }
        }
    }

    /// Gives back the block that `alloc_page` handed out at the linear-map address `ptr`,
    /// merging it with its buddy for as long as the buddy is a free block of the same rank.
    pub fn free_page(&mut self, ptr: usize)
        requires
            old(self).wf(),
            old(self).allocated().dom().contains(page_index(ptr as int)),
        ensures
            final(self).wf(),
            free_outcome(*old(self), *final(self), ptr),
            old(self).merged() ==> final(self).merged(),
    {
        let idx = self.table.ptr_to_metapage(ptr);
        let ghost before = *self;
        self.mark_free(idx);
        proof {
            if old(self).merged() {
                assert forall|h: int| #[trigger] self.free_at(h, self.blocks@[h]) && self.blocks@[h] < MAX_RANK
                    && h != idx as int implies buddy_of(h, self.blocks@[h]) == idx as int
                    || !self.free_at(buddy_of(h, self.blocks@[h]), self.blocks@[h]) by {
                    assert(before.free_at(h, before.blocks@[h]));
                }
            }
        }
        let ghost fr = self.free_frames();
        let ghost al = self.allocated();
        let mut page = idx;
        loop
            invariant
                self.wf_pending(Some(page as int)),
                self.blocks@.dom().contains(page as int),
                self.free_frames() == fr,
                self.allocated() == al,
                self.base == old(self).base,
                self.top == old(self).top,
                old(self).merged() ==> self.merged_but(page as int),
            ensures
                self.wf_pending(Some(page as int)),
                self.free_frames() == fr,
                self.allocated() == al,
                self.base == old(self).base,
                self.top == old(self).top,
                old(self).merged() ==> self.merged(),
            decreases MAX_RANK - self.blocks@[page as int],
        {
            match self.get_free_buddy(page) {
                Some(bd) => {
                    let ghost s0 = *self;
                    let ghost p0 = page as int;
                    page = self.merge_with_buddy(page, bd);
                    proof {
                        if old(self).merged() {
                            let l = page as int;
                            assert forall|h: int| #[trigger] self.free_at(h, self.blocks@[h]) && self.blocks@[h] < MAX_RANK
                                && h != l implies buddy_of(h, self.blocks@[h]) == l
                                || !self.free_at(buddy_of(h, self.blocks@[h]), self.blocks@[h]) by {
                                assert(s0.blocks@.dom().contains(h) && h != p0 && h != bd as int);
                                assert(s0.free_at(h, s0.blocks@[h]));
                            }
                        }
                    }
                },
                None => {
                    proof {
                        if old(self).merged() {
                            self.lemma_merged_at(page as int);
                        }
                    }
                    break;
                },
            }
        }
        let ghost s1 = *self;
        self.push_free(page);
        proof {
            if old(self).merged() {
                assert forall|h: int| #[trigger] self.free_at(h, self.blocks@[h]) && self.blocks@[h] < MAX_RANK implies
                    !self.free_at(buddy_of(h, self.blocks@[h]), self.blocks@[h]) by {
                    assert(s1.free_at(h, s1.blocks@[h]));
                }
            }
        }
    }

    /// Every block in use and every free frame lies in the managed span.
    pub proof fn lemma_in_span(&self)
        requires
            self.wf(),
        ensures
            self.free_frames().subset_of(self.span()),
            forall|p: int| #[trigger] self.span().contains(p) ==> 0 <= p,
            forall|h: int| #[trigger] self.allocated().dom().contains(h) ==>
                block_frames(h, self.allocated()[h]).subset_of(self.span())
                && block_frames(h, self.allocated()[h]).contains(h),
    {
        let b = self.blocks@;
        let u = self.inuse@;
        assert forall|h: int| #[trigger] self.allocated().dom().contains(h) implies
            block_frames(h, self.allocated()[h]).contains(h) by {
            lemma_psize(b[h]);
        }
        assert forall|x: int| self.free_frames().contains(x) implies self.span().contains(x) by {
            let h = choose|h: int| #[trigger] b.dom().contains(h) && !u.contains(h) && in_block(h, b[h], x);
        }
    }

    /// The free frames are finitely many; while any is left, a page can be handed out.
    pub proof fn lemma_free_frames_count(&self)
        requires
            self.wf(),
        ensures
            self.free_frames().finite(),
            self.free_frames().len() > 0 ==> self.can_serve(0),
    {
        self.lemma_in_span();
        vstd::set_lib::lemma_int_range(self.base as int, self.top as int);
        assert(self.span() =~= vstd::set_lib::set_int_range(self.base as int, self.top as int));
        vstd::set_lib::lemma_set_subset_finite(self.span(), self.free_frames());
        if self.free_frames().len() > 0 {
            if forall|x: int| !self.free_frames().contains(x) {
                assert(self.free_frames() =~= Set::<int>::empty());
            }
            let x = choose|x: int| self.free_frames().contains(x);
            let b = self.blocks@;
            let u = self.inuse@;
            let h = choose|h: int| #[trigger] b.dom().contains(h) && !u.contains(h) && in_block(h, b[h], x);
            assert(self.free_list@[b[h]]@.contains(h as usize));
            assert(self.lists()[b[h]].len() > 0);
        }
    }

    /// Two different blocks in use share no frame.
    pub proof fn lemma_used_blocks_apart(&self, g: int, h: int)
        requires
            self.wf(),
            self.allocated().dom().contains(g),
            self.allocated().dom().contains(h),
            g != h,
        ensures
            block_frames(g, self.allocated()[g]).disjoint(block_frames(h, self.allocated()[h])),
    {
        let b = self.blocks@;
        assert(b.dom().contains(g) && b.dom().contains(h));
        assert(g + psize(b[g]) <= h || h + psize(b[h]) <= g);
    }

    /// No frame of a block in use is free.
    pub proof fn lemma_allocated_not_free(&self, h: int)
        requires
            self.wf(),
            self.allocated().dom().contains(h),
        ensures
            block_frames(h, self.allocated()[h]).disjoint(self.free_frames()),
    {
        let b = self.blocks@;
        let u = self.inuse@;
        assert forall|x: int| block_frames(h, b[h]).contains(x) implies !self.free_frames().contains(x) by {
            if self.free_frames().contains(x) {
                let g = choose|g: int| #[trigger] b.dom().contains(g) && !u.contains(g) && in_block(g, b[g], x);
                assert(g != h);
                assert(h + psize(b[h]) <= g || g + psize(b[g]) <= h);
            }
        }
    }
}

/// A block that an allocation hands out shares no frame with any block that was in use.
pub proof fn lemma_alloc_no_overlap(a: BuddyAllocator, b: BuddyAllocator, rank: usize, addr: usize, h: int)
    requires
        a.wf(),
        alloc_outcome(a, b, rank, Ok(addr)),
        a.allocated().dom().contains(h),
    ensures
        block_frames(page_index(addr as int), rank as int).disjoint(block_frames(h, a.allocated()[h])),
{
    let k = choose|k: int| rank <= k <= MAX_RANK && {
        let idx = (#[trigger] a.lists()[k]).last() as int;
        &&& a.lists()[k].len() > 0
        &&& forall|j: int| rank <= j < k ==> #[trigger] a.lists()[j].len() == 0
        &&& addr == page_addr(idx)
        &&& page_index(addr as int) == idx
        &&& block_aligned(idx, rank as int)
        &&& block_frames(idx, rank as int).subset_of(a.free_frames())
        &&& b.allocated() == a.allocated().insert(idx, rank as int)
        &&& b.free_frames() == a.free_frames().difference(block_frames(idx, rank as int))
    };
    a.lemma_allocated_not_free(h);
}

/// Giving back the block that an allocation handed out restores the allocator: the same
/// blocks are in use and the same frames are free as before the allocation.
pub proof fn lemma_free_undoes_alloc(a: &BuddyAllocator, b: &BuddyAllocator, c: &BuddyAllocator, idx: int, rank: int)
    requires
        a.wf(),
        0 <= rank,
        block_frames(idx, rank).subset_of(a.free_frames()),
        b.allocated() == a.allocated().insert(idx, rank),
        b.free_frames() == a.free_frames().difference(block_frames(idx, rank)),
        c.allocated() == b.allocated().remove(idx),
        c.free_frames() == b.free_frames().union(block_frames(idx, b.allocated()[idx])),
    ensures
        c.allocated() == a.allocated(),
        c.free_frames() == a.free_frames(),
{
    lemma_psize(rank);
    if a.allocated().dom().contains(idx) {
        a.lemma_allocated_not_free(idx);
        lemma_psize(a.allocated()[idx]);
        assert(block_frames(idx, a.allocated()[idx]).contains(idx));
        assert(block_frames(idx, rank).contains(idx));
    }
    assert(c.allocated() =~= a.allocated());
    assert(c.free_frames() =~= a.free_frames());
}

/// A page handed out leaves one free frame fewer; a failed request leaves them all.
pub proof fn lemma_alloc_page_count(a: BuddyAllocator, b: BuddyAllocator, r: Result<usize, ()>)
    requires
        a.wf(),
        alloc_outcome(a, b, 0, r),
    ensures
        r is Ok ==> b.free_frames().len() + 1 == a.free_frames().len(),
        r is Err ==> b.free_frames() == a.free_frames(),
{
    a.lemma_free_frames_count();
    if r is Ok {
        let addr = r->Ok_0;
        let rank = choose|rank: int| 0 <= rank <= MAX_RANK && {
            let idx = (#[trigger] a.lists()[rank]).last() as int;
            &&& a.lists()[rank].len() > 0
            &&& forall|k: int| 0 <= k < rank ==> #[trigger] a.lists()[k].len() == 0
            &&& addr == page_addr(idx)
            &&& page_index(addr as int) == idx
            &&& block_aligned(idx, 0)
            &&& block_frames(idx, 0).subset_of(a.free_frames())
            &&& b.allocated() == a.allocated().insert(idx, 0)
            &&& b.free_frames() == a.free_frames().difference(block_frames(idx, 0))
        };
        let idx = a.lists()[rank].last() as int;
        vstd::arithmetic::power2::lemma2_to64();
        assert(psize(0) == 1);
        assert(block_frames(idx, 0) =~= set![idx]);
        assert(a.free_frames().difference(block_frames(idx, 0)) =~= a.free_frames().remove(idx));
    }
}

} // verus!
