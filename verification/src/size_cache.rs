use vstd::prelude::*;
use vstd::arithmetic::power2::pow2;
use vstd::layout::size_of;
use std::marker::PhantomData;
use crate::constant::PAGE_SIZE;
use crate::util::{size_to_rank, bit_len, lemma_bit_len_above};
use crate::buddy_allocator::alloc_outcome;
use crate::buddy_math::psize;
use crate::page_allocator::{PageAllocator, GFP, lemma_normal_block_fits};
use crate::cache::{Error, FreeNode, FreeList, align_with_hw_cache, insert_seq, insert_pos, covered, sorted, nodes_wf};

verus! {

/// What is left of `n` after its first `bytes` bytes are taken.
pub open spec fn remainder(n: FreeNode, bytes: int) -> Option<FreeNode> {
    if bytes < n.bytes {
        Some(FreeNode { addr: (n.addr + bytes) as usize, bytes: (n.bytes - bytes) as usize })
    } else {
        None
    }
}

/// `s` with `o` inserted when there is one.
pub open spec fn insert_opt(s: Seq<FreeNode>, o: Option<FreeNode>) -> Seq<FreeNode> {
    match o {
        Some(n) => insert_seq(s, n),
        None => s,
    }
}

/// Rank of the block that holds `count` pages.
pub open spec fn pages_rank(count: int) -> usize {
    bit_len((count - 1) as nat) as usize
}

/// The first node of `s` of at least `bytes` bytes is at `i`.
pub open spec fn first_fit(s: Seq<FreeNode>, bytes: int, i: int) -> bool {
    &&& 0 <= i < s.len()
    &&& s[i].bytes >= bytes
    &&& forall|j: int| 0 <= j < i ==> (#[trigger] s[j]).bytes < bytes
}

/// Some node of `s` has at least `bytes` bytes.
pub open spec fn has_fit(s: Seq<FreeNode>, bytes: int) -> bool {
    exists|i: int| 0 <= i < s.len() && (#[trigger] s[i]).bytes >= bytes
}

/// What carving `bytes` bytes for an allocation leaves and returns: the first node of at
/// least `bytes` bytes is handed out when there is one, else a fresh run of `count`
/// pages from the normal zone; what is left of the chunk goes back on the list.
pub open spec fn carve_outcome(
    s0: Seq<FreeNode>, s1: Seq<FreeNode>, pc0: usize, pc1: usize,
    p0: PageAllocator, p1: PageAllocator, bytes: int, count: int, r: Result<usize, Error>,
) -> bool {
    if has_fit(s0, bytes) {
        exists|i: int| #[trigger] first_fit(s0, bytes, i) && {
            &&& r == Ok::<usize, Error>(s0[i].addr)
            &&& s1 == insert_opt(s0.remove(i), remainder(s0[i], bytes))
            &&& pc1 == pc0
            &&& p1 == p0
        }
    } else {
        &&& p1.high() == p0.high()
        &&& alloc_outcome(p0.normal(), p1.normal(), pages_rank(count),
                match r { Ok(a) => Ok::<usize, ()>(a), Err(_) => Err::<usize, ()>(()) })
        &&& match r {
            Ok(a) => {
                &&& s1 == insert_opt(s0, remainder(FreeNode { addr: a, bytes: (count * PAGE_SIZE) as usize }, bytes))
                &&& pc1 == pc0 + count
            },
            Err(_) => s1 == s0 && pc1 == pc0,
        }
    }
}

/// Takes a run of `count` pages from the normal zone.
fn alloc_pages(pages: &mut PageAllocator, count: usize) -> (r: Result<usize, ()>)
    requires
        old(pages).wf(),
        1 <= count,
        count * PAGE_SIZE <= usize::MAX,
    ensures
        final(pages).wf(),
        final(pages).high() == old(pages).high(),
        alloc_outcome(old(pages).normal(), final(pages).normal(), pages_rank(count as int), r),
        r matches Ok(a) ==> a + count * PAGE_SIZE <= usize::MAX,
        old(pages).merged() ==> final(pages).merged(),
{
    let rank = size_to_rank(count * PAGE_SIZE);
    assert(((count * PAGE_SIZE - 1) / PAGE_SIZE as int) == count - 1) by (nonlinear_arith)
        requires count >= 1;
    let r = pages.alloc_page(rank, GFP::Normal);
    proof {
        if let Ok(a) = r {
            lemma_normal_block_fits(old(pages).normal(), final(pages).normal(), rank, a);
            lemma_bit_len_above((count - 1) as nat);
            assert(psize(rank as int) >= count);
            assert(psize(rank as int) * PAGE_SIZE >= count * PAGE_SIZE) by (nonlinear_arith)
                requires psize(rank as int) >= count;
        }
    }
    r
}

/// Hands out `bytes` bytes from `list`, taking `count` fresh pages when no node is large
/// enough, and returns the address of the chunk.
fn carve(list: &mut FreeList, page_count: &mut usize, pages: &mut PageAllocator, bytes: usize, count: usize)
    -> (r: Result<usize, Error>)
    requires
        old(list).wf(),
        old(pages).wf(),
        1 <= count,
        count * PAGE_SIZE <= usize::MAX,
        *old(page_count) + count <= usize::MAX,
    ensures
        final(list).wf(),
        final(pages).wf(),
        carve_outcome(old(list)@, final(list)@, *old(page_count), *final(page_count),
            *old(pages), *final(pages), bytes as int, count as int, r),
        old(pages).merged() ==> final(pages).merged(),
{
    let ghost s0 = list@;
    let ghost mut idx: int = 0;
    let found = list.remove_if(|n: &FreeNode| -> (b: bool) ensures b == (n.bytes >= bytes) { n.bytes >= bytes });
    let node = match found {
        Some(n) => {
            proof {
                idx = choose|i: int| 0 <= i < s0.len() && s0[i] == n
                    && (n.bytes >= bytes) && (forall|j: int| 0 <= j < i ==> !(s0[j].bytes >= bytes))
                    && list@ == s0.remove(i);
                assert(first_fit(s0, bytes as int, idx));
                assert(s0[idx].wf());
            }
            n
        },
        None => {
            proof {
                assert(!has_fit(s0, bytes as int));
            }
            match alloc_pages(pages, count) {
                Ok(addr) => {
                    *page_count = *page_count + count;
                    FreeNode::construct_at(addr, count * PAGE_SIZE)
                },
                Err(_) => {
                    return Err(Error::Alloc);
                },
            }
        },
    };
    let rest = node.alloc_bytes(bytes);
    match rest {
        Some(rem) => {
            list.insert(rem);
        },
        None => {},
    }
    proof {
        if has_fit(s0, bytes as int) {
            assert(first_fit(s0, bytes as int, idx));
        }
    }
    Ok(node.addr)
}

/// A node of at least a page.
pub open spec fn is_big(n: FreeNode) -> bool {
    n.bytes >= PAGE_SIZE
}

pub open spec fn is_small(n: FreeNode) -> bool {
    n.bytes < PAGE_SIZE
}

/// Every node has at least a page.
pub open spec fn all_big(s: Seq<FreeNode>) -> bool {
    forall|i: int| 0 <= i < s.len() ==> is_big(#[trigger] s[i])
}

proof fn lemma_merge_keeps_big(s: Seq<FreeNode>, i: int)
    requires
        all_big(s),
        nodes_wf(s),
    ensures
        all_big(crate::cache::merge_around(s, i)),
{
    let t = crate::cache::merge_next(s, i);
    assert(all_big(t)) by {
        if t != s {
            assert forall|k: int| 0 <= k < t.len() implies is_big(#[trigger] t[k]) by {
                if k < i { assert(t[k] == s[k]); } else if k > i { assert(t[k] == s[k + 1]); }
                else { assert(s[i].wf() && s[i + 1].wf()); }
            }
        }
    }
    let u = crate::cache::merge_prev(t, i);
    if u != t {
        assert(t[i - 1].bytes + t[i].bytes <= usize::MAX) by {
            if t == s {
                assert(s[i].wf());
            } else {
                assert(t[i - 1] == s[i - 1]);
                assert(s[i + 1].wf());
            }
        }
        assert forall|k: int| 0 <= k < u.len() implies is_big(#[trigger] u[k]) by {
            if k < i - 1 { assert(u[k] == t[k]); } else if k >= i { assert(u[k] == t[k + 1]); }
        }
    }
}

/// Inserting a node of at least a page into nodes of at least a page leaves only such nodes.
proof fn lemma_insert_keeps_big(s: Seq<FreeNode>, n: FreeNode)
    requires
        all_big(s),
        sorted(s),
        nodes_wf(s),
        n.wf(),
        is_big(n),
    ensures
        all_big(insert_seq(s, n)),
{
    if s.len() > 0 {
        let i = insert_pos(s, n.addr);
        crate::cache::lemma_insert_pos_exists(s, n.addr);
        let t = s.insert(i, n);
        assert(all_big(t) && nodes_wf(t)) by {
            assert forall|k: int| 0 <= k < t.len() implies is_big(#[trigger] t[k]) && t[k].wf() by {
                if k < i { assert(t[k] == s[k]); } else if k > i { assert(t[k] == s[k - 1]); }
            }
        }
        lemma_merge_keeps_big(t, i);
    }
}

/// The nodes of at least a page, in order.
pub open spec fn big_nodes(s: Seq<FreeNode>) -> Seq<FreeNode> {
    s.filter(|n: FreeNode| is_big(n))
}

/// The nodes of less than a page, in order.
pub open spec fn small_nodes(s: Seq<FreeNode>) -> Seq<FreeNode> {
    s.filter(|n: FreeNode| is_small(n))
}

proof fn lemma_split_step(s: Seq<FreeNode>, n: FreeNode)
    ensures
        big_nodes(s.push(n)) == if is_big(n) { big_nodes(s).push(n) } else { big_nodes(s) },
        small_nodes(s.push(n)) == if is_small(n) { small_nodes(s).push(n) } else { small_nodes(s) },
{
    reveal(Seq::filter);
    assert(s.push(n).drop_last() =~= s);
    assert(s.push(n).last() == n);
}

/// The nodes of `s` inserted one by one, in order, into `acc`.
pub open spec fn insert_all(acc: Seq<FreeNode>, s: Seq<FreeNode>) -> Seq<FreeNode>
    decreases s.len(),
{
    if s.len() == 0 {
        acc
    } else {
        insert_seq(insert_all(acc, s.drop_last()), s.last())
    }
}

/// A node of at least a page cut at its page boundaries: the part before the first whole
/// page, the address and number of the whole pages, and the part after them.
pub open spec fn shrunk(n: FreeNode) -> (FreeNode, usize, usize, Option<FreeNode>) {
    let a = n.addr as int;
    let head = if a % PAGE_SIZE as int > 0 { PAGE_SIZE - a % PAGE_SIZE as int } else { 0 };
    let count = (n.bytes - head) / PAGE_SIZE as int;
    let tail = a + head + PAGE_SIZE * count;
    (
        FreeNode { addr: n.addr, bytes: head as usize },
        (a + head) as usize,
        count as usize,
        if n.end() - tail > 0 { Some(FreeNode { addr: tail as usize, bytes: (n.end() - tail) as usize }) } else { None },
    )
}

/// `fl` after the parts of `n` around its whole pages go back on it.
pub open spec fn shrink_step(fl: Seq<FreeNode>, n: FreeNode) -> Seq<FreeNode> {
    let f1 = insert_opt(fl, shrunk(n).3);
    if shrunk(n).0.bytes > 0 { insert_seq(f1, shrunk(n).0) } else { f1 }
}

pub open spec fn shrink_all(fl: Seq<FreeNode>, big: Seq<FreeNode>) -> Seq<FreeNode>
    decreases big.len(),
{
    if big.len() == 0 {
        fl
    } else {
        shrink_step(shrink_all(fl, big.drop_last()), big.last())
    }
}

/// The runs of whole pages cut out of the nodes of `big`.
pub open spec fn released(big: Seq<FreeNode>) -> Seq<(usize, usize)> {
    big.map_values(|n: FreeNode| (shrunk(n).1, shrunk(n).2))
}

/// The list that shrinking leaves, and the runs of pages it gives up.
pub open spec fn shrink_result(s: Seq<FreeNode>) -> (Seq<FreeNode>, Seq<(usize, usize)>) {
    let big = insert_all(Seq::empty(), big_nodes(s));
    let small = insert_all(Seq::empty(), small_nodes(s));
    (shrink_all(small, big), released(big))
}

/// Gives up the whole pages of the free chunks: the chunks of at least a page are cut at
/// their page boundaries, what lies around the whole pages stays on the list, and the
/// runs of whole pages are returned, each as its address and number of pages.
pub fn shrink_list(list: &mut FreeList) -> (r: Vec<(usize, usize)>)
    requires
        old(list).wf(),
    ensures
        final(list).wf(),
        final(list)@ == shrink_result(old(list)@).0,
        r@ == shrink_result(old(list)@).1,
{
    let ghost s = list@;
    let nodes = list.iter();
    let mut big = FreeList::new();
    let mut small = FreeList::new();
    let mut k: usize = 0;
    while k < nodes.len()
        invariant
            nodes@ == s,
            sorted(s),
            nodes_wf(s),
            k <= s.len(),
            big.wf(),
            small.wf(),
            big@ == insert_all(Seq::empty(), big_nodes(s.take(k as int))),
            all_big(big@),
            small@ == insert_all(Seq::empty(), small_nodes(s.take(k as int))),
        decreases s.len() - k,
    {
        let n = nodes[k];
        let ghost pre = s.take(k as int);
        let ghost cur = s.take(k + 1);
        assert(cur.drop_last() =~= pre);
        assert(cur.last() == n);
        assert(s[k as int].wf());
        let ghost b0 = big_nodes(pre);
        let ghost m0 = small_nodes(pre);
        if n.bytes >= PAGE_SIZE {
            proof { lemma_split_step(pre, n); }
            assert(cur =~= pre.push(n));
            assert(b0.push(n).drop_last() =~= b0);
            proof { lemma_insert_keeps_big(big@, n); }
            big.insert(n);
        } else {
            proof { lemma_split_step(pre, n); }
            assert(cur =~= pre.push(n));
            assert(m0.push(n).drop_last() =~= m0);
            small.insert(n);
        }
        k = k + 1;
    }
    assert(s.take(s.len() as int) =~= s);
    *list = small;
    let sat = big.iter();
    let mut out: Vec<(usize, usize)> = Vec::new();
    let mut j: usize = 0;
    while j < sat.len()
        invariant
            sat@ == big@,
            big.wf(),
            j <= sat@.len(),
            list.wf(),
            list@ == shrink_all(small@, sat@.take(j as int)),
            out@ == released(sat@.take(j as int)),
            all_big(sat@),
        decreases sat@.len() - j,
    {
        let mut node = sat[j];
        assert(sat@.take(j + 1).drop_last() =~= sat@.take(j as int));
        assert(sat@.take(j + 1).last() == node);
        assert(big@[j as int].wf());
        let (ptr, count, extra) = node.shrink();
        match extra {
            Some(e) => {
                list.insert(e);
            },
            None => {},
        }
        if node.bytes > 0 {
            list.insert(node);
        }
        out.push((ptr, count));
        assert(out@ =~= released(sat@.take(j + 1)));
        j = j + 1;
    }
    assert(sat@.take(sat@.len() as int) =~= sat@);
    out
}

/// Bytes of a slot for objects of `n` bytes: whole 64-byte cache lines.
pub open spec fn line_size(n: int) -> int {
    if n % 64 == 0 { n } else { 64 * (n / 64 + 1) }
}

/// Cache of equal slots of `N` bytes, rounded up to whole cache lines, carved from pages
/// of the normal zone.
pub struct SizeCache<const N: usize> {
    free_list: FreeList,
    page_count: usize,
}

impl<const N: usize> SizeCache<N> {
    /// Bytes of one slot.
    pub open spec fn slot() -> int {
        line_size(N as int)
    }

    /// Pages taken for a slot when no free chunk holds one.
    pub open spec fn slot_pages() -> int {
        Self::slot() / PAGE_SIZE as int + 1
    }

    /// The free chunks, in order of address.
    pub closed spec fn free(&self) -> Seq<FreeNode> {
        self.free_list@
    }

    /// Pages taken from the page allocator so far.
    pub closed spec fn pages(&self) -> usize {
        self.page_count
    }

    pub closed spec fn wf(&self) -> bool {
        self.free_list.wf()
    }

    pub fn new() -> (c: Self)
        ensures
            c.wf(),
            c.free() == Seq::<FreeNode>::empty(),
            c.pages() == 0,
    {
        SizeCache { free_list: FreeList::new(), page_count: 0 }
    }

    /// The free list.
    pub fn free_list(&self) -> (l: &FreeList)
        ensures
            l@ == self.free(),
    {
        &self.free_list
    }

    /// Number of pages taken from the page allocator.
    pub fn page_count(&self) -> (n: usize)
        ensures
            n == self.pages(),
    {
        self.page_count
    }

    /// Hands out a slot: the start of the first free chunk that holds one, or of a fresh
    /// run of pages; the rest of the chunk stays free.
    pub fn allocate(&mut self, pages: &mut PageAllocator) -> (r: Result<usize, Error>)
        requires
            old(self).wf(),
            old(pages).wf(),
            Self::slot_pages() * PAGE_SIZE <= usize::MAX,
            old(self).pages() + Self::slot_pages() <= usize::MAX,
        ensures
            final(self).wf(),
            final(pages).wf(),
            carve_outcome(old(self).free(), final(self).free(), old(self).pages(), final(self).pages(),
                *old(pages), *final(pages), Self::slot(), Self::slot_pages(), r),
            old(pages).merged() ==> final(pages).merged(),
    {
        let size = align_with_hw_cache(N);
        let count = size / PAGE_SIZE + 1;
        carve(&mut self.free_list, &mut self.page_count, pages, size, count)
    }

    /// Some free chunk holds the byte at `ptr`.
    pub fn is_free(&self, ptr: usize) -> (r: bool)
        requires
            self.wf(),
        ensures
            r == covered(self.free()).contains(ptr as int),
    {
        self.free_list.check_double_free(ptr)
    }

    /// Takes back the slot at `ptr`.
    pub fn dealloc(&mut self, ptr: usize)
        requires
            old(self).wf(),
            N + 64 <= usize::MAX,
            0 < N,
            ptr + Self::slot() <= usize::MAX,
            !covered(old(self).free()).contains(ptr as int),
        ensures
            final(self).wf(),
            final(self).pages() == old(self).pages(),
            final(self).free() == insert_seq(old(self).free(), FreeNode { addr: ptr, bytes: Self::slot() as usize }),
    {
        let size = align_with_hw_cache(N);
        let node = FreeNode::construct_at(ptr, size);
        self.free_list.insert(node);
    }

    /// Gives up the whole pages of the free chunks and returns their runs, each as the
    /// address of its first page and its number of pages.
    pub fn cache_shrink(&mut self) -> (r: Vec<(usize, usize)>)
        requires
            old(self).wf(),
        ensures
            final(self).wf(),
            final(self).pages() == old(self).pages(),
            final(self).free() == shrink_result(old(self).free()).0,
            r@ == shrink_result(old(self).free()).1,
    {
        shrink_list(&mut self.free_list)
    }
}

/// Pages that hold `bytes` bytes.
pub open spec fn pages_for(bytes: int) -> int {
    bytes / PAGE_SIZE as int + if bytes % PAGE_SIZE as int > 0 { 1int } else { 0 }
}

/// Cache of arrays of objects of type `T`, each rounded up to whole cache lines, carved
/// from pages of the normal zone.
pub struct ObjCache<T> {
    free_list: FreeList,
    page_count: usize,
    phantom: PhantomData<T>,
}

impl<T> ObjCache<T> {
    /// Bytes taken by an array of `count` objects.
    pub open spec fn array_bytes(count: int) -> int {
        line_size(size_of::<T>() * count)
    }

    /// The free chunks, in order of address.
    pub closed spec fn free(&self) -> Seq<FreeNode> {
        self.free_list@
    }

    /// Pages taken from the page allocator so far.
    pub closed spec fn pages(&self) -> usize {
        self.page_count
    }

    pub closed spec fn wf(&self) -> bool {
        self.free_list.wf()
    }

    pub fn new() -> (c: Self)
        ensures
            c.wf(),
            c.free() == Seq::<FreeNode>::empty(),
            c.pages() == 0,
    {
        ObjCache { free_list: FreeList::new(), page_count: 0, phantom: PhantomData }
    }

    /// The free list.
    pub fn free_list(&self) -> (l: &FreeList)
        ensures
            l@ == self.free(),
    {
        &self.free_list
    }

    /// Number of pages taken from the page allocator.
    pub fn page_count(&self) -> (n: usize)
        ensures
            n == self.pages(),
    {
        self.page_count
    }

    /// Hands out room for `count` objects: the start of the first free chunk that holds
    /// them, or of a fresh run of pages; the rest of the chunk stays free.
    pub fn allocate(&mut self, count: usize, pages: &mut PageAllocator) -> (r: Result<usize, Error>)
        requires
            old(self).wf(),
            old(pages).wf(),
            0 < count,
            0 < size_of::<T>(),
            size_of::<T>() * count + 64 <= usize::MAX,
            pages_for(Self::array_bytes(count as int)) * PAGE_SIZE <= usize::MAX,
            old(self).pages() + pages_for(Self::array_bytes(count as int)) <= usize::MAX,
        ensures
            final(self).wf(),
            final(pages).wf(),
            carve_outcome(old(self).free(), final(self).free(), old(self).pages(), final(self).pages(),
                *old(pages), *final(pages), Self::array_bytes(count as int),
                pages_for(Self::array_bytes(count as int)), r),
            old(pages).merged() ==> final(pages).merged(),
    {
        let obj = core::mem::size_of::<T>();
        assert(obj * count >= count) by (nonlinear_arith) requires obj >= 1, count >= 1;
        let bytes = align_with_hw_cache(obj * count);
        let extra: usize = if bytes % PAGE_SIZE > 0 { 1 } else { 0 };
        let n = bytes / PAGE_SIZE + extra;
        carve(&mut self.free_list, &mut self.page_count, pages, bytes, n)
    }

    /// Takes back the room for `count` objects at `ptr`.
    pub fn dealloc(&mut self, ptr: usize, count: usize)
        requires
            old(self).wf(),
            0 < count,
            0 < size_of::<T>(),
            size_of::<T>() * count + 64 <= usize::MAX,
            ptr + Self::array_bytes(count as int) <= usize::MAX,
            !covered(old(self).free()).contains(ptr as int),
        ensures
            final(self).wf(),
            final(self).pages() == old(self).pages(),
            final(self).free() == insert_seq(old(self).free(),
                FreeNode { addr: ptr, bytes: Self::array_bytes(count as int) as usize }),
    {
        let obj = core::mem::size_of::<T>();
        assert(obj * count >= count) by (nonlinear_arith) requires obj >= 1, count >= 1;
        let bytes = align_with_hw_cache(obj * count);
        let node = FreeNode::construct_at(ptr, bytes);
        self.free_list.insert(node);
    }

    /// Gives up the whole pages of the free chunks and returns their runs, each as the
    /// address of its first page and its number of pages.
    pub fn cache_shrink(&mut self) -> (r: Vec<(usize, usize)>)
        requires
            old(self).wf(),
        ensures
            final(self).wf(),
            final(self).pages() == old(self).pages(),
            final(self).free() == shrink_result(old(self).free()).0,
            r@ == shrink_result(old(self).free()).1,
    {
        shrink_list(&mut self.free_list)
    }
}

} // verus!
