use vstd::prelude::*;
use vstd::arithmetic::power2::pow2;
use crate::meta::{MetaData, mapped_mask, field_of, rank_range, inuse_range, lemma_field_set_get};
use crate::util::{rank_to_pages, addr_to_pfn, virt_to_phys, phys_to_virt, pfn_to_addr, spec_virt_to_phys};
use crate::constant::PAGE_SIZE;

verus! {

/// Metadata of one page frame, linked into a circular list through the indices of
/// its neighbours in the table of all page frames.
#[derive(Clone, Copy, Debug, PartialEq, Eq, Structural)]
pub struct MetaPage {
    pub prev: usize,
    pub next: usize,
    pub data: MetaData,
}

impl MetaPage {
    /// The page, whose own frame index is `index`, is alone in its list.
    pub fn empty(&self, index: usize) -> (r: bool)
        ensures
            r == (self.next == index),
    {
        self.next == index
    }

    /// A page alone in its list, unmapped, with rank 0 and not in use.
    pub fn construct_at(index: usize) -> (p: MetaPage)
        ensures
            p.prev == index,
            p.next == index,
            p.data.bits == 0,
    {
        MetaPage { prev: index, next: index, data: MetaData::new_unmapped() }
    }

    pub open spec fn spec_inuse(self) -> bool {
        field_of(self.data.bits, inuse_range()) != 0
    }

    pub open spec fn spec_rank(self) -> usize {
        field_of(self.data.bits, rank_range())
    }

    pub fn set_inuse(&mut self, value: bool)
        ensures
            final(self).spec_inuse() == value,
            final(self).spec_rank() == old(self).spec_rank(),
            final(self).data.bits & mapped_mask() == old(self).data.bits & mapped_mask(),
            final(self).prev == old(self).prev,
            final(self).next == old(self).next,
    {
        let bits: usize = if value { 1 } else { 0 };
        let old_bits = self.data.bits;
        self.data.set_flag(MetaData::inuse_range(), bits);
        proof {
            assert((1usize << 1usize) == 2usize) by (bit_vector);
            lemma_field_set_get(self.data.bits, inuse_range(), bits);
            lemma_fields_independent(old_bits, self.data.bits);
        }
    }

    pub fn inuse(&self) -> (r: bool)
        ensures
            r == self.spec_inuse(),
    {
        self.data.get_flag(MetaData::inuse_range()) != 0
    }

    /// The in-use flag.
    pub fn is_inuse(&self) -> (r: bool)
        ensures
            r == self.spec_inuse(),
    {
        self.inuse()
    }

    /// Sets the rank; ranks are kept in four bits, so only the low four bits of `rank`
    /// are kept.
    pub fn set_rank(&mut self, rank: usize)
        ensures
            final(self).spec_rank() == rank % 16,
            final(self).spec_inuse() == old(self).spec_inuse(),
            final(self).data.bits & mapped_mask() == old(self).data.bits & mapped_mask(),
            final(self).prev == old(self).prev,
            final(self).next == old(self).next,
    {
        let old_bits = self.data.bits;
        self.data.set_flag(MetaData::rank_range(), rank);
        proof {
            let v = self.data.bits;
            assert(rank_range().spec_mask() == 0x1eusize) by {
                assert(((1usize << 5u32) - 1) as usize & !(((1usize << 1u32) - 1) as usize) == 0x1eusize) by (bit_vector);
            }
            assert((v & 0x1eusize) >> 1usize == rank % 16) by (bit_vector)
                requires v & 0x1eusize == (rank << 1usize) & 0x1eusize;
            lemma_rank_change_keeps(old_bits, self.data.bits);
        }
    }

    pub fn rank(&self) -> (r: usize)
        ensures
            r == self.spec_rank(),
            r < 16,
    {
        proof { lemma_rank_small(self.data.bits); }
        self.data.get_flag(MetaData::rank_range())
    }

    pub fn rank_down(&mut self)
        requires
            old(self).spec_rank() >= 1,
        ensures
            final(self).spec_rank() == old(self).spec_rank() - 1,
            final(self).spec_inuse() == old(self).spec_inuse(),
            final(self).data.bits & mapped_mask() == old(self).data.bits & mapped_mask(),
            final(self).prev == old(self).prev,
            final(self).next == old(self).next,
    {
        let r = self.rank();
        self.set_rank(r - 1);
    }

    pub fn rank_up(&mut self)
        requires
            old(self).spec_rank() + 1 < 16,
        ensures
            final(self).spec_rank() == old(self).spec_rank() + 1,
            final(self).spec_inuse() == old(self).spec_inuse(),
            final(self).data.bits & mapped_mask() == old(self).data.bits & mapped_mask(),
            final(self).prev == old(self).prev,
            final(self).next == old(self).next,
    {
        let r = self.rank();
        self.set_rank(r + 1);
    }

    /// The address the page is mapped at.
    pub fn mapped_addr(&self) -> (a: usize)
        ensures
            a == self.data.bits & mapped_mask(),
    {
        self.data.mapped_addr()
    }

    pub fn remap(&mut self, new_addr: usize)
        ensures
            final(self).data.bits & mapped_mask() == new_addr & mapped_mask(),
            final(self).spec_rank() == old(self).spec_rank(),
            final(self).spec_inuse() == old(self).spec_inuse(),
            final(self).prev == old(self).prev,
            final(self).next == old(self).next,
    {
        let old_bits = self.data.bits;
        self.data.remap(new_addr);
        proof { lemma_remap_keeps_flags(old_bits, self.data.bits); }
    }

    pub fn next(&self) -> (n: usize)
        ensures
            n == self.next,
    {
        self.next
    }

    pub fn prev(&self) -> (p: usize)
        ensures
            p == self.prev,
    {
        self.prev
    }
}

proof fn lemma_fields_independent(a: usize, b: usize)
    requires
        b & !inuse_range().spec_mask() == a & !inuse_range().spec_mask(),
    ensures
        field_of(b, rank_range()) == field_of(a, rank_range()),
        b & mapped_mask() == a & mapped_mask(),
{
    assert(inuse_range().spec_mask() == 1usize) by {
        assert(((1usize << 1u32) - 1) as usize & !(((1usize << 0u32) - 1) as usize) == 1usize) by (bit_vector);
    }
    assert(rank_range().spec_mask() == 0x1eusize) by {
        assert(((1usize << 5u32) - 1) as usize & !(((1usize << 1u32) - 1) as usize) == 0x1eusize) by (bit_vector);
    }
    assert(b & !1usize == a & !1usize ==> ((b & 0x1eusize) >> 1usize) == ((a & 0x1eusize) >> 1usize)
        && b & !0xfffusize == a & !0xfffusize) by (bit_vector);
}

proof fn lemma_rank_change_keeps(a: usize, b: usize)
    requires
        b & !rank_range().spec_mask() == a & !rank_range().spec_mask(),
    ensures
        field_of(b, inuse_range()) == field_of(a, inuse_range()),
        b & mapped_mask() == a & mapped_mask(),
{
    assert(inuse_range().spec_mask() == 1usize) by {
        assert(((1usize << 1u32) - 1) as usize & !(((1usize << 0u32) - 1) as usize) == 1usize) by (bit_vector);
    }
    assert(rank_range().spec_mask() == 0x1eusize) by {
        assert(((1usize << 5u32) - 1) as usize & !(((1usize << 1u32) - 1) as usize) == 0x1eusize) by (bit_vector);
    }
    assert(b & !0x1eusize == a & !0x1eusize ==> ((b & 1usize) >> 0usize) == ((a & 1usize) >> 0usize)
        && b & !0xfffusize == a & !0xfffusize) by (bit_vector);
}

proof fn lemma_remap_keeps_flags(a: usize, b: usize)
    requires
        b & !mapped_mask() == a & !mapped_mask(),
    ensures
        field_of(b, inuse_range()) == field_of(a, inuse_range()),
        field_of(b, rank_range()) == field_of(a, rank_range()),
{
    assert(inuse_range().spec_mask() == 1usize) by {
        assert(((1usize << 1u32) - 1) as usize & !(((1usize << 0u32) - 1) as usize) == 1usize) by (bit_vector);
    }
    assert(rank_range().spec_mask() == 0x1eusize) by {
        assert(((1usize << 5u32) - 1) as usize & !(((1usize << 1u32) - 1) as usize) == 0x1eusize) by (bit_vector);
    }
    assert(b & !!0xfffusize == a & !!0xfffusize ==> ((b & 1usize) >> 0usize) == ((a & 1usize) >> 0usize)
        && ((b & 0x1eusize) >> 1usize) == ((a & 0x1eusize) >> 1usize)) by (bit_vector);
}

proof fn lemma_rank_small(a: usize)
    ensures
        field_of(a, rank_range()) < 16,
{
    assert(rank_range().spec_mask() == 0x1eusize) by {
        assert(((1usize << 5u32) - 1) as usize & !(((1usize << 1u32) - 1) as usize) == 0x1eusize) by (bit_vector);
    }
    assert((a & 0x1eusize) >> 1usize < 16) by (bit_vector);
}

/// Number of frames in a block of rank `r`.
pub open spec fn rank_pages(r: int) -> int {
    pow2(r as nat) as int
}

/// Cleared metadata reads as rank 0, not in use.
pub proof fn lemma_zero_metadata()
    ensures
        field_of(0, rank_range()) == 0,
        field_of(0, inuse_range()) == 0,
{
    assert(forall|m: usize, s: usize| (0usize & m) >> s == 0usize) by (bit_vector);
}

/// Every link points into the table and the links are mutually inverse.
pub open spec fn links_wf(t: Seq<MetaPage>) -> bool {
    forall|i: int| 0 <= i < t.len() ==> {
        &&& (#[trigger] t[i]).prev < t.len()
        &&& t[i].next < t.len()
        &&& t[t[i].prev as int].next == i
        &&& t[t[i].next as int].prev == i
    }
}

/// `t` is `o` with every `next` link given by `nx`, every `prev` link by `pv`, and
/// the metadata kept.
pub open spec fn relinked(o: Seq<MetaPage>, t: Seq<MetaPage>, nx: spec_fn(int) -> int, pv: spec_fn(int) -> int) -> bool {
    &&& t.len() == o.len()
    &&& forall|k: int| 0 <= k < o.len() ==> {
        &&& (#[trigger] t[k]).next == nx(k)
        &&& t[k].prev == pv(k)
        &&& t[k].data == o[k].data
    }
}

/// Links stay consistent when a page is unlinked from its neighbours.
proof fn lemma_disjoint_links(o: Seq<MetaPage>, t: Seq<MetaPage>, x: int)
    requires
        links_wf(o),
        0 <= x < o.len(),
        relinked(o, t,
            |k: int| if k == x { x } else if k == o[x].prev { o[x].next as int } else { o[k].next as int },
            |k: int| if k == x { x } else if k == o[x].next { o[x].prev as int } else { o[k].prev as int }),
    ensures
        links_wf(t),
{
    let p = o[x].prev as int;
    let n = o[x].next as int;
    assert(o[p].next == x);
    assert(o[n].prev == x);
    assert forall|i: int| 0 <= i < t.len() implies {
        &&& (#[trigger] t[i]).prev < t.len()
        &&& t[i].next < t.len()
        &&& t[t[i].prev as int].next == i
        &&& t[t[i].next as int].prev == i
    } by {
        assert(o[o[i].prev as int].next == i);
        assert(o[o[i].next as int].prev == i);
        assert(t[i].next == if i == x { x } else if i == p { n } else { o[i].next as int });
        assert(t[i].prev == if i == x { x } else if i == n { p } else { o[i].prev as int });
        let tn = t[i].next as int;
        let tp = t[i].prev as int;
        assert(t[tn].prev == if tn == x { x } else if tn == n { p } else { o[tn].prev as int });
        assert(t[tp].next == if tp == x { x } else if tp == p { n } else { o[tp].next as int });
    }
}

/// Links stay consistent when one list is spliced into another.
proof fn lemma_push_links(o: Seq<MetaPage>, t: Seq<MetaPage>, h: int, nh: int)
    requires
        links_wf(o),
        0 <= h < o.len(),
        0 <= nh < o.len(),
        relinked(o, t,
            |k: int| if k == o[nh].prev { h } else if k == o[h].prev { nh } else { o[k].next as int },
            |k: int| if k == h { o[nh].prev as int } else if k == nh { o[h].prev as int } else { o[k].prev as int }),
    ensures
        links_wf(t),
{
    let tl = o[h].prev as int;
    let ntl = o[nh].prev as int;
    assert(o[tl].next == h);
    assert(o[ntl].next == nh);
    assert forall|i: int| 0 <= i < t.len() implies {
        &&& (#[trigger] t[i]).prev < t.len()
        &&& t[i].next < t.len()
        &&& t[t[i].prev as int].next == i
        &&& t[t[i].next as int].prev == i
    } by {
        assert(o[o[i].prev as int].next == i);
        assert(o[o[i].next as int].prev == i);
        assert(t[i].next == if i == ntl { h } else if i == tl { nh } else { o[i].next as int });
        assert(t[i].prev == if i == h { ntl } else if i == nh { tl } else { o[i].prev as int });
        let tn = t[i].next as int;
        let tp = t[i].prev as int;
        assert(t[tn].prev == if tn == h { ntl } else if tn == nh { tl } else { o[tn].prev as int });
        assert(t[tp].next == if tp == ntl { h } else if tp == tl { nh } else { o[tp].next as int });
    }
}

/// The metadata of every page frame, indexed by frame number.
pub struct MetaPageTable {
    pub pages: Vec<MetaPage>,
}

impl MetaPageTable {
    pub open spec fn view(&self) -> Seq<MetaPage> {
        self.pages@
    }

    /// A table of `count` pages, each alone in its list and unmapped.
    pub fn new(count: usize) -> (t: MetaPageTable)
        ensures
            t@.len() == count,
            links_wf(t@),
            forall|i: int| 0 <= i < count ==> (#[trigger] t@[i]).prev == i && t@[i].next == i
                && t@[i].data.bits == 0 && t@[i].spec_rank() == 0 && !t@[i].spec_inuse(),
    {
        proof { lemma_zero_metadata(); }
        let mut pages: Vec<MetaPage> = Vec::new();
        let mut i: usize = 0;
        while i < count
            invariant
                i <= count,
                pages@.len() == i,
                forall|k: int| 0 <= k < i ==> (#[trigger] pages@[k]).prev == k && pages@[k].next == k
                    && pages@[k].data.bits == 0,
            decreases count - i,
        {
            pages.push(MetaPage::construct_at(i));
            i = i + 1;
        }
        MetaPageTable { pages }
    }

    /// The page is alone in its list.
    pub fn empty(&self, index: usize) -> (r: bool)
        requires
            index < self@.len(),
        ensures
            r == (self@[index as int].next == index),
    {
        self.pages[index].next == index
    }

    fn set_next(&mut self, index: usize, next: usize)
        requires
            index < old(self)@.len(),
        ensures
            final(self)@ == old(self)@.update(index as int, MetaPage { next, ..old(self)@[index as int] }),
    {
        let mut p = self.pages[index];
        p.next = next;
        self.pages.set(index, p);
    }

    fn set_prev(&mut self, index: usize, prev: usize)
        requires
            index < old(self)@.len(),
        ensures
            final(self)@ == old(self)@.update(index as int, MetaPage { prev, ..old(self)@[index as int] }),
    {
        let mut p = self.pages[index];
        p.prev = prev;
        self.pages.set(index, p);
    }

    /// Takes the page out of its list, leaving it alone in a list of its own.
    #[verifier::rlimit(100)]
    #[verifier::spinoff_prover]
    pub fn disjoint(&mut self, index: usize)
        requires
            links_wf(old(self)@),
            index < old(self)@.len(),
        ensures
            links_wf(final(self)@),
            final(self)@.len() == old(self)@.len(),
            relinked(old(self)@, final(self)@,
                |k: int| if k == index { index as int } else if k == old(self)@[index as int].prev {
                    old(self)@[index as int].next as int } else { old(self)@[k].next as int },
                |k: int| if k == index { index as int } else if k == old(self)@[index as int].next {
                    old(self)@[index as int].prev as int } else { old(self)@[k].prev as int }),
    {
        let prev = self.pages[index].prev;
        let next = self.pages[index].next;
        let ghost o = self@;
        self.set_next(prev, next);
        self.set_prev(next, prev);
        self.set_prev(index, index);
        self.set_next(index, index);
        proof {
            assert(relinked(old(self)@, self@,
                |k: int| if k == index { index as int } else if k == old(self)@[index as int].prev {
                    old(self)@[index as int].next as int } else { old(self)@[k].next as int },
                |k: int| if k == index { index as int } else if k == old(self)@[index as int].next {
                    old(self)@[index as int].prev as int } else { old(self)@[k].prev as int }));
            lemma_disjoint_links(old(self)@, self@, index as int);
        }
    }

    /// Takes the page after `head` out of the list and returns its index, unless the
    /// list holds `head` alone.
    pub fn pop(&mut self, head: usize) -> (r: Option<usize>)
        requires
            links_wf(old(self)@),
            head < old(self)@.len(),
        ensures
            links_wf(final(self)@),
            final(self)@.len() == old(self)@.len(),
            old(self)@[head as int].next == head ==> r is None && final(self)@ == old(self)@,
            old(self)@[head as int].next != head ==> {
                let n = old(self)@[head as int].next;
                &&& r == Some(n)
                &&& final(self)@[n as int].prev == n
                &&& final(self)@[n as int].next == n
                &&& final(self)@[head as int].next == old(self)@[n as int].next
                &&& relinked(old(self)@, final(self)@,
                    |k: int| if k == n { n as int } else if k == head { old(self)@[n as int].next as int }
                        else { old(self)@[k].next as int },
                    |k: int| if k == n { n as int } else if k == old(self)@[n as int].next { head as int }
                        else { old(self)@[k].prev as int })
            },
    {
        if self.empty(head) {
            return None;
        }
        let next = self.pages[head].next;
        proof {
            assert(self@[next as int].prev == head);
        }
        self.disjoint(next);
        Some(next)
    }

    #[verifier::rlimit(100)]
    /// Splices the list of `new_head` into the list of `head`, just before `head`.
    pub fn push(&mut self, head: usize, new_head: usize)
        requires
            links_wf(old(self)@),
            head < old(self)@.len(),
            new_head < old(self)@.len(),
        ensures
            links_wf(final(self)@),
            final(self)@.len() == old(self)@.len(),
            relinked(old(self)@, final(self)@,
                |k: int| if k == old(self)@[new_head as int].prev { head as int }
                    else if k == old(self)@[head as int].prev { new_head as int } else { old(self)@[k].next as int },
                |k: int| if k == head { old(self)@[new_head as int].prev as int }
                    else if k == new_head { old(self)@[head as int].prev as int } else { old(self)@[k].prev as int }),
    {
        let tail = self.pages[head].prev;
        let new_tail = self.pages[new_head].prev;
        let ghost o = self@;
        self.set_next(tail, new_head);
        let ghost t1 = self@;
        self.set_prev(new_head, tail);
        let ghost t2 = self@;
        self.set_next(new_tail, head);
        let ghost t3 = self@;
        self.set_prev(head, new_tail);
        proof {
            let t = self@;
            assert forall|k: int| 0 <= k < o.len() implies {
                &&& (#[trigger] t[k]).next == (if k == new_tail { head as int } else if k == tail { new_head as int } else { o[k].next as int })
                &&& t[k].prev == (if k == head { new_tail as int } else if k == new_head { tail as int } else { o[k].prev as int })
                &&& t[k].data == o[k].data
            } by {
                assert(t1[k].next == (if k == tail { new_head as int } else { o[k].next as int }));
                assert(t1[k].prev == o[k].prev && t1[k].data == o[k].data);
                assert(t2[k].prev == (if k == new_head { tail as int } else { o[k].prev as int }));
                assert(t2[k].next == t1[k].next && t2[k].data == o[k].data);
                assert(t3[k].next == (if k == new_tail { head as int } else { t1[k].next as int }));
                assert(t3[k].prev == t2[k].prev && t3[k].data == o[k].data);
            }
            assert(relinked(old(self)@, self@,
                |k: int| if k == old(self)@[new_head as int].prev { head as int }
                    else if k == old(self)@[head as int].prev { new_head as int } else { old(self)@[k].next as int },
                |k: int| if k == head { old(self)@[new_head as int].prev as int }
                    else if k == new_head { old(self)@[head as int].prev as int } else { old(self)@[k].prev as int }));
            lemma_push_links(old(self)@, self@, head as int, new_head as int);
        }
    }

    /// Sets the rank of one page, keeping everything else.
    pub fn set_rank_at(&mut self, index: usize, rank: usize)
        requires
            index < old(self)@.len(),
            rank < 16,
        ensures
            final(self)@.len() == old(self)@.len(),
            forall|k: int| 0 <= k < old(self)@.len() && k != index ==> #[trigger] final(self)@[k] == old(self)@[k],
            final(self)@[index as int].spec_rank() == rank,
            final(self)@[index as int].spec_inuse() == old(self)@[index as int].spec_inuse(),
            final(self)@[index as int].prev == old(self)@[index as int].prev,
            final(self)@[index as int].next == old(self)@[index as int].next,
    {
        let mut p = self.pages[index];
        p.set_rank(rank);
        self.pages.set(index, p);
    }

    /// Sets the in-use flag of one page, keeping everything else.
    pub fn set_inuse_at(&mut self, index: usize, value: bool)
        requires
            index < old(self)@.len(),
        ensures
            final(self)@.len() == old(self)@.len(),
            forall|k: int| 0 <= k < old(self)@.len() && k != index ==> #[trigger] final(self)@[k] == old(self)@[k],
            final(self)@[index as int].spec_inuse() == value,
            final(self)@[index as int].spec_rank() == old(self)@[index as int].spec_rank(),
            final(self)@[index as int].prev == old(self)@[index as int].prev,
            final(self)@[index as int].next == old(self)@[index as int].next,
    {
        let mut p = self.pages[index];
        p.set_inuse(value);
        self.pages.set(index, p);
    }

    /// Splits the block of rank `n` at `index` into its two halves of rank `n - 1`,
    /// returning the lower and the upper half.
    pub fn split(&mut self, index: usize) -> (r: (usize, usize))
        requires
            index < old(self)@.len(),
            old(self)@[index as int].spec_rank() >= 1,
            index + rank_pages(old(self)@[index as int].spec_rank() - 1) < old(self)@.len(),
        ensures
            r.0 == index,
            r.1 == index + rank_pages(old(self)@[index as int].spec_rank() - 1),
            final(self)@.len() == old(self)@.len(),
            forall|k: int| 0 <= k < old(self)@.len() && k != r.0 && k != r.1 ==> #[trigger] final(self)@[k] == old(self)@[k],
            final(self)@[index as int].spec_rank() == old(self)@[index as int].spec_rank() - 1,
            final(self)@[index as int].spec_inuse() == old(self)@[index as int].spec_inuse(),
            final(self)@[r.1 as int].spec_rank() == old(self)@[index as int].spec_rank() - 1,
            final(self)@[r.1 as int].spec_inuse() == old(self)@[r.1 as int].spec_inuse(),
    {
        let rank = self.pages[index].rank() - 1;
        self.set_rank_at(index, rank);
        let pages = rank_to_pages(rank);
        let n = self.pages.len();
        assert(pages == rank_pages(old(self)@[index as int].spec_rank() - 1));
        assert(index + pages < n);
        let right = index + pages;
        self.set_rank_at(right, rank);
        (index, right)
    }

    /// Merges the block at `index` with its buddy at `other` into the block of the
    /// next rank at the lower of the two, returning its index.
    pub fn merge(&mut self, index: usize, other: usize) -> (left: usize)
        requires
            index < old(self)@.len(),
            other < old(self)@.len(),
            (if index < other { old(self)@[index as int] } else { old(self)@[other as int] }).spec_rank() + 1 < 16,
        ensures
            left == if index < other { index } else { other },
            final(self)@.len() == old(self)@.len(),
            forall|k: int| 0 <= k < old(self)@.len() && k != left ==> #[trigger] final(self)@[k] == old(self)@[k],
            final(self)@[left as int].spec_rank() == old(self)@[left as int].spec_rank() + 1,
            final(self)@[left as int].spec_inuse() == old(self)@[left as int].spec_inuse(),
    {
        let left = if index < other { index } else { other };
        let rank = self.pages[left].rank() + 1;
        self.set_rank_at(left, rank);
        left
    }

    /// Frame index of the page mapped at the linear-map address `ptr`.
    pub fn ptr_to_metapage(&self, ptr: usize) -> (index: usize)
        ensures
            index == spec_virt_to_phys(ptr as int) / PAGE_SIZE as int,
    {
        addr_to_pfn(virt_to_phys(ptr))
    }

    /// Frame index of a page of the table (the identity on indices).
    pub fn metapage_to_index(&self, index: usize) -> (r: usize)
        requires
            index < self@.len(),
        ensures
            r == index,
    {
        index
    }

    /// Page of the table at a frame index (the identity on indices).
    pub fn index_to_metapage(&self, index: usize) -> (r: usize)
        requires
            index < self@.len(),
        ensures
            r == index,
    {
        index
    }
}


/// Frame index, in `table`, of the page that holds the physical address `ptr`.
pub fn phys_to_meta(table: &MetaPageTable, ptr: usize) -> (index: usize)
    requires
        ptr / PAGE_SIZE < table@.len(),
    ensures
        index == ptr / PAGE_SIZE,
        index < table@.len(),
{
    let pfn = addr_to_pfn(ptr);
    table.index_to_metapage(pfn)
}

/// Walk of the circular list of pages that starts after `head`: each step follows the
/// `next` link, and the walk ends when it comes back to `head`.
pub struct MetaPageIter {
    head: usize,
    curr: usize,
}

impl MetaPageIter {
    /// The page the walk stands on.
    pub closed spec fn at(&self) -> usize {
        self.curr
    }

    /// The page the walk started from and ends at.
    pub closed spec fn start(&self) -> usize {
        self.head
    }

    /// A walk of the list of `head`, standing on `head`.
    pub fn new(head: usize) -> (it: MetaPageIter)
        ensures
            it.start() == head,
            it.at() == head,
    {
        MetaPageIter { head, curr: head }
    }

    /// Steps to the next page of the list: that page, unless it is the start again.
    pub fn next(&mut self, table: &MetaPageTable) -> (r: Option<usize>)
        requires
            old(self).at() < table@.len(),
        ensures
            final(self).start() == old(self).start(),
            final(self).at() == table@[old(self).at() as int].next,
            r == if final(self).at() != final(self).start() { Some(final(self).at()) } else { None::<usize> },
    {
        self.curr = table.pages[self.curr].next;
        if self.curr != self.head {
            Some(self.curr)
        } else {
            None
        }
    }
}


/// Frame indices survive the trip through page addresses: the page of the table at the
/// linear-map address of frame `i` (`ptr_to_metapage` of `phys_to_virt(pfn_to_addr(i))`)
/// is frame `i` again, as `metapage_to_index` of `index_to_metapage(i)` is.
pub proof fn lemma_metapage_index_roundtrip(i: usize)
    requires
        i * PAGE_SIZE <= usize::MAX,
    ensures
        spec_virt_to_phys(crate::util::spec_phys_to_virt((i * PAGE_SIZE) as int)) / PAGE_SIZE as int == i,
{
    crate::util::lemma_phys_virt_roundtrip((i * PAGE_SIZE) as usize);
    assert((i * PAGE_SIZE) / PAGE_SIZE as int == i) by (nonlinear_arith);
}

} // verus!
