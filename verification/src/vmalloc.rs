use vstd::prelude::*;
use core::ops::Range;
use crate::constant::PAGE_SIZE;
use crate::util::{pfn_to_addr, addr_to_pfn, usize_modulus};

verus! {

/// A run of `count` page frames starting at frame `pfn`.
#[derive(Clone, Copy, Debug, PartialEq, Eq, Structural)]
pub struct Page {
    pub pfn: usize,
    pub count: usize,
}

impl Page {
    pub fn new(pfn: usize, count: usize) -> (p: Page)
        ensures
            p == (Page { pfn, count }),
    {
        Page { pfn, count }
    }

    /// An empty run at `pfn`.
    pub fn from_pfn(pfn: usize) -> (p: Page)
        ensures
            p == (Page { pfn, count: 0 }),
    {
        Page { pfn, count: 0 }
    }

    /// A run of `count` frames at frame 0.
    pub fn from_count(count: usize) -> (p: Page)
        ensures
            p == (Page { pfn: 0, count }),
    {
        Page { pfn: 0, count }
    }

    pub open spec fn spec_end(self) -> int {
        self.pfn + self.count
    }

    /// The frame just past the run.
    pub fn end_pfn(&self) -> (e: usize)
        requires
            self.pfn + self.count <= usize::MAX,
        ensures
            e == self.spec_end(),
    {
        self.pfn + self.count
    }
}

/// Order of runs by start frame, then by length.
pub open spec fn pfn_lt(a: Page, b: Page) -> bool {
    a.pfn < b.pfn || (a.pfn == b.pfn && a.count < b.count)
}

/// Order of runs by length, then by start frame.
pub open spec fn count_lt(a: Page, b: Page) -> bool {
    a.count < b.count || (a.count == b.count && a.pfn < b.pfn)
}

/// Runs held in strictly increasing order of start frame, none past the top of `usize`.
pub open spec fn runs_wf(s: Seq<Page>) -> bool {
    &&& forall|i: int, j: int| 0 <= i < j < s.len() ==> pfn_lt(#[trigger] s[i], #[trigger] s[j])
    &&& forall|i: int| 0 <= i < s.len() ==> (#[trigger] s[i]).pfn + s[i].count <= usize::MAX
}

/// `p` is the free run chosen for a request of `count` frames: the shortest run that is
/// long enough, the lowest one among equally short runs.
pub open spec fn is_best_fit(s: Set<Page>, count: int, p: Page) -> bool {
    &&& s.contains(p)
    &&& p.count >= count
    &&& forall|q: Page| #[trigger] s.contains(q) && q.count >= count && q != p ==> count_lt(p, q)
}

/// `x` is the greatest run below `p` in start-frame order.
pub open spec fn is_pred(s: Set<Page>, p: Page, x: Page) -> bool {
    &&& s.contains(x)
    &&& pfn_lt(x, p)
    &&& forall|y: Page| #[trigger] s.contains(y) && pfn_lt(y, p) && y != x ==> pfn_lt(y, x)
}

/// `x` is the least run above `p` in start-frame order.
pub open spec fn is_succ(s: Set<Page>, p: Page, x: Page) -> bool {
    &&& s.contains(x)
    &&& pfn_lt(p, x)
    &&& forall|y: Page| #[trigger] s.contains(y) && pfn_lt(p, y) && y != x ==> pfn_lt(x, y)
}

/// The greatest run below `p`, when it ends exactly where `p` starts.
pub open spec fn lower_neighbor(s: Set<Page>, p: Page) -> Option<Page> {
    if exists|x: Page| is_pred(s, p, x) && x.pfn + x.count == p.pfn {
        Some(choose|x: Page| is_pred(s, p, x) && x.pfn + x.count == p.pfn)
    } else {
        None
    }
}

/// The least run above `p`, when it starts exactly where `p` ends.
pub open spec fn upper_neighbor(s: Set<Page>, p: Page) -> Option<Page> {
    if exists|y: Page| is_succ(s, p, y) && y.pfn == p.pfn + p.count {
        Some(choose|y: Page| is_succ(s, p, y) && y.pfn == p.pfn + p.count)
    } else {
        None
    }
}

/// The free runs after `p` is given back: the greatest run below `p`, if it ends where
/// `p` starts, and then the least run above `p`, if it starts where `p` ends, are
/// merged with `p` into one run.
pub open spec fn released(s: Set<Page>, p: Page) -> Set<Page> {
    let s1 = match lower_neighbor(s, p) { Some(x) => s.remove(x), None => s };
    let lo: int = match lower_neighbor(s, p) { Some(x) => x.pfn as int, None => p.pfn as int };
    let s2 = match upper_neighbor(s1, p) { Some(y) => s1.remove(y), None => s1 };
    let hi: int = match upper_neighbor(s1, p) { Some(y) => y.pfn + y.count, None => p.pfn + p.count };
    s2.insert(Page { pfn: lo as usize, count: (hi - lo) as usize })
}

/// Frames covered by some run.
pub open spec fn free_frames(s: Set<Page>) -> Set<int> {
    Set::new(|f: int| exists|p: Page| #[trigger] s.contains(p) && p.pfn <= f < p.pfn + p.count)
}

/// No frame lies in two runs.
pub open spec fn runs_disjoint(s: Set<Page>) -> bool {
    forall|p: Page, q: Page| #[trigger] s.contains(p) && #[trigger] s.contains(q) && p != q ==>
        p.pfn + p.count <= q.pfn || q.pfn + q.count <= p.pfn
}

/// Free frames of the virtual allocation area, kept as runs.
pub struct AddressTree {
    area: Range<usize>,
    pages: Vec<Page>,
}

impl AddressTree {
    /// The free runs.
    pub closed spec fn view(&self) -> Set<Page> {
        self.pages@.to_set()
    }

    pub closed spec fn wf(&self) -> bool {
        runs_wf(self.pages@)
    }

    /// All frames of `area` free, as one run.
    pub fn new(area: Range<usize>) -> (t: AddressTree)
        requires
            area.start <= area.end,
        ensures
            t.wf(),
            t@ == set![Page { pfn: area.start, count: (area.end - area.start) as usize }],
    {
        let page = Page::new(area.start, area.end - area.start);
        let mut pages: Vec<Page> = Vec::new();
        pages.push(page);
        let t = AddressTree { area, pages };
        proof {
            assert(t.pages@ == seq![page]);
            assert(t@ =~= set![page]) by {
                assert forall|x: Page| t@.contains(x) <==> x == page by {
                    if x == page {
                        assert(t.pages@[0] == page);
                    }
                }
            }
        }
        t
    }

    /// Every free run of a well-formed tree ends within `usize`.
    pub proof fn lemma_runs_fit(&self)
        requires
            self.wf(),
        ensures
            forall|q: Page| #[trigger] self@.contains(q) ==> q.pfn + q.count <= usize::MAX,
    {
        assert forall|q: Page| #[trigger] self@.contains(q) implies q.pfn + q.count <= usize::MAX by {
            let i = choose|i: int| 0 <= i < self.pages@.len() && self.pages@[i] == q;
        }
    }

    proof fn lemma_to_set_remove(s: Seq<Page>, i: int)
        requires
            runs_wf(s),
            0 <= i < s.len(),
        ensures
            s.remove(i).to_set() == s.to_set().remove(s[i]),
            runs_wf(s.remove(i)),
    {
        let r = s.remove(i);
        assert forall|x: Page| r.to_set().contains(x) <==> s.to_set().remove(s[i]).contains(x) by {
            if r.contains(x) {
                let k = choose|k: int| 0 <= k < r.len() && r[k] == x;
                if k < i {
                    assert(s[k] == x);
                    assert(pfn_lt(s[k], s[i]));
                } else {
                    assert(s[k + 1] == x);
                    assert(pfn_lt(s[i], s[k + 1]));
                }
            }
            if s.contains(x) && x != s[i] {
                let k = choose|k: int| 0 <= k < s.len() && s[k] == x;
                if k < i {
                    assert(r[k] == x);
                } else {
                    assert(k != i);
                    assert(r[k - 1] == x);
                }
            }
        }
        assert(r.to_set() =~= s.to_set().remove(s[i]));
        assert forall|a: int, b: int| 0 <= a < b < r.len() implies pfn_lt(#[trigger] r[a], #[trigger] r[b]) by {
            if a < i && b >= i {
                assert(pfn_lt(s[a], s[b + 1]));
            } else if a >= i {
                assert(pfn_lt(s[a + 1], s[b + 1]));
            }
        }
        assert forall|a: int| 0 <= a < r.len() implies (#[trigger] r[a]).pfn + r[a].count <= usize::MAX by {
            if a < i {
                assert(r[a] == s[a]);
            } else {
                assert(r[a] == s[a + 1]);
            }
        }
    }

    /// Puts a run into the ordered runs, unless it is already there.
    fn insert_run(&mut self, p: Page)
        requires
            old(self).wf(),
            p.pfn + p.count <= usize::MAX,
        ensures
            final(self).wf(),
            final(self)@ == old(self)@.insert(p),
            final(self).area == old(self).area,
    {
        let len = self.pages.len();
        let mut k: usize = 0;
        while k < len
            invariant
                self.wf(),
                *self == *old(self),
                len == self.pages@.len(),
                k <= len,
                forall|i: int| 0 <= i < k ==> pfn_lt(#[trigger] self.pages@[i], p),
            ensures
                k <= len,
                forall|i: int| 0 <= i < k ==> pfn_lt(#[trigger] self.pages@[i], p),
                k < len ==> !pfn_lt(self.pages@[k as int], p),
            decreases len - k,
        {
            let q = self.pages[k];
            if q.pfn > p.pfn || (q.pfn == p.pfn && q.count >= p.count) {
                break;
            }
            k = k + 1;
        }
        if k < len && self.pages[k].pfn == p.pfn && self.pages[k].count == p.count {
            proof {
                assert(self.pages@[k as int] == p);
                assert(self@.contains(p));
                assert(self@.insert(p) =~= self@);
            }
            return;
        }
        let ghost before = self.pages@;
        self.pages.insert(k, p);
        proof {
            let after = self.pages@;
            assert(after == before.insert(k as int, p));
            assert forall|a: int, b: int| 0 <= a < b < after.len() implies
                pfn_lt(#[trigger] after[a], #[trigger] after[b]) by {
                if b < k {
                } else if a < k && b == k {
                    assert(pfn_lt(before[a], p));
                } else if a < k && b > k {
                    assert(pfn_lt(before[a], before[b - 1]));
                } else if a == k {
                    assert(!pfn_lt(before[k as int], p));
                    assert(before[k as int] != p);
                    if b > k + 1 {
                        assert(pfn_lt(before[k as int], before[b - 1]));
                    }
                } else {
                    assert(pfn_lt(before[a - 1], before[b - 1]));
                }
            }
            assert forall|a: int| 0 <= a < after.len() implies (#[trigger] after[a]).pfn + after[a].count <= usize::MAX by {
                if a < k {
                    assert(after[a] == before[a]);
                } else if a > k {
                    assert(after[a] == before[a - 1]);
                }
            }
            assert forall|x: Page| after.to_set().contains(x) <==> before.to_set().insert(p).contains(x) by {
                if after.contains(x) {
                    let i = choose|i: int| 0 <= i < after.len() && after[i] == x;
                    if i < k {
                        assert(before[i] == x);
                    } else if i > k {
                        assert(before[i - 1] == x);
                    }
                }
                if before.contains(x) {
                    let i = choose|i: int| 0 <= i < before.len() && before[i] == x;
                    if i < k {
                        assert(after[i] == x);
                    } else {
                        assert(after[i + 1] == x);
                    }
                }
                if x == p {
                    assert(after[k as int] == x);
                }
            }
            assert(after.to_set() =~= before.to_set().insert(p));
        }
    }

    /// Takes `count` frames from the best-fitting free run and returns their address.
    pub fn alloc_frames(&mut self, count: usize) -> (r: Option<usize>)
        requires
            old(self).wf(),
        ensures
            final(self).wf(),
            (exists|p: Page| is_best_fit(old(self)@, count as int, p)) <==> r is Some,
            r is None ==> final(self)@ == old(self)@,
            forall|p: Page| #[trigger] is_best_fit(old(self)@, count as int, p) ==> {
                &&& r == Some(((p.pfn as int * PAGE_SIZE) % usize_modulus()) as usize)
                &&& final(self)@ == old(self)@.remove(p).insert(
                    Page { pfn: (p.pfn + count) as usize, count: (p.count - count) as usize })
            },
    {
        let len = self.pages.len();
        let mut best: Option<usize> = None;
        let mut k: usize = 0;
        while k < len
            invariant
                self.wf(),
                len == self.pages@.len(),
                k <= len,
                match best {
                    Some(b) => b < k && self.pages@[b as int].count >= count
                        && forall|i: int| 0 <= i < k && (#[trigger] self.pages@[i]).count >= count && i != b ==>
                            count_lt(self.pages@[b as int], self.pages@[i]),
                    None => forall|i: int| 0 <= i < k ==> (#[trigger] self.pages@[i]).count < count,
                },
            decreases len - k,
        {
            let q = self.pages[k];
            if q.count >= count {
                match best {
                    None => { best = Some(k); },
                    Some(b) => {
                        let cur = self.pages[b];
                        if q.count < cur.count || (q.count == cur.count && q.pfn < cur.pfn) {
                            proof {
                                assert forall|i: int| 0 <= i < k + 1 && (#[trigger] self.pages@[i]).count >= count && i != k implies
                                    count_lt(self.pages@[k as int], self.pages@[i]) by {
                                    if i != b {
                                        assert(count_lt(self.pages@[b as int], self.pages@[i]));
                                    }
                                }
                            }
                            best = Some(k);
                        } else {
                            proof {
                                assert(self.pages@[k as int] != self.pages@[b as int]) by {
                                    assert(pfn_lt(self.pages@[b as int], self.pages@[k as int]));
                                }
                            }
                        }
                    },
                }
            }
            k = k + 1;
        }
        match best {
            None => {
                proof {
                    assert forall|p: Page| !is_best_fit(self@, count as int, p) by {
                        if self@.contains(p) {
                            let i = choose|i: int| 0 <= i < len && self.pages@[i] == p;
                        }
                    }
                }
                None
            },
            Some(b) => {
                let page = self.pages[b];
                let ghost s0 = self@;
                proof {
                    assert(s0.contains(page)) by { assert(self.pages@[b as int] == page); }
                    assert forall|q: Page| #[trigger] s0.contains(q) && q.count >= count && q != page implies count_lt(page, q) by {
                        let i = choose|i: int| 0 <= i < len && self.pages@[i] == q;
                    }
                    assert(is_best_fit(s0, count as int, page));
                    assert forall|p: Page| #[trigger] is_best_fit(s0, count as int, p) implies p == page by {
                        if p != page {
                            assert(count_lt(page, p));
                            assert(count_lt(p, page));
                        }
                    }
                    Self::lemma_to_set_remove(self.pages@, b as int);
                }
                self.pages.remove(b);
                proof {
                    assert(self.pages@ == old(self).pages@.remove(b as int));
                }
                let new_page = Page::new(page.pfn + count, page.count - count);
                self.insert_run(new_page);
                Some(pfn_to_addr(page.pfn))
            },
        }
    }

    /// Gives back `count` frames at `addr`, merging them with adjacent free runs.
    pub fn dealloc(&mut self, addr: usize, count: usize)
        requires
            old(self).wf(),
            addr / PAGE_SIZE + count <= usize::MAX,
        ensures
            final(self).wf(),
            final(self)@ == released(old(self)@, (Page { pfn: addr / PAGE_SIZE, count })),
    {
        let page = Page::new(addr_to_pfn(addr), count);
        let ghost s0 = self@;
        let len = self.pages.len();
        let mut k: usize = 0;
        while k < len
            invariant
                self.wf(),
                *self == *old(self),
                len == self.pages@.len(),
                k <= len,
                forall|i: int| 0 <= i < k ==> pfn_lt(#[trigger] self.pages@[i], page),
            ensures
                k <= len,
                forall|i: int| 0 <= i < k ==> pfn_lt(#[trigger] self.pages@[i], page),
                k < len ==> !pfn_lt(self.pages@[k as int], page),
            decreases len - k,
        {
            let q = self.pages[k];
            if !(q.pfn < page.pfn || (q.pfn == page.pfn && q.count < page.count)) {
                break;
            }
            k = k + 1;
        }
        proof {
            assert forall|i: int| k <= i < len implies !pfn_lt(#[trigger] self.pages@[i], page) by {
                if i > k {
                    assert(pfn_lt(self.pages@[k as int], self.pages@[i]));
                }
            }
        }
        let mut lo = page.pfn;
        let ghost lower_merges = false;
        if k > 0 {
            let x = self.pages[k - 1];
            if x.pfn + x.count == page.pfn {
                proof {
                    Self::lemma_pred_at(self.pages@, page, (k - 1) as int);
                    Self::lemma_to_set_remove(self.pages@, (k - 1) as int);
                    lower_merges = true;
                    let c = choose|c: Page| is_pred(s0, page, c) && c.pfn + c.count == page.pfn;
                    lemma_pred_unique(s0, page, c, x);
                }
                self.pages.remove(k - 1);
                lo = x.pfn;
                k = k - 1;
            } else {
                proof {
                    Self::lemma_pred_at(self.pages@, page, (k - 1) as int);
                    assert forall|c: Page| !(is_pred(s0, page, c) && c.pfn + c.count == page.pfn) by {
                        if is_pred(s0, page, c) {
                            lemma_pred_unique(s0, page, c, x);
                        }
                    }
                }
            }
        } else {
            proof {
                assert forall|c: Page| !is_pred(s0, page, c) by {
                    if s0.contains(c) {
                        let i = choose|i: int| 0 <= i < len && self.pages@[i] == c;
                    }
                }
            }
        }
        let ghost s1 = self@;
        proof {
            assert(s1 == if lower_merges {
                s0.remove(choose|c: Page| is_pred(s0, page, c) && c.pfn + c.count == page.pfn)
            } else { s0 });
        }
        let len1 = self.pages.len();
        assert(forall|i: int| 0 <= i < k ==> pfn_lt(#[trigger] self.pages@[i], page));
        assert(forall|i: int| k <= i < len1 ==> !pfn_lt(#[trigger] self.pages@[i], page));
        let mut j = k;
        if j < len1 && self.pages[j].pfn == page.pfn && self.pages[j].count == page.count {
            j = j + 1;
        }
        proof {
            assert forall|i: int| j <= i < len1 implies pfn_lt(page, #[trigger] self.pages@[i]) by {
                if i > k {
                    assert(pfn_lt(self.pages@[k as int], self.pages@[i]));
                }
            }
            assert forall|i: int| 0 <= i < j && i < len1 implies !pfn_lt(page, #[trigger] self.pages@[i]) by {
                if i >= k {
                    assert(i == k);
                }
            }
        }
        let end = page.pfn + page.count;
        let mut hi = end;
        let ghost upper_merges = false;
        if j < len1 {
            let y = self.pages[j];
            proof { Self::lemma_succ_at(self.pages@, page, j as int); }
            if y.pfn == end {
                proof {
                    Self::lemma_to_set_remove(self.pages@, j as int);
                    upper_merges = true;
                    let c = choose|c: Page| is_succ(s1, page, c) && c.pfn == page.pfn + page.count;
                    lemma_succ_unique(s1, page, c, y);
                }
                self.pages.remove(j);
                hi = y.pfn + y.count;
            } else {
                proof {
                    assert forall|c: Page| !(is_succ(s1, page, c) && c.pfn == page.pfn + page.count) by {
                        if is_succ(s1, page, c) {
                            lemma_succ_unique(s1, page, c, y);
                        }
                    }
                }
            }
        } else {
            proof {
                assert forall|c: Page| !is_succ(s1, page, c) by {
                    if s1.contains(c) {
                        let i = choose|i: int| 0 <= i < len1 && self.pages@[i] == c;
                    }
                }
            }
        }
        let merged = Page::new(lo, hi - lo);
        let ghost s2 = self@;
        self.insert_run(merged);
        proof {
            assert(lower_merges ==> lower_neighbor(s0, page) == Some(choose|c: Page| is_pred(s0, page, c) && c.pfn + c.count == page.pfn));
            assert(!lower_merges ==> lower_neighbor(s0, page) is None);
            assert(upper_merges ==> upper_neighbor(s1, page) == Some(choose|c: Page| is_succ(s1, page, c) && c.pfn == page.pfn + page.count));
            assert(!upper_merges ==> upper_neighbor(s1, page) is None);
            assert(self@ == released(s0, page));
        }
    }

    /// In ordered runs, the run just before the first one not below `p` is the
    /// greatest run below `p`.
    proof fn lemma_pred_at(s: Seq<Page>, p: Page, i: int)
        requires
            runs_wf(s),
            0 <= i < s.len(),
            pfn_lt(s[i], p),
            forall|k: int| i < k < s.len() ==> !pfn_lt(#[trigger] s[k], p),
        ensures
            is_pred(s.to_set(), p, s[i]),
    {
        assert forall|y: Page| #[trigger] s.to_set().contains(y) && pfn_lt(y, p) && y != s[i] implies pfn_lt(y, s[i]) by {
            let k = choose|k: int| 0 <= k < s.len() && s[k] == y;
            if k > i {
                assert(!pfn_lt(s[k], p));
            }
        }
    }

    /// In ordered runs, the first run above `p` is the least run above `p`.
    proof fn lemma_succ_at(s: Seq<Page>, p: Page, i: int)
        requires
            runs_wf(s),
            0 <= i < s.len(),
            pfn_lt(p, s[i]),
            forall|k: int| 0 <= k < i ==> !pfn_lt(p, #[trigger] s[k]),
        ensures
            is_succ(s.to_set(), p, s[i]),
    {
        assert forall|y: Page| #[trigger] s.to_set().contains(y) && pfn_lt(p, y) && y != s[i] implies pfn_lt(s[i], y) by {
            let k = choose|k: int| 0 <= k < s.len() && s[k] == y;
            if k < i {
                assert(!pfn_lt(p, s[k]));
            }
        }
    }
}

/// There is at most one greatest run below a run.
pub proof fn lemma_pred_unique(s: Set<Page>, p: Page, x: Page, y: Page)
    requires
        is_pred(s, p, x),
        is_pred(s, p, y),
    ensures
        x == y,
{
    if x != y {
        assert(pfn_lt(x, y));
        assert(pfn_lt(y, x));
    }
}

/// There is at most one least run above a run.
pub proof fn lemma_succ_unique(s: Set<Page>, p: Page, x: Page, y: Page)
    requires
        is_succ(s, p, x),
        is_succ(s, p, y),
    ensures
        x == y,
{
    if x != y {
        assert(pfn_lt(x, y));
        assert(pfn_lt(y, x));
    }
}

/// Giving back a run frees exactly its frames: after `dealloc`, the free frames are
/// those free before plus the frames of the returned run.
pub proof fn lemma_release_frees_run(s: Set<Page>, p: Page)
    requires
        p.pfn + p.count <= usize::MAX,
        forall|q: Page| #[trigger] s.contains(q) ==> q.pfn + q.count <= usize::MAX,
    ensures
        free_frames(released(s, p)) == free_frames(s).union(
            Set::new(|f: int| p.pfn <= f < p.pfn + p.count)),
{
    let s1 = match lower_neighbor(s, p) { Some(x) => s.remove(x), None => s };
    let lo: int = match lower_neighbor(s, p) { Some(x) => x.pfn as int, None => p.pfn as int };
    let s2 = match upper_neighbor(s1, p) { Some(y) => s1.remove(y), None => s1 };
    let hi: int = match upper_neighbor(s1, p) { Some(y) => y.pfn + y.count, None => p.pfn + p.count };
    let m = Page { pfn: lo as usize, count: (hi - lo) as usize };
    let r = released(s, p);
    let run = Set::new(|f: int| p.pfn <= f < p.pfn + p.count);
    if let Some(x) = lower_neighbor(s, p) {
        assert(is_pred(s, p, x) && x.pfn + x.count == p.pfn);
    }
    if let Some(y) = upper_neighbor(s1, p) {
        assert(is_succ(s1, p, y) && y.pfn == p.pfn + p.count);
    }
    assert(lo <= p.pfn && p.pfn + p.count <= hi);
    assert(0 <= lo && hi <= usize::MAX);
    assert(r == s2.insert(m));
    assert forall|f: int| free_frames(r).contains(f) <==> free_frames(s).union(run).contains(f) by {
        if free_frames(r).contains(f) {
            let q = choose|q: Page| #[trigger] r.contains(q) && q.pfn <= f < q.pfn + q.count;
            if q == m {
                if f < p.pfn {
                    let x = lower_neighbor(s, p)->Some_0;
                    assert(s.contains(x) && x.pfn <= f < x.pfn + x.count);
                } else if f >= p.pfn + p.count {
                    let y = upper_neighbor(s1, p)->Some_0;
                    assert(s.contains(y) && y.pfn <= f < y.pfn + y.count);
                } else {
                    assert(run.contains(f));
                }
            } else {
                assert(s.contains(q));
            }
        }
        if free_frames(s).contains(f) {
            let q = choose|q: Page| #[trigger] s.contains(q) && q.pfn <= f < q.pfn + q.count;
            if r.contains(q) {
            } else {
                assert(m.pfn <= f < m.pfn + m.count);
                assert(r.contains(m));
            }
        }
        if run.contains(f) {
            assert(m.pfn <= f < m.pfn + m.count);
            assert(r.contains(m));
        }
    }
    assert(free_frames(r) =~= free_frames(s).union(run));
}

/// Taking frames from a run removes exactly them from the free frames, when no two free
/// runs share a frame; and the frames taken were all free.
pub proof fn lemma_take_allocates_run(s: Set<Page>, count: int, b: Page)
    requires
        runs_disjoint(s),
        is_best_fit(s, count, b),
        count >= 0,
        b.pfn + b.count <= usize::MAX,
    ensures
        Set::new(|f: int| b.pfn <= f < b.pfn + count).subset_of(free_frames(s)),
        free_frames(s.remove(b).insert(Page { pfn: (b.pfn + count) as usize, count: (b.count - count) as usize }))
            == free_frames(s).difference(Set::new(|f: int| b.pfn <= f < b.pfn + count)),
{
    let rest = Page { pfn: (b.pfn + count) as usize, count: (b.count - count) as usize };
    let r = s.remove(b).insert(rest);
    let taken = Set::new(|f: int| b.pfn <= f < b.pfn + count);
    assert forall|f: int| taken.contains(f) implies free_frames(s).contains(f) by {
        assert(s.contains(b) && b.pfn <= f < b.pfn + b.count);
    }
    assert forall|f: int| free_frames(r).contains(f) <==> free_frames(s).difference(taken).contains(f) by {
        if free_frames(r).contains(f) {
            let q = choose|q: Page| #[trigger] r.contains(q) && q.pfn <= f < q.pfn + q.count;
            if q == rest {
                assert(rest.pfn == b.pfn + count);
                assert(s.contains(b) && b.pfn <= f < b.pfn + b.count);
            } else {
                assert(s.contains(q) && q != b);
                assert(q.pfn + q.count <= b.pfn || b.pfn + b.count <= q.pfn);
            }
        }
        if free_frames(s).difference(taken).contains(f) {
            let q = choose|q: Page| #[trigger] s.contains(q) && q.pfn <= f < q.pfn + q.count;
            if q == b {
                assert(rest.pfn <= f < rest.pfn + rest.count);
                assert(r.contains(rest));
            } else {
                assert(r.contains(q));
            }
        }
    }
    assert(free_frames(r) =~= free_frames(s).difference(taken));
}


/// Giving back the frames just taken restores the free frames: after `alloc_frames` took
/// `count` frames from the best-fitting run and `dealloc` gave them back, the same frames
/// are free as before.
pub proof fn lemma_release_undoes_take(s: Set<Page>, count: int, b: Page)
    requires
        runs_disjoint(s),
        is_best_fit(s, count, b),
        count >= 0,
        forall|q: Page| #[trigger] s.contains(q) ==> q.pfn + q.count <= usize::MAX,
    ensures
        free_frames(released(s.remove(b).insert(Page { pfn: (b.pfn + count) as usize, count: (b.count - count) as usize }),
            Page { pfn: b.pfn, count: count as usize })) == free_frames(s),
{
    let rest = Page { pfn: (b.pfn + count) as usize, count: (b.count - count) as usize };
    let t = s.remove(b).insert(rest);
    let taken = Set::new(|f: int| b.pfn <= f < b.pfn + count);
    lemma_take_allocates_run(s, count, b);
    assert forall|q: Page| #[trigger] t.contains(q) implies q.pfn + q.count <= usize::MAX by {
        if q != rest {
            assert(s.contains(q));
        }
    }
    lemma_release_frees_run(t, Page { pfn: b.pfn, count: count as usize });
    assert(Set::new(|f: int| b.pfn <= f < b.pfn + (count as usize)) =~= taken);
    assert(free_frames(s).difference(taken).union(taken) =~= free_frames(s));
}


/// The runs that hold at least one frame.
pub open spec fn nonempty_runs(s: Set<Page>) -> Set<Page> {
    s.filter(|q: Page| q.count > 0)
}

/// No run that holds frames ends where another one that holds frames starts.
pub open spec fn runs_not_touching(s: Set<Page>) -> bool {
    forall|p: Page, q: Page| #[trigger] s.contains(p) && #[trigger] s.contains(q) && p != q && p.count > 0 && q.count > 0
        ==> p.pfn + p.count != q.pfn
}

/// `dealloc` undoes `alloc_frames`: when the free runs share no frame and no two that hold
/// frames touch, taking `count` frames from the best-fitting run and giving them back
/// leaves the same runs that hold frames as before.
pub proof fn lemma_dealloc_undoes_alloc(s: Set<Page>, count: int, b: Page)
    requires
        runs_disjoint(s),
        runs_not_touching(s),
        is_best_fit(s, count, b),
        count >= 1,
        forall|q: Page| #[trigger] s.contains(q) ==> q.pfn + q.count <= usize::MAX,
    ensures
        nonempty_runs(released(s.remove(b).insert(Page { pfn: (b.pfn + count) as usize, count: (b.count - count) as usize }),
            Page { pfn: b.pfn, count: count as usize })) == nonempty_runs(s),
{
    let rest = Page { pfn: (b.pfn + count) as usize, count: (b.count - count) as usize };
    let t = s.remove(b).insert(rest);
    let p = Page { pfn: b.pfn, count: count as usize };
    assert(b.pfn + count <= b.pfn + b.count);
    assert(rest.pfn == b.pfn + count);
    assert(rest.count == b.count - count);
    // what `dealloc` merges below: at most a run without frames at the start of `b`
    let t1 = match lower_neighbor(t, p) { Some(x) => t.remove(x), None => t };
    let lo: int = match lower_neighbor(t, p) { Some(x) => x.pfn as int, None => p.pfn as int };
    if let Some(x) = lower_neighbor(t, p) {
        assert(is_pred(t, p, x) && x.pfn + x.count == p.pfn);
        assert(x != rest);
        assert(s.contains(x) && x != b);
        if x.count > 0 {
            assert(x.pfn + x.count != b.pfn);
        }
    }
    assert(lo == b.pfn);
    // what `dealloc` merges above: the rest of `b`
    assert(t1.contains(rest));
    assert forall|y: Page| #[trigger] t1.contains(y) && pfn_lt(p, y) && y != rest implies pfn_lt(rest, y) by {
        assert(s.contains(y) && y != b);
        assert(y.pfn + y.count <= b.pfn || b.pfn + b.count <= y.pfn);
    }
    assert(is_succ(t1, p, rest));
    let y0 = choose|y: Page| is_succ(t1, p, y) && y.pfn == p.pfn + p.count;
    lemma_succ_unique(t1, p, y0, rest);
    assert(upper_neighbor(t1, p) == Some(rest));
    let r = released(t, p);
    assert(r == t1.remove(rest).insert(b));
    assert forall|q: Page| nonempty_runs(r).contains(q) <==> nonempty_runs(s).contains(q) by {
        if q.count > 0 && q != b && q == rest && s.contains(rest) {
            assert(rest.pfn + rest.count <= b.pfn || b.pfn + b.count <= rest.pfn);
        }
        if q.count > 0 && q != b && q != rest {
            if let Some(x) = lower_neighbor(t, p) {
                assert(x.count == 0 ==> q != x);
            }
        }
    }
    assert(nonempty_runs(r) =~= nonempty_runs(s));
}


/// `dealloc` undoes `alloc_frames` on the runs that hold frames, when the free runs share
/// no frame, no two that hold frames touch, and all of them lie within the address space:
/// `t1` is what `alloc_frames(n)` leaves of `t0` when it returns `Some(a)`, and `t2` what
/// `dealloc(a, n)` then leaves of `t1`.
pub proof fn lemma_dealloc_undoes_alloc_frames(t0: Set<Page>, t1: Set<Page>, t2: Set<Page>, n: usize, a: usize)
    requires
        runs_disjoint(t0),
        runs_not_touching(t0),
        n >= 1,
        forall|q: Page| #[trigger] t0.contains(q) ==> (q.pfn + q.count) * PAGE_SIZE <= usize::MAX,
        exists|p: Page| is_best_fit(t0, n as int, p),
        forall|p: Page| #[trigger] is_best_fit(t0, n as int, p) ==> {
            &&& a == ((p.pfn as int * PAGE_SIZE) % usize_modulus()) as usize
            &&& t1 == t0.remove(p).insert(Page { pfn: (p.pfn + n) as usize, count: (p.count - n) as usize })
        },
        t2 == released(t1, Page { pfn: a / PAGE_SIZE, count: n }),
    ensures
        nonempty_runs(t2) == nonempty_runs(t0),
{
    let p = choose|p: Page| is_best_fit(t0, n as int, p);
    assert(t0.contains(p));
    assert(p.pfn * PAGE_SIZE <= usize::MAX) by (nonlinear_arith)
        requires (p.pfn + p.count) * 4096 <= usize::MAX, p.count >= 0;
    vstd::arithmetic::div_mod::lemma_small_mod((p.pfn * PAGE_SIZE) as nat, usize_modulus() as nat);
    assert(a / PAGE_SIZE == p.pfn) by (nonlinear_arith) requires a == p.pfn * 4096;
    assert forall|q: Page| #[trigger] t0.contains(q) implies q.pfn + q.count <= usize::MAX by {
        assert((q.pfn + q.count) * 4096 >= q.pfn + q.count) by (nonlinear_arith) requires q.pfn + q.count >= 0;
    }
    lemma_dealloc_undoes_alloc(t0, n as int, p);
}

} // verus!
