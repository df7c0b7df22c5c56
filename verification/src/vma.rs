use vstd::prelude::*;
use core::cmp::Ordering;
use crate::constant::{PAGE_SIZE, PT_COVER_SIZE, VM_OFFSET};
use crate::paging::PageFlag;

verus! {

/// Start of the part of the address space that user areas may use.
pub const VALID_USER_START: usize = PT_COVER_SIZE;

/// End (exclusive) of the part of the address space that user areas may use.
pub const VALID_USER_END: usize = VM_OFFSET;

/// Access rights of a user memory area, as a bit set.
#[derive(Clone, Copy, Debug, PartialEq, Eq, Structural)]
pub struct AreaFlag {
    pub bits: u32,
}

impl AreaFlag {
    pub const READABLE_BIT: u32 = 1;
    pub const WRITABLE_BIT: u32 = 2;

    /// The area may be read.
    pub fn readable() -> (f: AreaFlag)
        ensures
            f.bits == 1,
    {
        AreaFlag { bits: 1 }
    }

    /// The area may be written.
    pub fn writable() -> (f: AreaFlag)
        ensures
            f.bits == 2,
    {
        AreaFlag { bits: 2 }
    }

    /// No access right.
    pub fn empty() -> (f: AreaFlag)
        ensures
            f.bits == 0,
    {
        AreaFlag { bits: 0 }
    }

    pub open spec fn spec_contains(self, other: AreaFlag) -> bool {
        self.bits & other.bits == other.bits
    }

    /// Every bit of `other` is set in `self`.
    pub fn contains(&self, other: AreaFlag) -> (r: bool)
        ensures
            r == self.spec_contains(other),
    {
        self.bits & other.bits == other.bits
    }

    /// The bits of both sets.
    pub fn union(&self, other: AreaFlag) -> (f: AreaFlag)
        ensures
            f.bits == self.bits | other.bits,
    {
        AreaFlag { bits: self.bits | other.bits }
    }

    /// The page flags for a user page of an area with these rights: present and user, and
    /// writable when the area is.
    pub open spec fn spec_page_flag(self) -> PageFlag {
        if self.spec_contains(AreaFlag { bits: 2 }) { PageFlag { bits: 7 } } else { PageFlag { bits: 5 } }
    }

    /// The page flags for a user page of an area with these rights.
    pub fn to_page_flag(&self) -> (f: PageFlag)
        ensures
            f == self.spec_page_flag(),
    {
        if self.contains(AreaFlag::writable()) {
            PageFlag::user_rdwr()
        } else {
            PageFlag::user_rdonly()
        }
    }
}

/// User memory area, the half-open range `[start, end)`.
#[derive(Clone, Copy, Debug, PartialEq, Eq, Structural)]
pub struct Area {
    pub start: usize,
    pub end: usize,
    pub flags: AreaFlag,
}

impl Area {
    pub open spec fn spec_contains(self, addr: int) -> bool {
        self.start <= addr < self.end
    }

    pub fn new(start: usize, end: usize, flags: AreaFlag) -> (a: Area)
        ensures
            a == (Area { start, end, flags }),
    {
        Area { start, end, flags }
    }

    /// `addr` lies in the area.
    pub fn contains(&self, addr: usize) -> (r: bool)
        ensures
            r == self.spec_contains(addr as int),
    {
        self.start <= addr && addr < self.end
    }

    /// The two half-open areas share an address.
    pub fn is_overlap(&self, other: &Area) -> (r: bool)
        ensures
            r == (other.start < self.end && self.start < other.end),
    {
        other.start < self.end && self.start < other.end
    }

    /// Where the area lies relative to `addr`: `Less` when it ends at or before `addr`,
    /// `Greater` when it starts after `addr`, `Equal` when it contains `addr`.
    pub fn cmp_addr(&self, addr: usize) -> (r: Ordering)
        ensures
            (r == Ordering::Less) == (self.end <= addr),
            (r == Ordering::Greater) == (self.end > addr && self.start > addr),
            (r == Ordering::Equal) == (self.end > addr && self.start <= addr),
    {
        if self.end <= addr {
            Ordering::Less
        } else if self.start > addr {
            Ordering::Greater
        } else {
            Ordering::Equal
        }
    }

    /// The start addresses of the whole pages of the area, in order.
    pub fn iter_pages(&self) -> (it: AreaPageIter)
        requires
            self.start <= self.end,
        ensures
            it.start == self.start,
            it.nr_pages == (self.end - self.start) / PAGE_SIZE as int,
    {
        AreaPageIter { start: self.start, nr_pages: (self.end - self.start) / PAGE_SIZE }
    }
}

/// Walk over the page start addresses of an area.
pub struct AreaPageIter {
    pub start: usize,
    pub nr_pages: usize,
}

impl AreaPageIter {
    /// The next page start address, if pages remain.
    pub fn next(&mut self) -> (r: Option<usize>)
        requires
            old(self).nr_pages > 0 ==> old(self).start + PAGE_SIZE <= usize::MAX,
        ensures
            old(self).nr_pages == 0 ==> r is None && *final(self) == *old(self),
            old(self).nr_pages > 0 ==> {
                &&& r == Some(old(self).start)
                &&& final(self).start == old(self).start + PAGE_SIZE
                &&& final(self).nr_pages == old(self).nr_pages - 1
            },
    {
        if self.nr_pages == 0 {
            return None;
        }
        let ret = self.start;
        self.start = self.start + PAGE_SIZE;
        self.nr_pages = self.nr_pages - 1;
        Some(ret)
    }
}

/// Areas that are ordered, non-overlapping and inside the user part of the address space.
pub open spec fn areas_wf(areas: Seq<Area>) -> bool {
    &&& forall|i: int| 0 <= i < areas.len() ==>
        VALID_USER_START <= #[trigger] areas[i].start <= areas[i].end <= VALID_USER_END
    &&& forall|i: int, j: int| 0 <= i < j < areas.len() ==>
        #[trigger] areas[i].end <= #[trigger] areas[j].start
}

/// Lower end of the `i`-th gap between areas.
pub open spec fn gap_lo(areas: Seq<Area>, i: int) -> int {
    if i == 0 { VALID_USER_START as int } else { areas[i - 1].end as int }
}

/// Upper end of the `i`-th gap between areas.
pub open spec fn gap_hi(areas: Seq<Area>, i: int) -> int {
    if i == areas.len() { VALID_USER_END as int } else { areas[i].start as int }
}

/// The `i`-th gap is the first one that holds `size` bytes.
pub open spec fn first_fit(areas: Seq<Area>, size: int, i: int) -> bool {
    &&& 0 <= i <= areas.len()
    &&& gap_hi(areas, i) - gap_lo(areas, i) >= size
    &&& forall|j: int| 0 <= j < i ==> #[trigger] gap_hi(areas, j) - gap_lo(areas, j) < size
}

/// Some area contains `addr`.
pub open spec fn covers(areas: Seq<Area>, addr: int) -> bool {
    exists|i: int| 0 <= i < areas.len() && (#[trigger] areas[i]).spec_contains(addr)
}

/// `[start, end)` can be placed among the areas at `start` without touching any of them.
pub open spec fn fixed_fits(areas: Seq<Area>, start: int, end: int) -> bool {
    &&& VALID_USER_START <= start
    &&& end <= VALID_USER_END
    &&& forall|i: int| 0 <= i < areas.len() ==>
        (#[trigger] areas[i]).start != start && (areas[i].end <= start || end <= areas[i].start)
}

/// Error of a failed allocation.
#[derive(Debug, PartialEq, Eq, Structural)]
pub struct AllocError;

/// The user part of an address space: its allocated areas, ordered by address.
pub struct UserAddressSpace {
    areas: Vec<Area>,
}

impl UserAddressSpace {
    pub closed spec fn view(&self) -> Seq<Area> {
        self.areas@
    }

    pub open spec fn wf(&self) -> bool {
        areas_wf(self@)
    }

    pub fn new() -> (s: UserAddressSpace)
        ensures
            s.wf(),
            s@ == Seq::<Area>::empty(),
            user_areas_ok(s@),
    {
        UserAddressSpace { areas: Vec::new() }
    }

    /// First index whose area ends after `addr`.
    fn first_ending_after(&self, addr: usize) -> (idx: usize)
        requires
            self.wf(),
        ensures
            idx <= self@.len(),
            forall|i: int| 0 <= i < idx ==> (#[trigger] self@[i]).end <= addr,
            idx < self@.len() ==> self@[idx as int].end > addr,
    {
        let mut lo: usize = 0;
        let mut hi: usize = self.areas.len();
        while lo < hi
            invariant
                self.wf(),
                0 <= lo <= hi <= self@.len(),
                forall|i: int| 0 <= i < lo ==> (#[trigger] self@[i]).end <= addr,
                forall|i: int| hi <= i < self@.len() ==> (#[trigger] self@[i]).end > addr,
            decreases hi - lo,
        {
            let mid = lo + (hi - lo) / 2;
            if self.areas[mid].end <= addr {
                proof {
                    assert forall|i: int| 0 <= i < mid + 1 implies (#[trigger] self@[i]).end <= addr by {
                        if i < mid {
                            assert(self@[i].end <= self@[mid as int].start);
                        }
                    }
                }
                lo = mid + 1;
            } else {
                proof {
                    assert forall|i: int| mid <= i < self@.len() implies (#[trigger] self@[i]).end > addr by {
                        if i > mid {
                            assert(self@[mid as int].end <= self@[i].start);
                        }
                    }
                }
                hi = mid;
            }
        }
        lo
    }

    /// First index whose area starts at or after `start`.
    fn first_starting_from(&self, start: usize) -> (idx: usize)
        requires
            self.wf(),
        ensures
            idx <= self@.len(),
            forall|i: int| 0 <= i < idx ==> (#[trigger] self@[i]).start < start,
            forall|i: int| idx <= i < self@.len() ==> (#[trigger] self@[i]).start >= start,
    {
        let mut lo: usize = 0;
        let mut hi: usize = self.areas.len();
        while lo < hi
            invariant
                self.wf(),
                0 <= lo <= hi <= self@.len(),
                forall|i: int| 0 <= i < lo ==> (#[trigger] self@[i]).start < start,
                forall|i: int| hi <= i < self@.len() ==> (#[trigger] self@[i]).start >= start,
            decreases hi - lo,
        {
            let mid = lo + (hi - lo) / 2;
            if self.areas[mid].start < start {
                proof {
                    assert forall|i: int| 0 <= i < mid + 1 implies (#[trigger] self@[i]).start < start by {
                        if i < mid {
                            assert(self@[i].end <= self@[mid as int].start);
                        }
                    }
                }
                lo = mid + 1;
            } else {
                proof {
                    assert forall|i: int| mid <= i < self@.len() implies (#[trigger] self@[i]).start >= start by {
                        if i > mid {
                            assert(self@[mid as int].end <= self@[i].start);
                        }
                    }
                }
                hi = mid;
            }
        }
        lo
    }

    /// The area that contains `addr`, if any.
    pub fn find_area(&self, addr: usize) -> (r: Option<&Area>)
        requires
            self.wf(),
        ensures
            r is None <==> !covers(self@, addr as int),
            r matches Some(a) ==> a.spec_contains(addr as int)
                && exists|i: int| 0 <= i < self@.len() && self@[i] == *a,
    {
        let idx = self.first_ending_after(addr);
        if idx < self.areas.len() && self.areas[idx].start <= addr {
            Some(&self.areas[idx])
        } else {
            proof {
                assert forall|i: int| 0 <= i < self@.len() implies !(#[trigger] self@[i]).spec_contains(addr as int) by {
                    if i > idx {
                        assert(self@[idx as int].end <= self@[i].start);
                    }
                }
            }
            None
        }
    }

    /// An area contains `addr` and grants every right in `flag`.
    pub fn query_flag(&self, addr: usize, flag: AreaFlag) -> (r: bool)
        requires
            self.wf(),
        ensures
            r == exists|i: int| 0 <= i < self@.len()
                && (#[trigger] self@[i]).spec_contains(addr as int)
                && self@[i].flags.spec_contains(flag),
    {
        match self.find_area(addr) {
            Some(area) => {
                let r = area.flags.contains(flag);
                proof {
                    if !r {
                        assert forall|i: int| 0 <= i < self@.len() && (#[trigger] self@[i]).spec_contains(addr as int)
                            implies !self@[i].flags.spec_contains(flag) by {
                            let j = choose|j: int| 0 <= j < self@.len() && self@[j] == *area;
                            if i != j {
                                if i < j {
                                    assert(self@[i].end <= self@[j].start);
                                } else {
                                    assert(self@[j].end <= self@[i].start);
                                }
                            }
                        }
                    }
                }
                r
            },
            None => false,
        }
    }

    /// Reserves `count` pages starting exactly at `start`.
    pub fn allocate_fixed_area(&mut self, start: usize, count: usize, flags: AreaFlag) -> (r: Result<usize, AllocError>)
        requires
            old(self).wf(),
        ensures
            final(self).wf(),
            count >= 1 && user_areas_ok(old(self)@) ==> user_areas_ok(final(self)@),
            ({
                let end = start + count * PAGE_SIZE;
                if end <= usize::MAX && fixed_fits(old(self)@, start as int, end) {
                    &&& r == Ok::<usize, AllocError>(start)
                    &&& exists|i: int| 0 <= i <= old(self)@.len()
                        && final(self)@ == #[trigger] old(self)@.insert(i, (Area { start, end: end as usize, flags }))
                } else {
                    &&& r == Err::<usize, AllocError>(AllocError)
                    &&& final(self)@ == old(self)@
                }
            }),
    {
        let end = match count.checked_mul(PAGE_SIZE) {
            Some(x) => match x.checked_add(start) {
                Some(e) => e,
                None => return Err(AllocError),
            },
            None => return Err(AllocError),
        };
        let idx = self.first_starting_from(start);
        if idx < self.areas.len() && self.areas[idx].start == start {
            return Err(AllocError);
        }
        let l_area_end = if idx == 0 { VALID_USER_START } else { self.areas[idx - 1].end };
        let r_area_start = if idx == self.areas.len() { VALID_USER_END } else { self.areas[idx].start };
        if l_area_end <= start && end <= r_area_start {
            let ghost before = self@;
            let new_area = Area::new(start, end, flags);
            self.areas.insert(idx, new_area);
            proof {
                assert(self@ == before.insert(idx as int, new_area));
                assert forall|i: int| 0 <= i < before.len() implies
                    (#[trigger] before[i]).start != start && (before[i].end <= start || end <= before[i].start) by {
                    if i < idx {
                        if i < idx - 1 {
                            assert(before[i].end <= before[idx - 1].start);
                        }
                    } else if i > idx {
                        assert(before[idx as int].end <= before[i].start);
                    }
                }
                assert(areas_wf(self@)) by {
                    assert forall|i: int, j: int| 0 <= i < j < self@.len() implies
                        #[trigger] self@[i].end <= #[trigger] self@[j].start by {
                        if j < idx {
                        } else if i < idx && j == idx {
                            if i < idx - 1 {
                                assert(before[i].end <= before[idx - 1].start);
                            }
                        } else if i < idx && j > idx {
                            assert(before[i].end <= before[j - 1].start);
                        } else if i == idx {
                            if j > idx + 1 {
                                assert(before[idx as int].end <= before[j - 1].start);
                            }
                        } else {
                            assert(before[i - 1].end <= before[j - 1].start);
                        }
                    }
                }
            }
            Ok(start)
        } else {
            proof {
                let old_areas = self@;
                if idx == 0 && l_area_end > start {
                } else if l_area_end > start {
                    assert(old_areas[idx - 1].start < start);
                    assert(!(old_areas[idx - 1].end <= start || end <= old_areas[idx - 1].start));
                } else {
                    assert(end > r_area_start);
                    if idx < old_areas.len() {
                        assert(!(old_areas[idx as int].end <= start || end <= old_areas[idx as int].start));
                    }
                }
            }
            Err(AllocError)
        }
    }

    /// Reserves `count` pages in the first gap that holds them.
    pub fn allocate_area(&mut self, count: usize, flags: AreaFlag) -> (r: Result<usize, AllocError>)
        requires
            old(self).wf(),
        ensures
            final(self).wf(),
            count >= 1 && user_areas_ok(old(self)@) ==> user_areas_ok(final(self)@),
            count * PAGE_SIZE > usize::MAX ==> r is Err && final(self)@ == old(self)@,
            count * PAGE_SIZE <= usize::MAX ==> {
                match r {
                    Ok(s) => exists|i: int| #[trigger] first_fit(old(self)@, count * PAGE_SIZE, i)
                        && s == gap_lo(old(self)@, i)
                        && final(self)@ == old(self)@.insert(i, Area { start: s, end: (s + count * PAGE_SIZE) as usize, flags }),
                    Err(_) => final(self)@ == old(self)@
                        && forall|i: int| 0 <= i <= old(self)@.len() ==>
                            #[trigger] gap_hi(old(self)@, i) - gap_lo(old(self)@, i) < count * PAGE_SIZE,
                }
            },
    {
        let size = match count.checked_mul(PAGE_SIZE) {
            Some(s) => s,
            None => return Err(AllocError),
        };
        let len = self.areas.len();
        let mut i: usize = 0;
        loop
            invariant
                self.wf(),
                self@ == old(self)@,
                len == self@.len(),
                size == count * PAGE_SIZE,
                i <= len,
                forall|j: int| 0 <= j < i ==> #[trigger] gap_hi(self@, j) - gap_lo(self@, j) < size,
            decreases len - i,
        {
            let lo = if i == 0 { VALID_USER_START } else { self.areas[i - 1].end };
            let hi = if i == len { VALID_USER_END } else { self.areas[i].start };
            proof {
                if i > 0 && i < len {
                    assert(self@[i - 1].end <= self@[i as int].start);
                }
                if i > 0 {
                    assert(VALID_USER_START <= self@[i - 1].start <= self@[i - 1].end <= VALID_USER_END);
                }
                if i < len {
                    assert(VALID_USER_START <= self@[i as int].start <= self@[i as int].end <= VALID_USER_END);
                }
                assert(lo == gap_lo(self@, i as int));
                assert(hi == gap_hi(self@, i as int));
            }
            if hi - lo >= size {
                let ghost before = self@;
                let new_area = Area::new(lo, lo + size, flags);
                self.areas.insert(i, new_area);
                proof {
                    assert(first_fit(before, size as int, i as int));
                    assert(self@ == before.insert(i as int, new_area));
                    assert(areas_wf(self@)) by {
                        assert forall|a: int| 0 <= a < self@.len() implies
                            VALID_USER_START <= #[trigger] self@[a].start <= self@[a].end <= VALID_USER_END by {
                            if a < i {
                                assert(VALID_USER_START <= before[a].start <= before[a].end <= VALID_USER_END);
                            } else if a > i {
                                assert(VALID_USER_START <= before[a - 1].start <= before[a - 1].end <= VALID_USER_END);
                            }
                        }
                        assert forall|a: int, b: int| 0 <= a < b < self@.len() implies
                            #[trigger] self@[a].end <= #[trigger] self@[b].start by {
                            if b < i {
                            } else if a < i && b == i {
                                if a < i - 1 {
                                    assert(before[a].end <= before[i - 1].start);
                                }
                            } else if a < i && b > i {
                                assert(before[a].end <= before[b - 1].start);
                            } else if a == i {
                                if b > i + 1 {
                                    assert(before[i as int].end <= before[b - 1].start);
                                }
                            } else {
                                assert(before[a - 1].end <= before[b - 1].start);
                            }
                        }
                    }
                }
                return Ok(lo);
            }
            if i == len {
                assert(forall|j: int| 0 <= j <= self@.len() ==> #[trigger] gap_hi(self@, j) - gap_lo(self@, j) < count * PAGE_SIZE);
                return Err(AllocError);
            }
            i = i + 1;
        }
    }

    /// Releases the area that starts at `area_start`, handing it back.
    pub fn deallocate_area(&mut self, area_start: usize) -> (r: Option<Area>)
        requires
            old(self).wf(),
        ensures
            final(self).wf(),
            user_areas_ok(old(self)@) ==> user_areas_ok(final(self)@),
            match r {
                Some(a) => exists|i: int| 0 <= i < old(self)@.len()
                    && old(self)@[i] == a && a.start == area_start
                    && (forall|j: int| 0 <= j < i ==> (#[trigger] old(self)@[j]).start != area_start)
                    && final(self)@ == old(self)@.remove(i),
                None => final(self)@ == old(self)@
                    && forall|i: int| 0 <= i < old(self)@.len() ==> (#[trigger] old(self)@[i]).start != area_start,
            },
    {
        let idx = self.first_starting_from(area_start);
        if idx < self.areas.len() && self.areas[idx].start == area_start {
            let ghost before = self@;
            let a = self.areas.remove(idx);
            proof {
                assert(self@ == before.remove(idx as int));
                assert(areas_wf(self@)) by {
                    assert forall|x: int, y: int| 0 <= x < y < self@.len() implies
                        #[trigger] self@[x].end <= #[trigger] self@[y].start by {
                        if x < idx && y >= idx {
                            assert(before[x].end <= before[y + 1].start);
                        } else if x >= idx {
                            assert(before[x + 1].end <= before[y + 1].start);
                        }
                    }
                }
            }
            Some(a)
        } else {
            None
        }
    }

    /// A copy of the address space: the same areas.
    pub fn clone(&self) -> (r: UserAddressSpace)
        ensures
            r@ == self@,
    {
        let mut areas: Vec<Area> = Vec::new();
        let mut i: usize = 0;
        while i < self.areas.len()
            invariant
                i <= self.areas@.len(),
                areas@ == self.areas@.subrange(0, i as int),
            decreases self.areas@.len() - i,
        {
            areas.push(self.areas[i]);
            i = i + 1;
            assert(areas@ =~= self.areas@.subrange(0, i as int));
        }
        assert(areas@ =~= self.areas@);
        UserAddressSpace { areas }
    }

    /// The allocated areas, ordered by address.
    pub fn get_areas(&self) -> (r: &Vec<Area>)
        ensures
            r@ == self@,
    {
        &self.areas
    }
}

/// A reserved area is the one and only area found at each of its addresses: once
/// `area` stands among well-formed areas, every area holding an address of `area` is `area`.
pub proof fn lemma_reserved_area_is_found(areas: Seq<Area>, i: int, addr: int)
    requires
        areas_wf(areas),
        0 <= i < areas.len(),
        areas[i].spec_contains(addr),
    ensures
        covers(areas, addr),
        forall|k: int| 0 <= k < areas.len() && (#[trigger] areas[k]).spec_contains(addr) ==> k == i,
{
    assert forall|k: int| 0 <= k < areas.len() && (#[trigger] areas[k]).spec_contains(addr) implies k == i by {
        if k < i {
            assert(areas[k].end <= areas[i].start);
        } else if k > i {
            assert(areas[i].end <= areas[k].start);
        }
    }
}

/// Once an area is released, none of its addresses is covered by the remaining areas.
pub proof fn lemma_released_area_is_gone(areas: Seq<Area>, i: int, addr: int)
    requires
        areas_wf(areas),
        0 <= i < areas.len(),
        areas[i].spec_contains(addr),
    ensures
        !covers(areas.remove(i), addr),
{
    lemma_reserved_area_is_found(areas, i, addr);
    let rest = areas.remove(i);
    assert forall|k: int| 0 <= k < rest.len() implies !(#[trigger] rest[k]).spec_contains(addr) by {
        if k < i {
            assert(rest[k] == areas[k]);
        } else {
            assert(rest[k] == areas[k + 1]);
        }
    }
}

/// A well-formed address space has no two areas sharing an address.
pub proof fn lemma_areas_disjoint(areas: Seq<Area>, i: int, j: int, addr: int)
    requires
        areas_wf(areas),
        0 <= i < areas.len(),
        0 <= j < areas.len(),
        areas[i].spec_contains(addr),
        areas[j].spec_contains(addr),
    ensures
        i == j,
{
    lemma_reserved_area_is_found(areas, i, addr);
}

/// Only one gap is the first to hold a size.
pub proof fn lemma_first_fit_unique(areas: Seq<Area>, size: int, i: int, k: int)
    requires
        first_fit(areas, size, i),
        first_fit(areas, size, k),
    ensures
        i == k,
{
    if i < k {
        assert(gap_hi(areas, i) - gap_lo(areas, i) < size);
    } else if k < i {
        assert(gap_hi(areas, k) - gap_lo(areas, k) < size);
    }
}


/// Releasing the area just reserved gives back the areas there were: in an address space
/// of areas that are not empty, the first area that starts where a new area starts is that
/// area, and taking it out leaves the areas as they were before it went in.
pub proof fn lemma_release_undoes_reserve(a0: Seq<Area>, i: int, area: Area, j: int)
    requires
        0 <= i <= a0.len(),
        areas_wf(a0.insert(i, area)),
        forall|k: int| 0 <= k < a0.len() ==> (#[trigger] a0[k]).start < a0[k].end,
        area.start < area.end,
        0 <= j < a0.len() + 1,
        a0.insert(i, area)[j].start == area.start,
        forall|k: int| 0 <= k < j ==> (#[trigger] a0.insert(i, area)[k]).start != area.start,
    ensures
        j == i,
        a0.insert(i, area).remove(j) == a0,
{
    let a1 = a0.insert(i, area);
    if j < i {
        assert(a1[j] == a0[j]);
        assert(a1[j].end <= a1[i].start);
    } else if j > i {
        assert(a1[i].start == area.start);
    }
    assert(a1.remove(i) =~= a0);
}


/// The areas of a user address space as the original keeps them: each holds at least
/// one byte, lies in `[VALID_USER_START, VALID_USER_END)`, and they start in strictly
/// increasing order, apart.
pub open spec fn user_areas_ok(a: Seq<Area>) -> bool {
    &&& areas_wf(a)
    &&& forall|i: int| 0 <= i < a.len() ==> (#[trigger] a[i]).start < a[i].end
    &&& forall|i: int, j: int| 0 <= i < j < a.len() ==> #[trigger] a[i].start < #[trigger] a[j].start
}

/// An empty address space meets the law.
pub proof fn lemma_new_areas_ok()
    ensures
        user_areas_ok(Seq::<Area>::empty()),
{
}

/// Reserving an area that holds at least one byte (`allocate_fixed_area` or
/// `allocate_area` with at least one page) keeps the areas non-empty, in user space and
/// in strictly increasing order of start.
pub proof fn lemma_allocate_keeps_areas_ok(a: Seq<Area>, b: Seq<Area>, i: int, x: Area)
    requires
        user_areas_ok(a),
        areas_wf(b),
        0 <= i <= a.len(),
        b == a.insert(i, x),
        x.start < x.end,
    ensures
        user_areas_ok(b),
{
    assert forall|k: int| 0 <= k < b.len() implies (#[trigger] b[k]).start < b[k].end by {
        if k < i {
            assert(b[k] == a[k]);
        } else if k > i {
            assert(b[k] == a[k - 1]);
        }
    }
    assert forall|k: int, j: int| 0 <= k < j < b.len() implies #[trigger] b[k].start < #[trigger] b[j].start by {
        assert(b[k].end <= b[j].start);
        assert(b[k].start < b[k].end);
    }
}

/// Giving back an area (`deallocate_area`) keeps the areas non-empty, in user space and
/// in strictly increasing order of start.
pub proof fn lemma_deallocate_keeps_areas_ok(a: Seq<Area>, i: int)
    requires
        user_areas_ok(a),
        0 <= i < a.len(),
    ensures
        user_areas_ok(a.remove(i)),
{
    let b = a.remove(i);
    assert forall|k: int| 0 <= k < b.len() implies VALID_USER_START <= #[trigger] b[k].start <= b[k].end <= VALID_USER_END
        && b[k].start < b[k].end by {
        if k < i {
            assert(b[k] == a[k]);
        } else {
            assert(b[k] == a[k + 1]);
        }
    }
    assert forall|k: int, j: int| 0 <= k < j < b.len() implies #[trigger] b[k].end <= #[trigger] b[j].start
        && b[k].start < b[j].start by {
        let ak = if k < i { k } else { k + 1 };
        let aj = if j < i { j } else { j + 1 };
        assert(b[k] == a[ak]);
        assert(b[j] == a[aj]);
        assert(a[ak].end <= a[aj].start);
    }
}


/// The page flags of an area's pages: always present and user; writable exactly when the
/// area may be written; no other bit.
pub proof fn lemma_page_flag_follows_rights(f: AreaFlag)
    ensures
        (f.spec_page_flag().bits & 2 != 0) == (f.bits & 2 != 0),
        f.spec_page_flag().bits & 1 == 1,
        f.spec_page_flag().bits & 4 == 4,
        f.spec_page_flag().bits & !7u32 == 0,
{
    let b = f.bits;
    let r = f.spec_page_flag().bits;
    assert(((b & 2u32) == 2u32) == ((b & 2u32) != 0u32)
        && (7u32 & 2u32) != 0u32 && (5u32 & 2u32) == 0u32
        && (7u32 & 1u32) == 1u32 && (5u32 & 1u32) == 1u32
        && (7u32 & 4u32) == 4u32 && (5u32 & 4u32) == 4u32
        && (7u32 & !7u32) == 0u32 && (5u32 & !7u32) == 0u32) by (bit_vector);
}

} // verus!
