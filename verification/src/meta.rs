use vstd::prelude::*;
use crate::constant::PAGE_SHIFT;

verus! {

/// Mask of the `n` low bits; all bits once `n` reaches the width of `usize`.
pub open spec fn low_mask(n: u32) -> usize {
    if n < usize::BITS { ((1usize << n) - 1) as usize } else { !0usize }
}

/// The bits `[start, end)` of a word.
#[derive(Clone, Copy, Debug, PartialEq, Eq, Structural)]
pub struct BitRange {
    pub start: usize,
    pub end: usize,
}

impl BitRange {
    pub fn new(start: usize, end: usize) -> (r: BitRange)
        ensures
            r == (BitRange { start, end }),
    {
        BitRange { start, end }
    }

    /// Mask of the low bits below `idx` (all bits when the shift does not fit).
    pub fn make_mask(idx: usize) -> (m: usize)
        ensures
            m == low_mask(idx as u32),
    {
        let sh: u32 = idx as u32;
        if sh < usize::BITS {
            assert(sh < usize::BITS ==> (1usize << sh) >= 1) by (bit_vector);
            (1usize << sh) - 1
        } else {
            !0usize
        }
    }

    pub open spec fn spec_mask(self) -> usize {
        low_mask(self.end as u32) & !low_mask(self.start as u32)
    }

    /// Mask of the bits of the range.
    pub fn mask(&self) -> (m: usize)
        ensures
            m == self.spec_mask(),
    {
        Self::make_mask(self.end) & !Self::make_mask(self.start)
    }
}

/// Page metadata packed in one word: in-use flag, rank, and mapped address.
#[derive(Clone, Copy, Debug, PartialEq, Eq, Structural)]
pub struct MetaData {
    pub bits: usize,
}

/// Range of the in-use flag.
pub open spec fn inuse_range() -> BitRange {
    BitRange { start: 0, end: 1 }
}

/// Range of the rank.
pub open spec fn rank_range() -> BitRange {
    BitRange { start: 1, end: 5 }
}

/// Range of the mapped address.
pub open spec fn mapped_range() -> BitRange {
    BitRange { start: PAGE_SHIFT, end: usize::BITS as usize }
}

/// The mask of the mapped address: every bit from bit 12 up.
pub open spec fn mapped_mask() -> usize {
    !0xfffusize
}

/// Value of the field `range` in the word `v`.
pub open spec fn field_of(v: usize, range: BitRange) -> usize {
    (v & range.spec_mask()) >> range.start
}

proof fn lemma_mapped_mask()
    ensures
        mapped_range().spec_mask() == mapped_mask(),
{
    assert(usize::BITS == 32 || usize::BITS == 64);
    assert(((1usize << 12u32) - 1) as usize == 0xfffusize) by (bit_vector);
    assert(!0usize & !0xfffusize == !0xfffusize) by (bit_vector);
}

impl MetaData {
    /// The range of the in-use flag.
    pub fn inuse_range() -> (r: BitRange)
        ensures
            r == inuse_range(),
    {
        BitRange::new(0, 1)
    }

    /// The range of the rank.
    pub fn rank_range() -> (r: BitRange)
        ensures
            r == rank_range(),
    {
        BitRange::new(1, 5)
    }

    /// The range of the mapped address.
    pub fn mapped_range() -> (r: BitRange)
        ensures
            r == mapped_range(),
    {
        BitRange::new(PAGE_SHIFT, usize::BITS as usize)
    }

    pub fn new_unmapped() -> (d: MetaData)
        ensures
            d.bits == 0,
    {
        MetaData { bits: 0 }
    }

    /// Metadata of a page mapped at `mapped_addr` (its page offset dropped).
    pub fn new(mapped_addr: usize) -> (d: MetaData)
        ensures
            d.bits == mapped_addr & mapped_mask(),
    {
        proof { lemma_mapped_mask(); }
        MetaData { bits: mapped_addr & Self::mapped_range().mask() }
    }

    /// Replaces the mapped address, keeping the flags.
    pub fn remap(&mut self, new_addr: usize)
        ensures
            final(self).bits & mapped_mask() == new_addr & mapped_mask(),
            final(self).bits & !mapped_mask() == old(self).bits & !mapped_mask(),
    {
        proof { lemma_mapped_mask(); }
        let m = Self::mapped_range().mask();
        let v = self.bits;
        self.bits = (v & !m) | (new_addr & m);
        assert(((v & !m) | (new_addr & m)) & m == new_addr & m) by (bit_vector);
        assert(((v & !m) | (new_addr & m)) & !m == v & !m) by (bit_vector);
    }

    /// The mapped address.
    pub fn mapped_addr(&self) -> (a: usize)
        ensures
            a == self.bits & mapped_mask(),
    {
        proof { lemma_mapped_mask(); }
        self.bits & Self::mapped_range().mask()
    }

    /// Value of the field `range`.
    pub fn get_flag(&self, range: BitRange) -> (v: usize)
        requires
            range.start < usize::BITS,
        ensures
            v == field_of(self.bits, range),
    {
        (self.bits & range.mask()) >> range.start
    }

    /// Sets the field `range` to the low bits of `bits`, keeping every other bit.
    pub fn set_flag(&mut self, range: BitRange, bits: usize)
        requires
            range.start < usize::BITS,
        ensures
            final(self).bits & range.spec_mask() == (bits << range.start) & range.spec_mask(),
            final(self).bits & !range.spec_mask() == old(self).bits & !range.spec_mask(),
    {
        let m = range.mask();
        let v = self.bits;
        let b = bits << range.start;
        self.bits = (v & !m) | (b & m);
        assert(((v & !m) | (b & m)) & m == b & m) by (bit_vector);
        assert(((v & !m) | (b & m)) & !m == v & !m) by (bit_vector);
    }
}

/// A field set to a value that fits in it reads back as that value.
pub proof fn lemma_field_set_get(v: usize, range: BitRange, bits: usize)
    requires
        range.start < range.end < usize::BITS,
        bits < (1usize << ((range.end - range.start) as usize)),
        v & range.spec_mask() == (bits << range.start) & range.spec_mask(),
    ensures
        field_of(v, range) == bits,
{
    let s = range.start;
    let e = range.end;
    assert(range.spec_mask() == ((((1usize << e) - 1) as usize) & !(((1usize << s) - 1) as usize)));
    let m = range.spec_mask();
    assert((v & m) >> s == bits) by (bit_vector)
        requires
            s < e,
            e < usize::BITS,
            bits < (1usize << ((e - s) as usize)),
            m == ((((1usize << e) - 1) as usize) & !(((1usize << s) - 1) as usize)),
            v & m == (bits << s) & m,
    ;
}

} // verus!
