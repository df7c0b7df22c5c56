use vstd::prelude::*;
use crate::constant::PAGE_MASK;

verus! {

/// Whether the page at `paddr` falls in the memory range of the first MTRR pair, whose
/// base and mask registers read `mtrr_base` and `mtrr_mask` (their low words): the page
/// of an APIC register block must, to be uncacheable.
pub fn is_uncacheable_page(paddr: usize, mtrr_base: usize, mtrr_mask: usize) -> (r: Result<(), ()>)
    ensures
        r is Ok <==> (mtrr_base & PAGE_MASK) & (mtrr_mask & PAGE_MASK) == paddr & (mtrr_mask & PAGE_MASK),
{
    let base = mtrr_base & PAGE_MASK;
    let mask = mtrr_mask & PAGE_MASK;
    if base & mask != paddr & mask {
        Err(())
    } else {
        Ok(())
    }
}

} // verus!
