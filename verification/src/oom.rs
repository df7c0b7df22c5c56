use vstd::prelude::*;
use crate::constant::OOM_WATER_MARK;

verus! {

/// One round of the out-of-memory handler: with `available` free pages, whether the
/// caches must be asked to give memory back before the handler sleeps again (it must
/// while fewer than `OOM_WATER_MARK` pages are free).
pub fn oom_handler(available: usize) -> (reclaim: bool)
    ensures
        reclaim == (available < OOM_WATER_MARK),
{
    available < OOM_WATER_MARK
}

} // verus!
