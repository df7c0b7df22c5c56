use vstd::prelude::*;
use crate::errno::Errno;
use crate::vma::{AreaFlag, UserAddressSpace};
use crate::memory::{Memory, flagged_at, flags_cover};

verus! {

/// How many bytes from `start`, up to `limit`, lie one after the other in readable areas
/// of `vma`: `limit` when all of them do, else the length of the readable run from `start`.
pub fn query_max_readable_len(start: usize, vma: &UserAddressSpace, limit: usize) -> (r: usize)
    requires
        vma.wf(),
    ensures
        r <= limit,
        flags_cover(vma@, start as int, start + r, AreaFlag { bits: 1 }),
        r < limit ==> !flagged_at(vma@, start + r, AreaFlag { bits: 1 }),
{
    let mut curr = start;
    loop
        invariant
            vma.wf(),
            start <= curr <= usize::MAX,
            curr - start < limit || curr == start,
            flags_cover(vma@, start as int, curr as int, AreaFlag { bits: 1 }),
        decreases usize::MAX - curr,
    {
        let area = match vma.find_area(curr) {
            Some(a) => a,
            None => {
                assert(!flagged_at(vma@, curr as int, AreaFlag { bits: 1 }));
                return curr - start;
            },
        };
        let ghost i = choose|i: int| 0 <= i < vma@.len() && vma@[i] == *area;
        if !area.flags.contains(AreaFlag::readable()) {
            proof {
                assert forall|j: int| 0 <= j < vma@.len() && (#[trigger] vma@[j]).spec_contains(curr as int)
                    implies !vma@[j].flags.spec_contains(AreaFlag { bits: 1 }) by {
                    crate::vma::lemma_areas_disjoint(vma@, i, j, curr as int);
                }
            }
            return curr - start;
        }
        proof {
            assert forall|x: int| start <= x < area.end implies #[trigger] flagged_at(vma@, x, AreaFlag { bits: 1 }) by {
                if x >= curr {
                    assert(vma@[i].spec_contains(x));
                }
            }
        }
        if limit <= area.end - start {
            proof {
                assert forall|x: int| start <= x < start + limit implies #[trigger] flagged_at(vma@, x, AreaFlag { bits: 1 }) by {
                    assert(start <= x < area.end);
                }
            }
            return limit;
        }
        curr = area.end;
    }
}

/// Length of the string at the start of `bytes`, the bytes that can be read from where it
/// starts: the position of its zero byte, or `EFAULT` when none of them is zero.
pub fn user_strlen(bytes: &[u8]) -> (r: Result<usize, Errno>)
    ensures
        match r {
            Ok(n) => n < bytes@.len() && bytes@[n as int] == 0 && forall|i: int| 0 <= i < n ==> bytes@[i] != 0,
            Err(e) => e == Errno::EFAULT && forall|i: int| 0 <= i < bytes@.len() ==> bytes@[i] != 0,
        },
{
    let mut i: usize = 0;
    while i < bytes.len()
        invariant
            i <= bytes@.len(),
            forall|k: int| 0 <= k < i ==> bytes@[k] != 0,
        decreases bytes@.len() - i,
    {
        if bytes[i] == 0 {
            return Ok(i);
        }
        i = i + 1;
    }
    Err(Errno::EFAULT)
}

/// Length of the path at the start of `bytes`: as `user_strlen`, and `EINVAL` for the
/// empty path.
pub fn verify_path(bytes: &[u8]) -> (r: Result<usize, Errno>)
    ensures
        match r {
            Ok(n) => 0 < n < bytes@.len() && bytes@[n as int] == 0 && forall|i: int| 0 <= i < n ==> bytes@[i] != 0,
            Err(e) => (e == Errno::EFAULT && forall|i: int| 0 <= i < bytes@.len() ==> bytes@[i] != 0)
                || (e == Errno::EINVAL && bytes@.len() > 0 && bytes@[0] == 0),
        },
{
    let length = user_strlen(bytes)?;
    if length == 0 {
        return Err(Errno::EINVAL);
    }
    Ok(length)
}

/// The `len` bytes from `buf_ptr` all lie in areas of `memory` with `flags`, else
/// `EFAULT`.
pub fn verify_region(buf_ptr: usize, len: usize, memory: &Memory, flags: AreaFlag) -> (r: Result<(), Errno>)
    requires
        memory.wf(),
    ensures
        r is Ok <==> buf_ptr + len <= usize::MAX && flags_cover(memory.areas(), buf_ptr as int, buf_ptr + len, flags),
        r is Err ==> r == Err::<(), Errno>(Errno::EFAULT),
{
    if !memory.query_flags_range(buf_ptr, len, flags) {
        return Err(Errno::EFAULT);
    }
    Ok(())
}

} // verus!
