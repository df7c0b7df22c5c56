use vstd::prelude::*;

verus! {

/// Error numbers that system calls report.
#[derive(Clone, Copy, Debug, PartialEq, Eq, Structural)]
pub enum Errno {
    /// Out of memory.
    ENOMEM,
    /// Invalid argument.
    EINVAL,
    /// Argument list too long.
    E2BIG,
    /// Bad address.
    EFAULT,
}

} // verus!
