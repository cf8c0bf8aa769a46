//! Error numbers, with the values of the Linux convention. A failed system
//! call returns the negated number.
use vstd::prelude::*;

verus! {

pub const EPERM: u32 = 1;
pub const ENOENT: u32 = 2;
pub const ESRCH: u32 = 3;
pub const E2BIG: u32 = 7;
pub const ENOEXEC: u32 = 8;
pub const ECHILD: u32 = 10;
pub const EAGAIN: u32 = 11;
pub const ENOMEM: u32 = 12;
pub const EFAULT: u32 = 14;
pub const EINVAL: u32 = 22;
pub const ENOSYS: u32 = 38;

/// The error numbers are Linux's, so a user library can share them.
pub proof fn law_errno_values()
    ensures
        EPERM == 1 && ENOENT == 2 && ESRCH == 3 && E2BIG == 7 && ENOEXEC == 8 && ECHILD == 10,
        EAGAIN == 11 && ENOMEM == 12 && EFAULT == 14 && EINVAL == 22 && ENOSYS == 38,
{
}

} // verus!
