//! OtterOS kernel logic: the memory-management, driver-protocol, loader and
//! scheduling decisions of the kernel, each with a machine-checked contract.
use vstd::prelude::*;

pub mod mm;
pub mod net;
pub mod drivers;
pub mod framebuffer;
pub mod fs;
pub mod proc;
pub mod random;
pub mod sched;
pub mod serial;
pub mod syscall;

verus! {

} // verus!
