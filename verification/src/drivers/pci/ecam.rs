//! The ECAM window: where a PCI segment's configuration space is seen.
use vstd::prelude::*;
use crate::mm::addr::{PhysAddr, VirtAddr};
use crate::mm::hhdm::{Hhdm, phys_to_virt};

verus! {

/// The virtual address at which the ECAM window at `base_addr` is seen:
/// its alias in the direct map (the window is `_size` bytes; the direct
/// map covers all of it).
pub fn map_ecam_window(hhdm: &Hhdm, base_addr: PhysAddr, _size: u64) -> (r: VirtAddr)
    requires
        base_addr.0 + hhdm.offset <= u64::MAX,
    ensures
        r.0 == base_addr.0 + hhdm.offset,
{
    phys_to_virt(hhdm, base_addr)
}

} // verus!
