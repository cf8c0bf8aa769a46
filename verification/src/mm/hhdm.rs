//! Higher-half direct map (HHDM) bookkeeping: the bootloader maps all of
//! physical memory at one fixed virtual offset, so "physical -> virtual"
//! is a single addition for the rest of the kernel's life.
use vstd::prelude::*;
use super::addr::{PhysAddr, VirtAddr};

verus! {

/// The recorded HHDM offset.
#[derive(Clone, Copy, PartialEq, Eq, Structural, Debug)]
pub struct Hhdm {
    pub offset: u64,
}

/// Records the HHDM offset the bootloader reported.
pub fn init(offset: u64) -> (r: Hhdm)
    ensures
        r.offset == offset,
{
    Hhdm { offset }
}

/// Translates a physical address to its HHDM virtual alias.
pub fn phys_to_virt(hhdm: &Hhdm, phys: PhysAddr) -> (r: VirtAddr)
    requires
        phys.0 + hhdm.offset <= u64::MAX,
    ensures
        r.0 == phys.0 + hhdm.offset,
{
    VirtAddr::new(phys.as_u64() + hhdm.offset)
}

/// Translates an HHDM virtual address back to the physical address it
/// aliases. Only meaningful for addresses at or above the HHDM offset.
pub fn virt_to_phys_hhdm(hhdm: &Hhdm, virt: VirtAddr) -> (r: PhysAddr)
    requires
        virt.0 >= hhdm.offset,
    ensures
        r.0 == virt.0 - hhdm.offset,
{
    PhysAddr::new(virt.as_u64() - hhdm.offset)
}

/// Translating there and back gives the original physical address.
pub proof fn law_hhdm_roundtrip(hhdm: Hhdm, phys: u64)
    requires
        phys + hhdm.offset <= u64::MAX,
    ensures
        ((phys + hhdm.offset) as u64) - hhdm.offset == phys,
{
}

} // verus!
