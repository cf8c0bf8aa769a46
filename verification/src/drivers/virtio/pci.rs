//! The virtio PCI transport: where its register blocks were mapped, and
//! the vendor-specific PCI capabilities that say where they are.
use vstd::prelude::*;
use crate::mm::addr::VirtAddr;
use crate::proc::elf::{le32, u32_at};

verus! {

/// Where a virtio device's common configuration, notification area and
/// device configuration were mapped, and the notification stride.
#[derive(Clone, Copy, Debug, PartialEq, Eq, Structural)]
pub struct VirtioTransport {
    pub common_config_virt: VirtAddr,
    pub notify_base_virt: VirtAddr,
    pub device_config_virt: VirtAddr,
    pub notify_off_multiplier: u32,
}

impl VirtioTransport {
    pub fn new(common_config_virt: VirtAddr, notify_base_virt: VirtAddr, device_config_virt: VirtAddr, notify_off_multiplier: u32) -> (r: Self)
        ensures
            r == (VirtioTransport { common_config_virt, notify_base_virt, device_config_virt, notify_off_multiplier }),
    {
        VirtioTransport { common_config_virt, notify_base_virt, device_config_virt, notify_off_multiplier }
    }

    /// Where to write to notify a queue whose notification offset is
    /// `notify_off`.
    pub fn notify_address(&self, notify_off: u16) -> (r: u64)
        requires
            self.notify_base_virt.0 + notify_off * self.notify_off_multiplier <= u64::MAX,
        ensures
            r == self.notify_base_virt.0 + notify_off * self.notify_off_multiplier,
    {
        proof {
            assert(notify_off * self.notify_off_multiplier <= 0xffff * 0xffff_ffff) by (nonlinear_arith)
                requires notify_off <= 0xffff, self.notify_off_multiplier <= 0xffff_ffff;
        }
        self.notify_base_virt.0 + (notify_off as u64) * (self.notify_off_multiplier as u64)
    }
}

/// The register blocks a virtio device's capabilities point at: for each,
/// the BAR, the offset in it and the length (and, for notifications, the
/// stride).
#[derive(Clone, Copy, Debug)]
pub struct VirtioCaps {
    pub common: Option<(u8, u32, u32)>,
    pub notify: Option<(u8, u32, u32, u32)>,
    pub device: Option<(u8, u32, u32)>,
}

/// The vendor-specific capability id virtio uses.
pub const CAP_VENDOR: u8 = 0x09;

/// `found` updated with capability `(id, offset)` of configuration space
/// `cfg`: a virtio capability of type 1 (common), 2 (notify) or 4 (device)
/// replaces what was found for that type.
pub open spec fn cap_update(cfg: Seq<u8>, found: VirtioCaps, c: (u8, u8)) -> VirtioCaps {
    if c.0 != CAP_VENDOR {
        found
    } else {
        let o = c.1 as int;
        let t = cfg[o + 3];
        let bar = cfg[o + 4];
        let off = le32(cfg, o + 8);
        let len = le32(cfg, o + 12);
        if t == 1 {
            VirtioCaps { common: Some((bar, off, len)), ..found }
        } else if t == 2 {
            VirtioCaps { notify: Some((bar, off, len, le32(cfg, o + 16))), ..found }
        } else if t == 4 {
            VirtioCaps { device: Some((bar, off, len)), ..found }
        } else {
            found
        }
    }
}

/// What the capability list `caps` says, read in order (a later
/// capability of a type replaces an earlier one).
pub open spec fn caps_spec(cfg: Seq<u8>, caps: Seq<(u8, u8)>) -> VirtioCaps
    decreases caps.len(),
{
    if caps.len() == 0 {
        VirtioCaps { common: None, notify: None, device: None }
    } else {
        cap_update(cfg, caps_spec(cfg, caps.drop_last()), caps.last())
    }
}

/// Reads the virtio capabilities among `caps` (as `(id, offset)`) from
/// the function's configuration space `cfg` (at least its first 4 KiB).
pub fn parse_caps(cfg: &[u8], caps: &[(u8, u8)]) -> (r: VirtioCaps)
    requires
        cfg@.len() >= 4096,
    ensures
        r == caps_spec(cfg@, caps@),
{
    let mut found = VirtioCaps { common: None, notify: None, device: None };
    let mut i: usize = 0;
    while i < caps.len()
        invariant
            cfg@.len() >= 4096,
            i <= caps@.len(),
            found == caps_spec(cfg@, caps@.take(i as int)),
        decreases caps.len() - i,
    {
        let (id, o) = caps[i];
        proof {
            assert(caps@.take(i + 1).drop_last() =~= caps@.take(i as int));
        }
        if id == CAP_VENDOR {
            let off = o as usize;
            let t = cfg[off + 3];
            let bar = cfg[off + 4];
            let offset = u32_at(cfg, off + 8).unwrap();
            let length = u32_at(cfg, off + 12).unwrap();
            if t == 1 {
                found = VirtioCaps { common: Some((bar, offset, length)), ..found };
            } else if t == 2 {
                let mul = u32_at(cfg, off + 16).unwrap();
                found = VirtioCaps { notify: Some((bar, offset, length, mul)), ..found };
            } else if t == 4 {
                found = VirtioCaps { device: Some((bar, offset, length)), ..found };
            }
        }
        i = i + 1;
    }
    proof {
        assert(caps@.take(i as int) =~= caps@);
    }
    found
}

} // verus!
