//! PCI: addressing functions in ECAM configuration space, decoding
//! configuration headers, walking capability lists, and the registry of
//! functions found. The configuration-space reads themselves are memory
//! accesses done outside this library; the functions here decode what
//! they read.
pub mod config;
pub mod ecam;

use vstd::prelude::*;
use crate::drivers::pci::config::ConfigHeader;

verus! {

/// A PCI function's address: bus, device (0..32), function (0..8).
#[derive(Clone, Copy, Debug, PartialEq, Eq, Structural)]
pub struct Bdf {
    pub bus: u8,
    pub device: u8,
    pub function: u8,
}

/// The offset of function `b`'s configuration space in an ECAM window.
pub open spec fn ecam_offset_spec(b: Bdf) -> int {
    b.bus * 0x10_0000 + b.device * 0x8000 + b.function * 0x1000
}

impl Bdf {
    pub fn new(bus: u8, device: u8, function: u8) -> (r: Self)
        ensures
            r == (Bdf { bus, device, function }),
    {
        Bdf { bus, device, function }
    }

    /// Where this function's 4 KiB of configuration space starts in the
    /// ECAM window.
    pub fn ecam_offset(&self) -> (r: u32)
        requires
            self.device < 32,
            self.function < 8,
        ensures
            r == ecam_offset_spec(*self),
    {
        let b = self.bus as u32;
        let d = self.device as u32;
        let f = self.function as u32;
        proof {
            assert((b << 20) | (d << 15) | (f << 12) == b * 0x10_0000 + d * 0x8000 + f * 0x1000) by (bit_vector)
                requires
                    b < 256,
                    d < 32,
                    f < 8;
        }
        (b << 20) | (d << 15) | (f << 12)
    }
}

/// One PCI function as found by the scan.
#[derive(Clone, Debug)]
pub struct PciDevice {
    pub bdf: Bdf,
    pub vendor_id: u16,
    pub device_id: u16,
    pub class_code: u8,
    pub subclass_code: u8,
    pub prog_if: u8,
    pub header_type: u8,
    pub bars: [Option<u64>; 6],
    pub bar_is_io: [bool; 6],
    pub capabilities: Vec<(u8, u8)>,
    pub interrupt_line: u8,
    pub interrupt_pin: u8,
}

impl PciDevice {
    /// Whether the device has more functions than function 0 (bit 7 of
    /// the header type).
    pub fn is_multifunction(&self) -> (r: bool)
        ensures
            r == (self.header_type & 0x80 != 0),
    {
        self.header_type & 0x80 != 0
    }

    /// Whether the function is a PCI-to-PCI bridge (header type 1), whose
    /// secondary bus is scanned too.
    pub fn is_bridge(&self) -> (r: bool)
        ensures
            r == (self.header_type & 0x7f == 0x01),
    {
        self.header_type & 0x7f == 0x01
    }
}

/// A vendor id of all ones or zero means no function answers there.
pub open spec fn vendor_present(vendor_id: u16) -> bool {
    vendor_id != 0xffff && vendor_id != 0
}

/// The device record for the function at `bdf` with configuration header
/// `header`, whose capability list (read only when the status register's
/// bit 4 announces one) is `caps`; `None` when no function answers.
pub fn read_device_header(bdf: Bdf, header: &ConfigHeader, caps: Vec<(u8, u8)>) -> (r: Option<PciDevice>)
    ensures
        !vendor_present(header.vendor_id) <==> r is None,
        r matches Some(d) ==> {
            &&& d.bdf == bdf
            &&& d.vendor_id == header.vendor_id
            &&& d.device_id == header.device_id
            &&& d.class_code == header.class_code
            &&& d.subclass_code == header.subclass_code
            &&& d.prog_if == header.prog_if
            &&& d.header_type == header.header_type
            &&& d.bars@ == header.bars@
            &&& d.bar_is_io@ == header.bar_is_io@
            &&& d.capabilities@ == (if header.status & 0x10 != 0 { caps@ } else { Seq::empty() })
            &&& d.interrupt_line == header.interrupt_line
            &&& d.interrupt_pin == header.interrupt_pin
        },
{
    if header.vendor_id == 0xffff || header.vendor_id == 0 {
        return None;
    }
    let capabilities = if header.status & 0x10 != 0 { caps } else { Vec::new() };
    Some(PciDevice {
        bdf,
        vendor_id: header.vendor_id,
        device_id: header.device_id,
        class_code: header.class_code,
        subclass_code: header.subclass_code,
        prog_if: header.prog_if,
        header_type: header.header_type,
        bars: header.bars,
        bar_is_io: header.bar_is_io,
        capabilities,
        interrupt_line: header.interrupt_line,
        interrupt_pin: header.interrupt_pin,
    })
}

/// The functions found by the scan, in the order found.
pub struct PciRegistry {
    pub devices: Vec<PciDevice>,
}

/// No functions found yet.
pub fn init() -> (r: PciRegistry)
    ensures
        r.devices@.len() == 0,
{
    PciRegistry { devices: Vec::new() }
}

/// Records a function the scan found.
pub fn add_device(reg: &mut PciRegistry, dev: PciDevice)
    ensures
        final(reg).devices@ == old(reg).devices@.push(dev),
{
    reg.devices.push(dev);
}

/// The vendor and device ids of every function found, in order.
pub open spec fn ids_of(devs: Seq<PciDevice>) -> Seq<(u16, u16)> {
    devs.map_values(|d: PciDevice| (d.vendor_id, d.device_id))
}

/// `a` and `b` record the same function: every field equal, the
/// capability lists element for element.
pub open spec fn same_device(a: PciDevice, b: PciDevice) -> bool {
    &&& a.bdf == b.bdf
    &&& a.vendor_id == b.vendor_id
    &&& a.device_id == b.device_id
    &&& a.class_code == b.class_code
    &&& a.subclass_code == b.subclass_code
    &&& a.prog_if == b.prog_if
    &&& a.header_type == b.header_type
    &&& a.bars == b.bars
    &&& a.bar_is_io == b.bar_is_io
    &&& a.capabilities@ == b.capabilities@
    &&& a.interrupt_line == b.interrupt_line
    &&& a.interrupt_pin == b.interrupt_pin
}

/// A copy of a capability list.
fn copy_capabilities(caps: &Vec<(u8, u8)>) -> (r: Vec<(u8, u8)>)
    ensures
        r@ == caps@,
{
    let mut out: Vec<(u8, u8)> = Vec::new();
    let mut i: usize = 0;
    while i < caps.len()
        invariant
            i <= caps@.len(),
            out@ == caps@.take(i as int),
        decreases caps.len() - i,
    {
        out.push(caps[i]);
        i = i + 1;
        proof {
            assert(out@ =~= caps@.take(i as int));
        }
    }
    proof {
        assert(caps@.take(caps@.len() as int) =~= caps@);
    }
    out
}

/// Every function found: a full copy of the registry's records, in order.
pub fn devices(reg: &PciRegistry) -> (r: Vec<PciDevice>)
    ensures
        r@.len() == reg.devices@.len(),
        forall|i: int| 0 <= i < r@.len() ==> same_device(#[trigger] r@[i], reg.devices@[i]),
        ids_of(r@) == ids_of(reg.devices@),
{
    let mut out: Vec<PciDevice> = Vec::new();
    let mut i: usize = 0;
    while i < reg.devices.len()
        invariant
            i <= reg.devices@.len(),
            out@.len() == i,
            forall|j: int| 0 <= j < i ==> same_device(#[trigger] out@[j], reg.devices@[j]),
        decreases reg.devices.len() - i,
    {
        let d = &reg.devices[i];
        let copy = PciDevice {
            bdf: d.bdf,
            vendor_id: d.vendor_id,
            device_id: d.device_id,
            class_code: d.class_code,
            subclass_code: d.subclass_code,
            prog_if: d.prog_if,
            header_type: d.header_type,
            bars: d.bars,
            bar_is_io: d.bar_is_io,
            capabilities: copy_capabilities(&d.capabilities),
            interrupt_line: d.interrupt_line,
            interrupt_pin: d.interrupt_pin,
        };
        out.push(copy);
        i = i + 1;
    }
    proof {
        assert(ids_of(out@) =~= ids_of(reg.devices@));
    }
    out
}

/// The index of the first function with these vendor and device ids, if
/// any.
pub open spec fn first_with(devs: Seq<PciDevice>, vendor_id: u16, device_id: u16, i: int) -> bool {
    &&& 0 <= i < devs.len()
    &&& devs[i].vendor_id == vendor_id && devs[i].device_id == device_id
    &&& forall|j: int| 0 <= j < i ==> !((#[trigger] devs[j]).vendor_id == vendor_id && devs[j].device_id == device_id)
}

/// The first function found with these vendor and device ids.
pub fn find_device(reg: &PciRegistry, vendor_id: u16, device_id: u16) -> (r: Option<&PciDevice>)
    ensures
        match r {
            Some(d) => exists|i: int| first_with(reg.devices@, vendor_id, device_id, i) && *d == reg.devices@[i],
            None => forall|i: int| 0 <= i < reg.devices@.len() ==>
                !((#[trigger] reg.devices@[i]).vendor_id == vendor_id && reg.devices@[i].device_id == device_id),
        },
{
    let mut i: usize = 0;
    while i < reg.devices.len()
        invariant
            i <= reg.devices@.len(),
            forall|j: int| 0 <= j < i ==> !((#[trigger] reg.devices@[j]).vendor_id == vendor_id && reg.devices@[j].device_id == device_id),
        decreases reg.devices.len() - i,
    {
        if reg.devices[i].vendor_id == vendor_id && reg.devices[i].device_id == device_id {
            proof {
                assert(first_with(reg.devices@, vendor_id, device_id, i as int));
            }
            return Some(&reg.devices[i]);
        }
        i = i + 1;
    }
    None
}

} // verus!
