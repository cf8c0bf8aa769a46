use otteros_kernel::drivers::pci::config::{bar_size_from_probe, read_bridge_secondary_bus, read_header, scan_capabilities};
use otteros_kernel::drivers::pci::ecam::map_ecam_window;
use otteros_kernel::drivers::pci::{add_device, devices, find_device, init as pci_init, read_device_header, Bdf};
use otteros_kernel::drivers::virtio::blk::{
    begin_transfer, complete_chunk, flush_needed, next_chunk, request_deadline, request_header, BlkError, VirtioBlkDriver,
};
use otteros_kernel::drivers::virtio::net::{tx_buffers, NetError};
use otteros_kernel::drivers::virtio::pci::{parse_caps, VirtioTransport};
use otteros_kernel::drivers::virtio::queue::{VirtQueue, DESC_F_NEXT, DESC_F_WRITE};
use otteros_kernel::mm::addr::{PhysAddr, VirtAddr};
use otteros_kernel::mm::hhdm;

fn config(vendor: u16, device: u16) -> Vec<u8> {
    let mut c = vec![0u8; 4096];
    c[0..2].copy_from_slice(&vendor.to_le_bytes());
    c[2..4].copy_from_slice(&device.to_le_bytes());
    c
}

#[test]
fn bdf_offset() {
    assert_eq!(Bdf::new(1, 2, 3).ecam_offset(), (1 << 20) | (2 << 15) | (3 << 12));
    assert_eq!(Bdf::new(0, 0, 0).ecam_offset(), 0);
}

#[test]
fn header_and_bars() {
    let mut c = config(0x1af4, 0x1042);
    c[6..8].copy_from_slice(&0x10u16.to_le_bytes());
    c[0x0b] = 0x01;
    c[0x0e] = 0x80;
    c[0x10..0x14].copy_from_slice(&0xfebf_1000u32.to_le_bytes());
    c[0x14..0x18].copy_from_slice(&0x0000_c041u32.to_le_bytes());
    c[0x18..0x1c].copy_from_slice(&0xfe00_000cu32.to_le_bytes());
    c[0x1c..0x20].copy_from_slice(&0x0000_0001u32.to_le_bytes());
    c[0x3c] = 11;
    c[0x3d] = 1;
    let h = read_header(&c);
    assert_eq!(h.vendor_id, 0x1af4);
    assert_eq!(h.device_id, 0x1042);
    assert_eq!(h.class_code, 1);
    assert_eq!(h.bars[0], Some(0xfebf_1000));
    assert_eq!(h.bars[1], Some(0xc040));
    assert!(h.bar_is_io[1]);
    assert_eq!(h.bars[2], Some(0x1_fe00_0000));
    assert_eq!(h.bars[3], None);
    assert_eq!(h.bars[4], None);
    assert_eq!(h.interrupt_line, 11);
    let caps = vec![(0x09, 0x40)];
    let d = read_device_header(Bdf::new(0, 3, 0), &h, caps.clone()).unwrap();
    assert!(d.is_multifunction());
    assert!(!d.is_bridge());
    assert_eq!(d.capabilities, caps);
    let none = read_header(&config(0xffff, 0xffff));
    assert!(read_device_header(Bdf::new(0, 4, 0), &none, vec![]).is_none());
}

#[test]
fn capability_walk_stops_on_loop() {
    let mut c = config(1, 2);
    c[0x34] = 0x40;
    c[0x40] = 0x09;
    c[0x41] = 0x50;
    c[0x50] = 0x11;
    c[0x51] = 0x40;
    assert_eq!(scan_capabilities(&c), vec![(0x09, 0x40), (0x11, 0x50)]);
    c[0x51] = 0x00;
    assert_eq!(scan_capabilities(&c), vec![(0x09, 0x40), (0x11, 0x50)]);
    c[0x19] = 3;
    assert_eq!(read_bridge_secondary_bus(&c), 3);
}

#[test]
fn bar_sizes() {
    assert_eq!(bar_size_from_probe(0xffff_f000), 0x1000);
    assert_eq!(bar_size_from_probe(0xffff_ffe1), 0x20);
    assert_eq!(bar_size_from_probe(0), 0);
}

#[test]
fn registry_find() {
    let mut reg = pci_init();
    let h = read_header(&config(0x8086, 0x100e));
    add_device(&mut reg, read_device_header(Bdf::new(0, 2, 0), &h, vec![]).unwrap());
    let h = read_header(&config(0x1af4, 0x1042));
    add_device(&mut reg, read_device_header(Bdf::new(0, 3, 0), &h, vec![]).unwrap());
    assert_eq!(find_device(&reg, 0x1af4, 0x1042).unwrap().bdf, Bdf::new(0, 3, 0));
    assert!(find_device(&reg, 1, 1).is_none());
    let all = devices(&reg);
    assert_eq!(all.len(), 2);
    for (copy, orig) in all.iter().zip(reg.devices.iter()) {
        assert_eq!(copy.bdf, orig.bdf);
        assert_eq!(copy.bars, orig.bars);
        assert_eq!(copy.bar_is_io, orig.bar_is_io);
        assert_eq!((copy.class_code, copy.subclass_code, copy.prog_if), (orig.class_code, orig.subclass_code, orig.prog_if));
        assert_eq!(copy.header_type, orig.header_type);
        assert_eq!(copy.capabilities, orig.capabilities);
        assert_eq!((copy.interrupt_line, copy.interrupt_pin), (orig.interrupt_line, orig.interrupt_pin));
    }
    let blk = VirtioBlkDriver::init(&reg).unwrap();
    assert_eq!(blk.capacity(), 131072);
    assert_eq!(blk.sector_size(), 512);
    assert_eq!(blk.name(), "vda");
    assert!(VirtioBlkDriver::init(&pci_init()).is_none());
}

#[test]
fn ecam_window() {
    let h = hhdm::init(0xffff_8000_0000_0000);
    assert_eq!(map_ecam_window(&h, PhysAddr(0xb000_0000), 0x1000).0, 0xffff_8000_b000_0000);
}

#[test]
fn virtqueue_allocation_and_rings() {
    assert!(VirtQueue::new(0, 0, 0, 0).is_none());
    assert!(VirtQueue::new(40000, 0, 0, 0).is_none());
    let mut q = VirtQueue::new(4, 0x1000, 0x2000, 0x3000).unwrap();
    assert_eq!(q.size(), 4);
    assert_eq!(q.desc_phys_addr(), 0x1000);
    assert_eq!(q.avail_phys_addr(), 0x2000);
    assert_eq!(q.used_phys_addr(), 0x3000);
    assert_eq!(VirtQueue::ring_sizes(4), (64, 14, 38));
    assert_eq!(q.alloc_descriptor(), Some(0));
    let (first, writes) = q.chain_descriptors(&[(0x10, 16, false), (0x20, 512, true), (0x30, 1, true)]).unwrap();
    assert_eq!(first, 1);
    assert_eq!(writes.len(), 3);
    assert_eq!(writes[0].0, 1);
    assert_eq!(writes[0].1.flags, DESC_F_NEXT);
    assert_eq!(writes[0].1.next, 2);
    assert_eq!(writes[1].1.flags, DESC_F_WRITE | DESC_F_NEXT);
    assert_eq!(writes[2].0, 3);
    assert_eq!(writes[2].1.flags, DESC_F_WRITE);
    assert_eq!(writes[2].1.next, 0);
    assert_eq!(q.alloc_descriptor(), None);
    assert!(q.chain_descriptors(&[]).is_none());
    assert_eq!(q.submit(1), (0, 1));
    assert_eq!(q.completion_slot(), 0);
    assert_eq!(q.get_completion(0, (9, 9)), None);
    assert_eq!(q.get_completion(1, (1, 513)), Some((1, 513)));
    assert_eq!(q.completion_slot(), 1);
    q.reset();
    assert_eq!(q.alloc_descriptor(), Some(0));
}

#[test]
fn block_transfer_plan() {
    assert_eq!(begin_transfer(100, 0, 0, false), Err(BlkError::InvalidLength));
    assert_eq!(begin_transfer(100, 0, 100, false), Err(BlkError::InvalidLength));
    assert_eq!(begin_transfer(100, 99, 1024, false), Err(BlkError::OutOfRange));
    assert_eq!(begin_transfer(100, u64::MAX, 512, false), Err(BlkError::OutOfRange));
    let mut t = begin_transfer(2048, 10, 600 * 512, true).unwrap();
    let c = next_chunk(&t, 0x10_0000).unwrap();
    assert_eq!(c.sector, 10);
    assert_eq!(c.offset, 0);
    assert_eq!(c.len, 512 * 512);
    assert_eq!(c.token, (10 << 16) | 512);
    assert_eq!(c.header, vec![1, 0, 0, 0, 0, 0, 0, 0, 10, 0, 0, 0, 0, 0, 0, 0]);
    assert_eq!(c.buffers, vec![(0x10_0000, 16, false), (0x10_0010, 512 * 512, false), (0x10_0010 + 512 * 512, 1, true)]);
    assert_eq!(complete_chunk(&mut t, 5), Err(BlkError::Io(5)));
    assert_eq!(complete_chunk(&mut t, 0), Ok(()));
    let c = next_chunk(&t, 0x10_0000).unwrap();
    assert_eq!(c.sector, 522);
    assert_eq!(c.offset, 512 * 512);
    assert_eq!(c.len, 88 * 512);
    assert_eq!(complete_chunk(&mut t, 0), Ok(()));
    assert!(next_chunk(&t, 0x10_0000).is_none());
}

#[test]
fn block_misc() {
    assert_eq!(request_header(0, 0x0102), vec![0, 0, 0, 0, 0, 0, 0, 0, 2, 1, 0, 0, 0, 0, 0, 0]);
    assert!(flush_needed(1 << 9));
    assert!(!flush_needed(1 << 8));
    assert_eq!(request_deadline(100), 5100);
}

#[test]
fn transport_and_caps() {
    let t = VirtioTransport::new(VirtAddr(0x1000), VirtAddr(0x2000), VirtAddr(0x3000), 4);
    assert_eq!(t.notify_address(3), 0x200c);
    let mut c = config(0x1af4, 0x1042);
    let mut put = |off: usize, ty: u8, bar: u8, offset: u32, len: u32| {
        c[off] = 0x09;
        c[off + 3] = ty;
        c[off + 4] = bar;
        c[off + 8..off + 12].copy_from_slice(&offset.to_le_bytes());
        c[off + 12..off + 16].copy_from_slice(&len.to_le_bytes());
    };
    put(0x40, 1, 4, 0x0, 0x38);
    put(0x54, 2, 4, 0x3000, 0x1000);
    put(0x6c, 4, 4, 0x2000, 0x8);
    c[0x54 + 16..0x54 + 20].copy_from_slice(&4u32.to_le_bytes());
    let caps = parse_caps(&c, &[(0x09, 0x40), (0x09, 0x54), (0x05, 0x60), (0x09, 0x6c)]);
    assert_eq!(caps.common, Some((4, 0, 0x38)));
    assert_eq!(caps.notify, Some((4, 0x3000, 0x1000, 4)));
    assert_eq!(caps.device, Some((4, 0x2000, 8)));
    let none = parse_caps(&c, &[]);
    assert_eq!(none.common, None);
}

#[test]
fn net_tx_buffers() {
    assert_eq!(tx_buffers(3000, 0x1000), Err(NetError::InvalidLength));
    assert_eq!(tx_buffers(60, 0x1000).unwrap(), vec![(0x1000, 12, false), (0x100c, 60, false)]);
}

#[test]
fn virtqueue_full_answers_none() {
    let mut q = VirtQueue::new(1, 0, 0, 0).unwrap();
    assert_eq!(q.alloc_descriptor(), Some(0));
    assert_eq!(q.alloc_descriptor(), None);
    q.reset();
    let mut q2 = VirtQueue::new(3, 0, 0, 0).unwrap();
    assert_eq!(q2.alloc_descriptor(), Some(0));
    assert!(q2.chain_descriptors(&[(1, 1, false), (2, 2, false), (3, 3, false)]).is_none());
    assert_eq!(q2.alloc_descriptor(), None);
    q2.reset();
    assert_eq!(q2.alloc_descriptor(), Some(0));
    assert_eq!(q.alloc_descriptor(), Some(0));
}
