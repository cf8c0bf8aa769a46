use otteros_kernel::mm::addr::{PhysAddr, VirtAddr};
use otteros_kernel::mm::mmio::{MmioWindow, MMIO_WINDOW_END, MMIO_WINDOW_START};
use otteros_kernel::mm::pmm::{self, alloc_frame, MemmapEntry, MEMMAP_BAD_MEMORY, MEMMAP_RESERVED, MEMMAP_USABLE};
use otteros_kernel::mm::vmm::ranges::{hhdm_ranges, merge_ranges, subtract_ranges, EntryFilter, LOW_CEILING};
use otteros_kernel::mm::vmm::{AddressSpace, PhysMem};

fn entry(base: u64, length: u64, type_: u64) -> MemmapEntry {
    MemmapEntry { base, length, type_ }
}

fn covered(rs: &[(u64, u64)], x: u64) -> bool {
    rs.iter().any(|&(s, e)| s <= x && x < e)
}

#[test]
fn merge_rounds_sorts_and_joins() {
    let es = vec![
        entry(0x10_0000, 0x1000, MEMMAP_BAD_MEMORY),
        entry(0x2800, 0x1000, MEMMAP_RESERVED),
        entry(0x1000, 0x2000, MEMMAP_USABLE),
        entry(0x8000, 0x800, MEMMAP_USABLE),
    ];
    assert_eq!(merge_ranges(&es, EntryFilter::Mappable, u64::MAX), vec![(0x1000, 0x4000), (0x8000, 0x9000)]);
    assert_eq!(merge_ranges(&es, EntryFilter::Bad, u64::MAX), vec![(0x10_0000, 0x10_1000)]);
    assert_eq!(
        merge_ranges(&es, EntryFilter::Any, 0x9000),
        vec![(0x1000, 0x4000), (0x8000, 0x9000)]
    );
    assert_eq!(merge_ranges(&es, EntryFilter::Any, 0x1000), vec![]);
}

#[test]
fn merge_joins_touching_ranges_and_clips() {
    let es = vec![entry(0x3000, 0x1000, MEMMAP_USABLE), entry(0x2000, 0x1000, MEMMAP_USABLE), entry(0xffff_f000, 0x2000, MEMMAP_RESERVED)];
    assert_eq!(merge_ranges(&es, EntryFilter::Any, LOW_CEILING), vec![(0x2000, 0x4000), (0xffff_f000, LOW_CEILING)]);
    assert_eq!(merge_ranges(&[], EntryFilter::Any, LOW_CEILING), vec![]);
}

#[test]
fn subtract_cuts_holes() {
    let from = vec![(0, 0x10000), (0x20000, 0x21000)];
    let bad = vec![(0x2000, 0x3000), (0x8000, 0x9000), (0x20000, 0x21000)];
    assert_eq!(subtract_ranges(&from, &bad), vec![(0, 0x2000), (0x3000, 0x8000), (0x9000, 0x10000)]);
    assert_eq!(subtract_ranges(&from, &vec![]), from);
    assert_eq!(subtract_ranges(&vec![(0x1000, 0x2000)], &vec![(0, 0x10000)]), vec![]);
}

#[test]
fn hhdm_skips_bad_memory_and_fills_low_gaps() {
    let es = vec![
        entry(0, 0x9_fc00, MEMMAP_USABLE),
        entry(0x10_0000, 0x100_0000, MEMMAP_USABLE),
        entry(0x50_0000, 0x1000, MEMMAP_BAD_MEMORY),
        entry(0x2_0000_0000, 0x1000, MEMMAP_USABLE),
    ];
    let rs = hhdm_ranges(&es);
    assert!(covered(&rs, 0x9_f000));
    assert!(covered(&rs, 0xa_0000));
    assert!(covered(&rs, 0x4f_f000));
    assert!(!covered(&rs, 0x50_0000));
    assert!(covered(&rs, 0x50_1000));
    assert!(covered(&rs, 0xfee0_0000));
    assert!(covered(&rs, 0x2_0000_0fff));
    assert!(!covered(&rs, 0x2_0000_1000));
    assert!(!covered(&rs, 0x1_0000_0000));
    for &(s, e) in &rs {
        assert!(s < e && s % 4096 == 0 && e % 4096 == 0);
    }
}

#[test]
fn mmio_window_hands_out_pages_in_order() {
    let mut p = pmm::init(&[MemmapEntry { base: 0x10_0000, length: 0x100_0000, type_: MEMMAP_USABLE }]);
    let mut mem = PhysMem::new();
    let root = alloc_frame(&mut p).unwrap();
    mem.install(root.0, 0);
    let kernel = AddressSpace { pml4: root };
    let mut win = MmioWindow::new();
    assert_eq!(win.map(kernel, &mut mem, &mut p, PhysAddr(0xfee0_0010), 0), None);
    assert_eq!(win.map(kernel, &mut mem, &mut p, PhysAddr(0xfee0_0010), 0x20), Some(VirtAddr(MMIO_WINDOW_START + 0x10)));
    let (phys, _, _) = kernel.translate(&mem, VirtAddr(MMIO_WINDOW_START + 0x10)).unwrap();
    assert_eq!(phys.0, 0xfee0_0010);
    let v = win.map(kernel, &mut mem, &mut p, PhysAddr(0x1000_0ff0), 0x20).unwrap();
    assert_eq!(v.0, MMIO_WINDOW_START + 0x1ff0);
    let (phys2, _, _) = kernel.translate(&mem, VirtAddr(MMIO_WINDOW_START + 0x2000)).unwrap();
    assert_eq!(phys2.0, 0x1000_1000);
    assert!(kernel.translate(&mem, VirtAddr(MMIO_WINDOW_START + 0x3000)).is_none());
    assert!(MMIO_WINDOW_START + 0x3000 < MMIO_WINDOW_END);
}

#[test]
fn subtract_unaligned_ranges() {
    let from = vec![(0u64, 100u64), (200, 300)];
    let bad = vec![(10u64, 20u64), (50, 60), (250, 400)];
    assert_eq!(subtract_ranges(&from, &bad), vec![(0, 10), (20, 50), (60, 100), (200, 250)]);
}
