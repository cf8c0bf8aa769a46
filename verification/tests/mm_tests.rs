use otteros_kernel::mm::addr::{PhysAddr, VirtAddr};
use otteros_kernel::mm::bitmap::FrameBitmap;
use otteros_kernel::mm::heap::{classify, AllocKind};
use otteros_kernel::mm::hhdm;
use otteros_kernel::mm::paging::{PageFlags, FLAG_USER, FLAG_WRITABLE};
use otteros_kernel::mm::pmm::{self, alloc_frame, free_frame, is_frame_used, MemmapEntry, MEMMAP_USABLE};
use otteros_kernel::mm::vmm::{AddressSpace, PageSize, PhysMem};
use otteros_kernel::proc::usermem::{user_str, validate_writable};

fn memmap() -> Vec<MemmapEntry> {
    vec![
        MemmapEntry { base: 0, length: 0x9_f000, type_: MEMMAP_USABLE },
        MemmapEntry { base: 0x10_0000, length: 0x100_0000, type_: MEMMAP_USABLE },
    ]
}

#[test]
fn bitmap_set_then_test() {
    let mut b = FrameBitmap::new(vec![0u64; 2], 0, 100);
    assert!(!b.is_used(5));
    b.set_used(5);
    assert!(b.is_used(5));
    assert!(!b.is_used(6));
    assert_eq!(b.count_free(), 99);
    b.set_free(5);
    assert!(!b.is_used(5));
    assert_eq!(b.count_free(), 100);
}

#[test]
fn bitmap_free_run_aligned() {
    let mut b = FrameBitmap::new(vec![0u64; 1], 0, 64);
    b.set_used(0);
    assert_eq!(b.find_free_run(3, 1), Some(1));
    assert_eq!(b.find_free_run(3, 4), Some(4));
    b.fill_used();
    assert_eq!(b.find_free_run(1, 1), None);
}

#[test]
fn pmm_alloc_then_free_restores() {
    let mut p = pmm::init(&memmap());
    let before = pmm::stats(&p);
    let f = alloc_frame(&mut p).unwrap();
    assert_eq!(f.0 % 4096, 0);
    assert!(f.0 >= 0x10_0000);
    assert!(is_frame_used(&p, f));
    assert_eq!(pmm::stats(&p).free + 1, before.free);
    free_frame(&mut p, f);
    assert!(!is_frame_used(&p, f));
    assert_eq!(pmm::stats(&p).free, before.free);
}

#[test]
fn hhdm_roundtrip() {
    let h = hhdm::init(0xffff_8000_0000_0000);
    let v = hhdm::phys_to_virt(&h, PhysAddr(0x1234));
    assert_eq!(v.0, 0xffff_8000_0000_1234);
    assert_eq!(hhdm::virt_to_phys_hhdm(&h, v).0, 0x1234);
}

#[test]
fn heap_classify() {
    assert_eq!(classify(0, 1), AllocKind::Small(0));
    assert_eq!(classify(17, 8), AllocKind::Small(1));
    assert_eq!(classify(8, 64), AllocKind::Small(2));
    assert_eq!(classify(2048, 8), AllocKind::Small(7));
    assert_eq!(classify(2049, 8), AllocKind::Large(1));
    assert_eq!(classify(8193, 8), AllocKind::Large(3));
    assert_eq!(classify(16, 8192), AllocKind::Rejected);
}

fn user_space(p: &mut pmm::Pmm, mem: &mut PhysMem) -> AddressSpace {
    let root = alloc_frame(p).unwrap();
    mem.install(root.0, 0);
    AddressSpace { pml4: root }
}

#[test]
fn map_translate_unmap() {
    let mut p = pmm::init(&memmap());
    let mut mem = PhysMem::new();
    let space = user_space(&mut p, &mut mem);
    let frame = alloc_frame(&mut p).unwrap();
    space.map_4k(&mut mem, &mut p, VirtAddr(0x40_0000), frame, PageFlags(FLAG_USER | FLAG_WRITABLE));
    let (phys, flags, size) = space.translate(&mem, VirtAddr(0x40_0123)).unwrap();
    assert_eq!(phys.0, frame.0 + 0x123);
    assert!(flags.contains(PageFlags(FLAG_USER)));
    assert_eq!(size, PageSize::Normal);
    assert!(space.translate(&mem, VirtAddr(0x40_1000)).is_none());
    assert_eq!(space.unmap(&mut mem, VirtAddr(0x40_0000)), Some(frame));
    assert!(space.translate(&mem, VirtAddr(0x40_0000)).is_none());
}

#[test]
fn validate_and_read_user_string() {
    let mut p = pmm::init(&memmap());
    let mut mem = PhysMem::new();
    let space = user_space(&mut p, &mut mem);
    let frame = alloc_frame(&mut p).unwrap();
    space.map_4k(&mut mem, &mut p, VirtAddr(0x40_0000), frame, PageFlags(FLAG_USER));
    let ro = alloc_frame(&mut p).unwrap();
    assert_eq!(validate_writable(&space, &mem, 0x40_0010, 16), Err(-14));
    let rw = alloc_frame(&mut p).unwrap();
    space.map_4k(&mut mem, &mut p, VirtAddr(0x40_1000), rw, PageFlags(FLAG_USER | FLAG_WRITABLE));
    assert_eq!(validate_writable(&space, &mem, 0x40_1000, 4096), Ok(()));
    assert_eq!(validate_writable(&space, &mem, 0x40_1ff0, 32), Err(-14));
    let _ = ro;
    assert_eq!(user_str(&space, &mem, 0x40_0000, 16, b"init\0junk").unwrap(), "init");
    assert_eq!(user_str(&space, &mem, 0x40_0000, 4, b"init\0"), Err(-14));
    assert_eq!(user_str(&space, &mem, 0x40_0000, 16, b"ini"), Err(-14));
    assert_eq!(user_str(&space, &mem, 0x40_0000, 16, &[0xff, 0xfe, 0]), Err(-14));
    assert_eq!(user_str(&space, &mem, 0x40_0000, 16, b"\0"), Ok(String::new()));
}

#[test]
fn pmm_never_hands_out_low_or_bitmap_frames() {
    let mut p = pmm::init(&memmap());
    let (base, bytes) = pmm::bitmap_region(&p);
    for _ in 0..64 {
        let f = alloc_frame(&mut p).unwrap();
        assert!(f.0 >= 0x10_0000);
        assert!(!(base.0 <= f.0 && f.0 < base.0 + bytes as u64));
    }
}
