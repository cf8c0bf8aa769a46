use otteros_kernel::mm::heap::{init, stats, HeapStats, ReallocStep};
use otteros_kernel::mm::hhdm;
use otteros_kernel::mm::pmm::{self, MemmapEntry, MEMMAP_USABLE};

const OFFSET: u64 = 0xffff_8000_0000_0000;

fn memmap() -> Vec<MemmapEntry> {
    vec![
        MemmapEntry { base: 0, length: 0x9_f000, type_: MEMMAP_USABLE },
        MemmapEntry { base: 0x10_0000, length: 0x100_0000, type_: MEMMAP_USABLE },
    ]
}

fn zero() -> HeapStats {
    HeapStats { bytes_in_use: 0, small_objects_in_use: 0, slabs: 0, large_objects: 0, large_frames: 0 }
}

#[test]
fn heap_small_objects_share_a_slab() {
    let mut p = pmm::init(&memmap());
    let h = hhdm::init(OFFSET);
    let mut heap = init();
    let free0 = pmm::stats(&p).free;
    let a = heap.allocate(24, 8, &mut p, &h).unwrap();
    let b = heap.allocate(20, 8, &mut p, &h).unwrap();
    assert_ne!(a, b);
    assert!(a >= OFFSET && b >= OFFSET);
    assert_eq!(a % 32, 0);
    assert_eq!(a & !0xfff, b & !0xfff);
    assert_eq!(stats(&heap), HeapStats { bytes_in_use: 64, small_objects_in_use: 2, slabs: 1, large_objects: 0, large_frames: 0 });
    assert_eq!(pmm::stats(&p).free + 1, free0);
    heap.deallocate(a, 24, 8, &mut p, &h);
    assert_eq!(stats(&heap).slabs, 1);
    heap.deallocate(b, 20, 8, &mut p, &h);
    assert_eq!(stats(&heap), zero());
    assert_eq!(pmm::stats(&p).free, free0);
}

#[test]
fn heap_reuses_freed_slot() {
    let mut p = pmm::init(&memmap());
    let h = hhdm::init(OFFSET);
    let mut heap = init();
    let a = heap.allocate(100, 16, &mut p, &h).unwrap();
    let b = heap.allocate(100, 16, &mut p, &h).unwrap();
    heap.deallocate(a, 100, 16, &mut p, &h);
    let c = heap.allocate(128, 16, &mut p, &h).unwrap();
    assert_eq!(c, a);
    assert_eq!(stats(&heap).small_objects_in_use, 2);
    assert_eq!(stats(&heap).bytes_in_use, 256);
    let _ = b;
}

#[test]
fn heap_large_objects_take_whole_frames() {
    let mut p = pmm::init(&memmap());
    let h = hhdm::init(OFFSET);
    let mut heap = init();
    let free0 = pmm::stats(&p).free;
    let a = heap.allocate(10000, 8, &mut p, &h).unwrap();
    assert_eq!(a % 4096, 0);
    assert_eq!(stats(&heap), HeapStats { bytes_in_use: 12288, small_objects_in_use: 0, slabs: 0, large_objects: 1, large_frames: 3 });
    assert_eq!(pmm::stats(&p).free + 3, free0);
    let b = heap.allocate(100, 4096, &mut p, &h).unwrap();
    assert_eq!(b % 4096, 0);
    assert_eq!(stats(&heap).large_frames, 4);
    heap.deallocate(a, 10000, 8, &mut p, &h);
    heap.deallocate(b, 100, 4096, &mut p, &h);
    assert_eq!(stats(&heap), zero());
    assert_eq!(pmm::stats(&p).free, free0);
}

#[test]
fn heap_rejects_huge_alignment_and_size() {
    let mut p = pmm::init(&memmap());
    let h = hhdm::init(OFFSET);
    let mut heap = init();
    let free0 = pmm::stats(&p).free;
    assert_eq!(heap.allocate(16, 8192, &mut p, &h), None);
    assert_eq!(heap.allocate(usize::MAX, 8, &mut p, &h), None);
    assert_eq!(heap.allocate(0x4000_0000, 8, &mut p, &h), None);
    assert_eq!(stats(&heap), zero());
    assert_eq!(pmm::stats(&p).free, free0);
}

#[test]
fn heap_realloc_keeps_or_moves() {
    let mut p = pmm::init(&memmap());
    let h = hhdm::init(OFFSET);
    let mut heap = init();
    let a = heap.allocate(20, 8, &mut p, &h).unwrap();
    assert_eq!(heap.reallocate(20, 8, 30, &mut p, &h), ReallocStep::Keep);
    assert_eq!(stats(&heap).small_objects_in_use, 1);
    let step = heap.reallocate(20, 8, 100, &mut p, &h);
    let b = match step {
        ReallocStep::Moved(b) => b,
        other => panic!("unexpected {:?}", other),
    };
    assert_ne!(a, b);
    assert_eq!(stats(&heap).bytes_in_use, 32 + 128);
    heap.deallocate(a, 20, 8, &mut p, &h);
    assert_eq!(stats(&heap).bytes_in_use, 128);
    assert!(matches!(heap.reallocate(100, 8, 50, &mut p, &h), ReallocStep::Moved(_)));
    assert_eq!(heap.reallocate(100, 3, 200, &mut p, &h), ReallocStep::Failed);
    assert_eq!(heap.reallocate(5000, 4096, 6000, &mut p, &h), ReallocStep::Keep);
    let _ = b;
}
