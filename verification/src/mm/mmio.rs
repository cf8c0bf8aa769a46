//! Device register mapping: ranges of device memory are mapped into a
//! dedicated window of the kernel's address space, uncached, handed out
//! page by page by a bump allocator. Device registers are never reached
//! through the direct map, which is cacheable.
use vstd::prelude::*;
use crate::mm::addr::{PhysAddr, VirtAddr};
use crate::mm::bitmap::free_count;
use crate::mm::paging::{PageFlags, FLAG_WRITABLE, FLAG_NO_CACHE, FLAG_WRITE_THROUGH, FLAG_NO_EXECUTE, FLAG_GLOBAL,
    FLAG_PRESENT, FLAG_HUGE, FLAGS_MASK};
use crate::mm::pmm::Pmm;
use crate::mm::vmm::{AddressSpace, PageSize, PhysMem, walk, owns_tables};
use crate::mm::vmm::tree::{tree_ok, unmapped_4k, lemma_frame, lemma_mapped_one_facts};
use crate::mm::vmm::range::lemma_pages_differ;

verus! {

/// Start of the MMIO window.
pub const MMIO_WINDOW_START: u64 = 0xffff_c800_0000_0000;
/// Where the kernel half of every address space starts.
pub const KERNEL_HALF: u64 = 0xffff_8000_0000_0000;
/// End of the MMIO window (exclusive).
pub const MMIO_WINDOW_END: u64 = 0xffff_c900_0000_0000;

/// The leaf flags of device pages: writable, uncached, write-through,
/// never executable, global.
pub open spec fn mmio_flags() -> u64 {
    FLAG_WRITABLE | FLAG_NO_CACHE | FLAG_WRITE_THROUGH | FLAG_NO_EXECUTE | FLAG_GLOBAL
}

/// The window's allocator: where the next mapping goes.
pub struct MmioWindow {
    next: u64,
}

/// How many pages cover `[phys, phys + len)`.
pub open spec fn pages_for(phys: u64, len: int) -> int {
    let start = phys - phys % 4096;
    let end = phys + len;
    (end + 4095 - (end + 4095) % 4096 - start) / 4096
}

/// A page `map_4k` could map translates to nothing.
proof fn lemma_unmapped_no_walk(m: Map<u64, Seq<u64>>, root: u64, v: u64)
    requires
        unmapped_4k(m, root, v),
    ensures
        walk(m, root, v) is None,
{
    reveal(walk);
}

impl MmioWindow {
    /// Where the next mapping goes.
    pub closed spec fn next_spec(&self) -> u64 {
        self.next
    }

    /// The cursor is page aligned and inside the window.
    pub open spec fn wf(&self) -> bool {
        &&& self.next_spec() % 4096 == 0
        &&& MMIO_WINDOW_START <= self.next_spec() <= MMIO_WINDOW_END
    }

    /// Nothing is mapped in `root`'s tables between the cursor and the end
    /// of the window.
    pub open spec fn rest_unmapped(&self, m: Map<u64, Seq<u64>>, root: u64) -> bool {
        forall|v: u64| v % 4096 == 0 && self.next_spec() <= v < MMIO_WINDOW_END ==> #[trigger] unmapped_4k(m, root, v)
    }

    /// An empty window.
    pub fn new() -> (r: Self)
        ensures
            r.wf(),
            r.next_spec() == MMIO_WINDOW_START,
    {
        MmioWindow { next: MMIO_WINDOW_START }
    }

    /// Maps the device memory `[phys, phys + len)` into the window, in the
    /// kernel address space `kernel`, and returns the address `phys` is
    /// seen at: the pages covering the range are mapped, in order, at the
    /// cursor, which moves past them, and the address keeps `phys`'s offset
    /// in its page. `None`, with nothing changed, for an empty range or
    /// when the window has too little room left. Every kernel-half
    /// address outside the new pages keeps its translation.
    pub fn map(&mut self, kernel: AddressSpace, mem: &mut PhysMem, pmm: &mut Pmm, phys: PhysAddr, len: usize)
        -> (r: Option<VirtAddr>)
        requires
            old(self).wf(),
            old(self).rest_unmapped(old(mem)@, kernel.pml4.0),
            old(mem).wf(),
            old(pmm).wf(),
            owns_tables(old(pmm), old(mem)@),
            tree_ok(old(mem)@, old(mem).levels(), kernel.pml4.0),
            phys.0 + len + 4096 <= 0x10_0000_0000_0000,
            free_count(old(pmm).general()) >= 3 * pages_for(phys.0, len as int),
        ensures
            final(self).wf(),
            final(self).rest_unmapped(final(mem)@, kernel.pml4.0),
            final(mem).wf(),
            owns_tables(final(pmm), final(mem)@),
            tree_ok(final(mem)@, final(mem).levels(), kernel.pml4.0),
            ({
                let base = old(self).next_spec();
                let pages = pages_for(phys.0, len as int);
                let start = phys.0 - phys.0 % 4096;
                if len == 0 || base + pages * 4096 > MMIO_WINDOW_END {
                    &&& r is None
                    &&& final(self).next_spec() == base
                    &&& final(mem)@ == old(mem)@
                } else {
                    &&& r == Some(VirtAddr((base + phys.0 % 4096) as u64))
                    &&& final(self).next_spec() == base + pages * 4096
                    &&& forall|k: int| 0 <= k < pages ==> #[trigger] walk(final(mem)@, kernel.pml4.0, (base + k * 4096) as u64)
                        == Some(((start + k * 4096) as u64, (mmio_flags() | FLAG_PRESENT) & FLAGS_MASK, PageSize::Normal))
                    &&& forall|v: u64| v % 4096 == 0 && KERNEL_HALF <= v && !(base <= v < base + pages * 4096)
                        ==> #[trigger] walk(final(mem)@, kernel.pml4.0, v) == walk(old(mem)@, kernel.pml4.0, v)
                }
            }),
    {
        if len == 0 {
            return None;
        }
        let ph: u64 = phys.0;
        let start = ph & !0xfffu64;
        let offset = ph & 0xfffu64;
        let end = ph + len as u64;
        let end4: u64 = end + 4095;
        let end_up = end4 & !0xfffu64;
        proof {
            assert(ph & !0xfffu64 == ph - ph % 4096 && ph & 0xfffu64 == ph % 4096
                && end4 & !0xfffu64 == end4 - end4 % 4096) by (bit_vector);
        }
        let pages = (end_up - start) / 4096;
        let base = self.next;
        if pages > (MMIO_WINDOW_END - base) / 4096 {
            return None;
        }
        self.next = base + pages * 4096;
        let root = kernel.pml4.as_u64();
        let flags = PageFlags(FLAG_WRITABLE).union(PageFlags(FLAG_NO_CACHE)).union(PageFlags(FLAG_WRITE_THROUGH))
            .union(PageFlags(FLAG_NO_EXECUTE)).union(PageFlags(FLAG_GLOBAL));
        proof {
            assert((0x2u64 | 0x10u64 | 0x8u64 | 0x8000_0000_0000_0000u64 | 0x100u64) & 0x80 == 0) by (bit_vector);
        }
        let ghost m0 = mem@;
        let mut i: u64 = 0;
        while i < pages
            invariant
                i <= pages,
                root == kernel.pml4.0,
                base % 4096 == 0,
                start % 4096 == 0,
                MMIO_WINDOW_START <= base,
                base + pages * 4096 <= MMIO_WINDOW_END,
                start + pages * 4096 <= 0x10_0000_0000_0000,
                flags.0 == mmio_flags(),
                flags.0 & FLAG_HUGE == 0,
                mem.wf(),
                pmm.wf(),
                owns_tables(pmm, mem@),
                tree_ok(mem@, mem.levels(), root),
                free_count(pmm.general()) >= 3 * (pages - i),
                forall|k: int| 0 <= k < i ==> #[trigger] walk(mem@, root, (base + k * 4096) as u64)
                    == Some(((start + k * 4096) as u64, (mmio_flags() | FLAG_PRESENT) & FLAGS_MASK, PageSize::Normal)),
                forall|v: u64| v % 4096 == 0 && base + i * 4096 <= v < MMIO_WINDOW_END ==> #[trigger] unmapped_4k(mem@, root, v),
                forall|v: u64| v % 4096 == 0 && KERNEL_HALF <= v && !(base <= v < base + pages * 4096)
                    ==> #[trigger] walk(mem@, root, v) == walk(m0, root, v),
            decreases pages - i,
        {
            let ghost mk = mem@;
            let ghost lvk = mem.levels();
            let v = base + i * 4096;
            let p = start + i * 4096;
            proof {
                assert(unmapped_4k(mk, root, v));
                lemma_unmapped_no_walk(mk, root, v);
            }
            if kernel.translate(mem, VirtAddr::new(v)).is_none() {
                kernel.map_4k(mem, pmm, VirtAddr::new(v), PhysAddr::new(p), flags);
                proof {
                    lemma_mapped_one_facts(mk, lvk, mem@, mem.levels(), root, v);
                    assert forall|k: int| 0 <= k < i + 1 implies #[trigger] walk(mem@, root, (base + k * 4096) as u64)
                        == Some(((start + k * 4096) as u64, (mmio_flags() | FLAG_PRESENT) & FLAGS_MASK, PageSize::Normal)) by {
                        if k < i {
                            let x = (base + k * 4096) as u64;
                            lemma_pages_differ(x, v);
                            lemma_frame(mk, lvk, mem@, mem.levels(), root, v, x);
                        }
                    }
                    assert forall|x: u64| x % 4096 == 0 && base + (i + 1) * 4096 <= x < MMIO_WINDOW_END
                        implies #[trigger] unmapped_4k(mem@, root, x) by {
                        assert(unmapped_4k(mk, root, x));
                        lemma_pages_differ(v, x);
                        lemma_frame(mk, lvk, mem@, mem.levels(), root, v, x);
                    }
                    assert forall|x: u64| x % 4096 == 0 && KERNEL_HALF <= x && !(base <= x < base + pages * 4096)
                        implies #[trigger] walk(mem@, root, x) == walk(m0, root, x) by {
                        if x < v {
                            lemma_pages_differ(x, v);
                        } else {
                            lemma_pages_differ(v, x);
                        }
                        lemma_frame(mk, lvk, mem@, mem.levels(), root, v, x);
                    }
                }
            }
            i = i + 1;
        }
        Some(VirtAddr::new(base + offset))
    }
}

} // verus!
