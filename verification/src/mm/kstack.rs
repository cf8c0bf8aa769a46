//! Kernel stacks: fixed-stride slots in the kernel's dynamic region, each
//! an unmapped guard page followed by `STACK_PAGES` mapped pages, so a
//! stack overflow faults on the guard page instead of corrupting a
//! neighbour. Slot indices are recycled, most recently released first.
use vstd::prelude::*;
use super::addr::{VirtAddr, PhysAddr};
use super::paging::{PageFlags, FLAG_WRITABLE, FLAG_NO_EXECUTE, FLAG_GLOBAL, FLAG_PRESENT, FLAG_HUGE, FLAGS_MASK};
use super::pmm::{Pmm, alloc_frame, frame_of};
use super::bitmap::free_count;
use super::vmm::{PhysMem, AddressSpace, PageSize, walk, owns_tables, lemma_all_used_no_free, lemma_free_count_decrements};
use super::vmm::tree::{tree_ok, unmapped_4k, mapped_one, links_distinct, lemma_frame, lemma_mapped_one_facts, other_page};
use super::vmm::range::{off_range, lemma_range_pages};

verus! {

/// Start of the kernel's dynamic region the stack slots live in.
pub const DYNAMIC_REGION_START: u64 = 0xffff_c000_0000_0000;
/// End of the kernel's dynamic region.
pub const DYNAMIC_REGION_END: u64 = 0xffff_d000_0000_0000;
/// Pages of one kernel stack (64 KiB).
pub const STACK_PAGES: usize = 16;
/// Bytes of one kernel stack.
pub const STACK_BYTES: u64 = 0x1_0000;
/// One slot: a guard page, then the stack.
pub const SLOT_SIZE: u64 = 0x1_1000;
/// How many stack slots exist.
pub const NUM_SLOTS: usize = 4096;

/// One kernel stack: its guard page, its lowest mapped byte, and one past
/// its highest (the initial stack pointer).
#[derive(Clone, Copy, Debug, PartialEq, Eq, Structural)]
pub struct KernelStack {
    pub guard: VirtAddr,
    pub bottom: VirtAddr,
    pub top: VirtAddr,
}

/// The stack slot a faulting address's guard page belongs to.
#[derive(Clone, Copy, Debug, PartialEq, Eq, Structural)]
pub struct GuardMatch {
    pub guard: VirtAddr,
    pub bottom: VirtAddr,
}

/// The addresses of slot `index`.
pub open spec fn slot_spec(index: int) -> KernelStack {
    let base = DYNAMIC_REGION_START + index * SLOT_SIZE;
    KernelStack {
        guard: VirtAddr(base as u64),
        bottom: VirtAddr((base + 4096) as u64),
        top: VirtAddr((base + 4096 + STACK_BYTES) as u64),
    }
}

/// The addresses of slot `index`.
pub fn slot_addrs(index: usize) -> (r: KernelStack)
    requires
        index < NUM_SLOTS,
    ensures
        r == slot_spec(index as int),
{
    let base = DYNAMIC_REGION_START + index as u64 * SLOT_SIZE;
    let guard = VirtAddr::new(base);
    let bottom = VirtAddr::new(base + 4096);
    let top = VirtAddr::new(bottom.as_u64() + STACK_BYTES);
    KernelStack { guard, bottom, top }
}

/// Which slot indices are in use: indices from `next_fresh` up were never
/// handed out; `free` holds released ones, most recent last.
pub struct SlotAllocator {
    next_fresh: usize,
    free: Vec<usize>,
}

impl SlotAllocator {
    /// Nothing handed out yet.
    pub fn new() -> (r: Self)
        ensures
            r.next_fresh_spec() == 0,
            r.free_spec() == Seq::<usize>::empty(),
    {
        SlotAllocator { next_fresh: 0, free: Vec::new() }
    }

    pub closed spec fn next_fresh_spec(&self) -> usize {
        self.next_fresh
    }

    pub closed spec fn free_spec(&self) -> Seq<usize> {
        self.free@
    }

    /// Every index is a slot, fresh ones are above released ones.
    pub open spec fn wf(&self) -> bool {
        &&& self.next_fresh_spec() <= NUM_SLOTS
        &&& forall|i: int| 0 <= i < self.free_spec().len() ==> #[trigger] self.free_spec()[i] < self.next_fresh_spec()
    }

    /// The slot `claim` hands out next.
    pub open spec fn next_slot(&self) -> int {
        if self.free_spec().len() > 0 { self.free_spec().last() as int } else { self.next_fresh_spec() as int }
    }

    /// Whether `claim` can hand out a slot.
    pub open spec fn can_claim(&self) -> bool {
        self.free_spec().len() > 0 || self.next_fresh_spec() < NUM_SLOTS
    }

    /// The most recently released index, else the next fresh one.
    pub fn claim(&mut self) -> (r: usize)
        requires
            old(self).wf(),
            old(self).can_claim(),
        ensures
            final(self).wf(),
            r < NUM_SLOTS,
            old(self).free_spec().len() > 0 ==> r == old(self).free_spec().last()
                && final(self).free_spec() == old(self).free_spec().drop_last()
                && final(self).next_fresh_spec() == old(self).next_fresh_spec(),
            old(self).free_spec().len() == 0 ==> r == old(self).next_fresh_spec()
                && final(self).next_fresh_spec() == old(self).next_fresh_spec() + 1
                && final(self).free_spec() == old(self).free_spec(),
    {
        if let Some(index) = self.free.pop() {
            proof {
                assert(old(self).free_spec()[old(self).free_spec().len() - 1] < old(self).next_fresh_spec());
            }
            return index;
        }
        let index = self.next_fresh;
        self.next_fresh = self.next_fresh + 1;
        index
    }

    /// Gives slot `index` back.
    pub fn release(&mut self, index: usize)
        requires
            old(self).wf(),
            index < old(self).next_fresh_spec(),
        ensures
            final(self).wf(),
            final(self).free_spec() == old(self).free_spec().push(index),
            final(self).next_fresh_spec() == old(self).next_fresh_spec(),
    {
        self.free.push(index);
        proof {
            assert forall|i: int| 0 <= i < self.free_spec().len() implies #[trigger] self.free_spec()[i] < self.next_fresh_spec() by {
                if i < old(self).free_spec().len() {
                    assert(self.free_spec()[i] == old(self).free_spec()[i]);
                }
            }
        }
    }
}

/// The kernel-stack state: slot bookkeeping and the boot stack, once set.
pub struct KStacks {
    pub slots: SlotAllocator,
    pub boot: Option<KernelStack>,
}

/// The leaf flags every stack page gets: writable, never executable,
/// global.
pub open spec fn stack_flags() -> u64 {
    FLAG_WRITABLE | FLAG_NO_EXECUTE | FLAG_GLOBAL
}

/// `v` is mapped as a 4 KiB stack page (to some frame).
pub open spec fn stack_page_mapped(m: Map<u64, Seq<u64>>, root: u64, v: u64) -> bool {
    walk(m, root, v) matches Some((p, f, s)) && f == (stack_flags() | FLAG_PRESENT) & FLAGS_MASK && s == PageSize::Normal
}

/// Claims a stack slot and backs its `STACK_PAGES` pages with fresh PMM
/// frames mapped writable, non-executable and global in the kernel
/// address space; the guard page stays unmapped. Every other address keeps
/// its translation.
pub fn allocate(
    ks: &mut KStacks, mem: &mut PhysMem, pmm: &mut Pmm, kernel: AddressSpace, pages: usize,
) -> (r: KernelStack)
    requires
        pages == STACK_PAGES,
        old(ks).slots.wf(),
        old(ks).slots.can_claim(),
        old(mem).wf(),
        old(pmm).wf(),
        owns_tables(old(pmm), old(mem)@),
        tree_ok(old(mem)@, old(mem).levels(), kernel.pml4.0),
        forall|k: int| 0 <= k < STACK_PAGES ==>
            #[trigger] unmapped_4k(old(mem)@, kernel.pml4.0, (slot_spec(old(ks).slots.next_slot()).bottom.0 + k * 4096) as u64),
        free_count(old(pmm).general()) >= 4 * STACK_PAGES,
    ensures
        final(ks).slots.wf(),
        final(ks).boot == old(ks).boot,
        final(mem).wf(),
        owns_tables(final(pmm), final(mem)@),
        tree_ok(final(mem)@, final(mem).levels(), kernel.pml4.0),
        r == slot_spec(old(ks).slots.next_slot()),
        forall|k: int| 0 <= k < STACK_PAGES ==> #[trigger] stack_page_mapped(final(mem)@, kernel.pml4.0, (r.bottom.0 + k * 4096) as u64),
        forall|v: u64| #[trigger] off_range(v, r.bottom.0, STACK_BYTES)
            ==> walk(final(mem)@, kernel.pml4.0, v) == walk(old(mem)@, kernel.pml4.0, v),
{
    let index = ks.slots.claim();
    let stack = slot_addrs(index);
    let flags = PageFlags(FLAG_WRITABLE).union(PageFlags(FLAG_NO_EXECUTE)).union(PageFlags(FLAG_GLOBAL));
    let root = kernel.pml4.as_u64();
    let ghost m0 = mem@;
    let ghost b = stack.bottom.0;
    proof {
        assert(index == old(ks).slots.next_slot());
        assert(b == slot_spec(old(ks).slots.next_slot()).bottom.0);
        assert forall|k: int| 0 <= k < STACK_PAGES implies #[trigger] unmapped_4k(m0, root, (b + k * 4096) as u64) by {
            assert(unmapped_4k(old(mem)@, kernel.pml4.0, (slot_spec(old(ks).slots.next_slot()).bottom.0 + k * 4096) as u64));
        }
        assert(((0x2u64 | 0x8000_0000_0000_0000u64) | 0x100u64) & 0x80u64 == 0) by (bit_vector);
    }
    let mut i: u64 = 0;
    while i < STACK_PAGES as u64
        invariant
            i <= STACK_PAGES,
            index < NUM_SLOTS,
            stack == slot_spec(index as int),
            b == stack.bottom.0,
            root == kernel.pml4.0,
            flags.0 == stack_flags(),
            flags.0 & FLAG_HUGE == 0,
            mem.wf(),
            pmm.wf(),
            owns_tables(pmm, mem@),
            tree_ok(mem@, mem.levels(), root),
            free_count(pmm.general()) >= 4 * (STACK_PAGES - i),
            forall|k: int| 0 <= k < i ==> #[trigger] stack_page_mapped(mem@, root, (b + k * 4096) as u64),
            forall|k: int| i <= k < STACK_PAGES ==> #[trigger] unmapped_4k(mem@, root, (b + k * 4096) as u64),
            forall|v: u64| #[trigger] off_range(v, b, STACK_BYTES) ==> walk(mem@, root, v) == walk(m0, root, v),
        decreases STACK_PAGES - i,
    {
        let ghost mk = mem@;
        let ghost lvk = mem.levels();
        let ghost g0 = pmm.general();
        proof {
            pmm.lemma_wf_facts();
        }
        let frame = match alloc_frame(pmm) {
            Some(p) => p,
            None => {
                proof {
                    lemma_all_used_no_free(g0);
                }
                return stack;
            },
        };
        proof {
            let f = frame_of(frame.0);
            lemma_free_count_decrements(g0, f);
            assert(frame.0 < 0x10_0000_0000_0000) by (nonlinear_arith)
                requires f < g0.len(), g0.len() * 4096 <= 0x10_0000_0000_0000, frame.0 == f * 4096;
            assert forall|kk: u64| #[trigger] mem@.contains_key(kk) implies {
                &&& kk % 4096 == 0
                &&& pmm.low().len() <= kk / 4096 < pmm.general().len()
                &&& pmm.general()[(kk / 4096) as int]
            } by {
                assert(g0[(kk / 4096) as int]);
            }
        }
        let v = stack.bottom.as_u64() + i * 4096;
        proof {
            assert(unmapped_4k(mk, root, (b + i * 4096) as u64));
        }
        kernel.map_4k(mem, pmm, VirtAddr::new(v), frame, flags);
        proof {
            lemma_mapped_one_facts(mk, lvk, mem@, mem.levels(), root, v);
            assert forall|k: int| 0 <= k < i + 1 implies #[trigger] stack_page_mapped(mem@, root, (b + k * 4096) as u64) by {
                if k < i {
                    assert(stack_page_mapped(mk, root, (b + k * 4096) as u64));
                    lemma_range_pages(b, STACK_BYTES, k * 4096, i * 4096);
                    lemma_frame(mk, lvk, mem@, mem.levels(), root, v, (b + k * 4096) as u64);
                }
            }
            assert forall|k: int| i + 1 <= k < STACK_PAGES implies #[trigger] unmapped_4k(mem@, root, (b + k * 4096) as u64) by {
                assert(unmapped_4k(mk, root, (b + k * 4096) as u64));
                lemma_range_pages(b, STACK_BYTES, k * 4096, i * 4096);
                lemma_frame(mk, lvk, mem@, mem.levels(), root, v, (b + k * 4096) as u64);
            }
            assert forall|v2: u64| #[trigger] off_range(v2, b, STACK_BYTES) implies walk(mem@, root, v2) == walk(m0, root, v2) by {
                assert(other_page(v2, (b + i * 4096) as u64));
                lemma_frame(mk, lvk, mem@, mem.levels(), root, v, v2);
            }
        }
        i = i + 1;
    }
    stack
}

/// If `addr` lies in some stack slot's guard page, that slot's guard and
/// stack bottom; `None` for any other address.
pub fn find_guard(addr: VirtAddr) -> (r: Option<GuardMatch>)
    ensures
        ({
            let rel = addr.0 - DYNAMIC_REGION_START;
            if 0 <= rel < NUM_SLOTS * SLOT_SIZE && rel % (SLOT_SIZE as int) < 4096 {
                let s = slot_spec(rel / (SLOT_SIZE as int));
                r == Some(GuardMatch { guard: s.guard, bottom: s.bottom })
            } else {
                r.is_none()
            }
        }),
{
    let a = addr.as_u64();
    let rel = match a.checked_sub(DYNAMIC_REGION_START) {
        Some(x) => x,
        None => return None,
    };
    let slot_region_len = NUM_SLOTS as u64 * SLOT_SIZE;
    if rel >= slot_region_len {
        return None;
    }
    let offset_in_slot = rel % SLOT_SIZE;
    if offset_in_slot >= 4096 {
        return None;
    }
    let index = (rel / SLOT_SIZE) as usize;
    let stack = slot_addrs(index);
    Some(GuardMatch { guard: stack.guard, bottom: stack.bottom })
}

/// Allocates the boot stack (see `allocate`) and records it; the caller
/// then points the TSS's ring-0 stack at its top.
pub fn init_boot_stack(
    ks: &mut KStacks, mem: &mut PhysMem, pmm: &mut Pmm, kernel: AddressSpace, pages: usize,
) -> (r: KernelStack)
    requires
        pages == STACK_PAGES,
        old(ks).slots.wf(),
        old(ks).slots.can_claim(),
        old(mem).wf(),
        old(pmm).wf(),
        owns_tables(old(pmm), old(mem)@),
        tree_ok(old(mem)@, old(mem).levels(), kernel.pml4.0),
        forall|k: int| 0 <= k < STACK_PAGES ==>
            #[trigger] unmapped_4k(old(mem)@, kernel.pml4.0, (slot_spec(old(ks).slots.next_slot()).bottom.0 + k * 4096) as u64),
        free_count(old(pmm).general()) >= 4 * STACK_PAGES,
    ensures
        final(ks).slots.wf(),
        final(ks).boot == Some(r),
        final(mem).wf(),
        owns_tables(final(pmm), final(mem)@),
        tree_ok(final(mem)@, final(mem).levels(), kernel.pml4.0),
        r == slot_spec(old(ks).slots.next_slot()),
        forall|k: int| 0 <= k < STACK_PAGES ==> #[trigger] stack_page_mapped(final(mem)@, kernel.pml4.0, (r.bottom.0 + k * 4096) as u64),
{
    let stack = allocate(ks, mem, pmm, kernel, pages);
    ks.boot = Some(stack);
    stack
}

/// The boot stack, once `init_boot_stack` has recorded it.
pub fn boot_stack(ks: &KStacks) -> (r: KernelStack)
    requires
        ks.boot.is_some(),
    ensures
        r == ks.boot.unwrap(),
{
    ks.boot.unwrap()
}

} // verus!
