//! 4-level page table entries and tables: the entry bit layout, the flag
//! set, and the per-level index extraction from a virtual address.
use vstd::prelude::*;
use super::addr::{PhysAddr, VirtAddr, is_pow2, lemma_pow2_mask};

verus! {

/// How many entries a page table has at every level.
pub const ENTRIES_PER_TABLE: usize = 512;

/// Bits 12..51: where every entry (huge or not) stores its physical address.
pub const PHYS_ADDR_MASK: u64 = 0x000f_ffff_ffff_f000;

/// Alignment a `HUGE` entry's address must satisfy.
pub const HUGE_PAGE_ALIGN: u64 = 0x20_0000;

/// Every flag bit `PageFlags` ever sets.
pub const FLAGS_MASK: u64 = 0x8000_0000_0000_01ff;

pub const FLAG_PRESENT: u64 = 0x1;
pub const FLAG_WRITABLE: u64 = 0x2;
pub const FLAG_USER: u64 = 0x4;
pub const FLAG_WRITE_THROUGH: u64 = 0x8;
pub const FLAG_NO_CACHE: u64 = 0x10;
pub const FLAG_ACCESSED: u64 = 0x20;
pub const FLAG_DIRTY: u64 = 0x40;
pub const FLAG_HUGE: u64 = 0x80;
pub const FLAG_GLOBAL: u64 = 0x100;
pub const FLAG_NO_EXECUTE: u64 = 0x8000_0000_0000_0000;

/// Page-table entry flag bits.
#[derive(Clone, Copy, PartialEq, Eq, Structural, Debug)]
pub struct PageFlags(pub u64);

impl PageFlags {
    pub fn bits(self) -> (r: u64)
        ensures
            r == self.0,
    {
        self.0
    }

    /// Keeps only the bits this type knows about.
    pub fn from_bits_truncate(bits: u64) -> (r: Self)
        ensures
            r.0 == bits & FLAGS_MASK,
    {
        PageFlags(bits & FLAGS_MASK)
    }

    /// Whether every bit of `other` is set in `self`.
    pub fn contains(self, other: Self) -> (r: bool)
        ensures
            r == (self.0 & other.0 == other.0),
    {
        self.0 & other.0 == other.0
    }

    /// The union of two flag sets (the `|` of the flag bits).
    pub fn union(self, other: Self) -> (r: Self)
        ensures
            r.0 == self.0 | other.0,
    {
        PageFlags(self.0 | other.0)
    }
}

/// Whether the present bit of raw entry `e` is set.
pub open spec fn entry_present(e: u64) -> bool {
    e & FLAG_PRESENT != 0
}

/// Whether the huge (page size) bit of raw entry `e` is set.
pub open spec fn entry_huge(e: u64) -> bool {
    e & FLAG_HUGE != 0
}

/// The physical address stored in raw entry `e`.
pub open spec fn entry_addr(e: u64) -> u64 {
    e & PHYS_ADDR_MASK
}

/// The raw entry `set(addr, flags)` writes.
pub open spec fn entry_encode(addr: u64, flags: u64) -> u64 {
    (addr & PHYS_ADDR_MASK) | (flags & !PHYS_ADDR_MASK)
}

/// What an encoded entry reads back as, for a 4 KiB-aligned address below
/// 2^52: the address itself, and every flag bit of `flags`.
pub proof fn lemma_entry_roundtrip(addr: u64, flags: u64)
    requires
        addr % 4096 == 0,
        addr < 0x10_0000_0000_0000,
    ensures
        entry_addr(entry_encode(addr, flags)) == addr,
        entry_encode(addr, flags) & FLAGS_MASK == flags & FLAGS_MASK,
        entry_present(entry_encode(addr, flags)) == (flags & FLAG_PRESENT != 0),
        entry_huge(entry_encode(addr, flags)) == (flags & FLAG_HUGE != 0),
{
    assert(
        ((addr & 0x000f_ffff_ffff_f000) | (flags & !0x000f_ffff_ffff_f000u64)) & 0x000f_ffff_ffff_f000 == addr
        && ((addr & 0x000f_ffff_ffff_f000) | (flags & !0x000f_ffff_ffff_f000u64)) & 0x8000_0000_0000_01ff == flags & 0x8000_0000_0000_01ff
        && ((((addr & 0x000f_ffff_ffff_f000) | (flags & !0x000f_ffff_ffff_f000u64)) & 1 != 0) == (flags & 1 != 0))
        && ((((addr & 0x000f_ffff_ffff_f000) | (flags & !0x000f_ffff_ffff_f000u64)) & 0x80 != 0) == (flags & 0x80 != 0))
    ) by (bit_vector)
        requires
            addr % 4096 == 0,
            addr < 0x10_0000_0000_0000;
}

/// An all-zero entry maps nothing: neither present nor huge.
pub proof fn lemma_zero_entry()
    ensures
        !entry_present(0u64),
        !entry_huge(0u64),
{
    assert(0u64 & 1 == 0 && 0u64 & 0x80 == 0) by (bit_vector);
}

/// One page-table entry at any of the four levels.
#[derive(Clone, Copy, PartialEq, Eq, Structural, Debug)]
pub struct PageTableEntry(pub u64);

impl PageTableEntry {
    pub fn empty() -> (r: Self)
        ensures
            r.0 == 0,
    {
        PageTableEntry(0)
    }

    pub fn bits(self) -> (r: u64)
        ensures
            r == self.0,
    {
        self.0
    }

    pub fn is_present(self) -> (r: bool)
        ensures
            r == entry_present(self.0),
    {
        self.0 & FLAG_PRESENT != 0
    }

    pub fn is_huge(self) -> (r: bool)
        ensures
            r == entry_huge(self.0),
    {
        self.0 & FLAG_HUGE != 0
    }

    /// The physical address this entry stores, whether or not it's present.
    pub fn addr(self) -> (r: PhysAddr)
        ensures
            r.0 == entry_addr(self.0),
    {
        PhysAddr::new(self.0 & PHYS_ADDR_MASK)
    }

    pub fn flags(self) -> (r: PageFlags)
        ensures
            r.0 == self.0 & FLAGS_MASK,
    {
        PageFlags::from_bits_truncate(self.0)
    }

    /// Overwrites this entry to point at `addr` with `flags`. `addr` must be
    /// 4 KiB aligned, and 2 MiB aligned if `flags` holds `HUGE`.
    pub fn set(&mut self, addr: PhysAddr, flags: PageFlags)
        requires
            addr.0 % 4096 == 0,
            flags.0 & FLAG_HUGE != 0 ==> addr.0 % 0x20_0000 == 0,
        ensures
            final(self).0 == entry_encode(addr.0, flags.0),
    {
        self.0 = (addr.as_u64() & PHYS_ADDR_MASK) | (flags.bits() & !PHYS_ADDR_MASK);
    }

    pub fn clear(&mut self)
        ensures
            final(self).0 == 0,
    {
        self.0 = 0;
    }
}

/// A single 512-entry page table (PML4, PDPT, PD or PT).
#[derive(Clone, Debug)]
pub struct PageTable {
    entries: Vec<PageTableEntry>,
}

impl PageTable {
    /// The raw value of every entry.
    pub closed spec fn view(&self) -> Seq<u64> {
        self.entries@.map_values(|e: PageTableEntry| e.0)
    }

    /// Always 512 entries.
    pub closed spec fn wf(&self) -> bool {
        self.entries@.len() == 512
    }

    /// A table with every entry clear (not present).
    pub fn empty() -> (r: Self)
        ensures
            r.wf(),
            r@ == Seq::new(512, |i: int| 0u64),
    {
        let mut entries: Vec<PageTableEntry> = Vec::with_capacity(512);
        let mut i: usize = 0;
        while i < 512
            invariant
                0 <= i <= 512,
                entries@.len() == i,
                forall|j: int| 0 <= j < i ==> entries@[j].0 == 0,
            decreases 512 - i,
        {
            entries.push(PageTableEntry::empty());
            i += 1;
        }
        let r = PageTable { entries };
        proof {
            assert(r@ =~= Seq::new(512, |i: int| 0u64));
        }
        r
    }

    pub fn entry(&self, index: usize) -> (r: PageTableEntry)
        requires
            self.wf(),
            index < 512,
        ensures
            r.0 == self@[index as int],
    {
        self.entries[index]
    }

    /// Replaces entry `index` (the writable counterpart of `entry`).
    pub fn entry_mut(&mut self, index: usize, value: PageTableEntry)
        requires
            old(self).wf(),
            index < 512,
        ensures
            final(self).wf(),
            final(self)@ == old(self)@.update(index as int, value.0),
    {
        self.entries.set(index, value);
        proof {
            assert(self@ =~= old(self)@.update(index as int, value.0));
        }
    }
}

/// The 9-bit index a virtual address selects at `level` (0 = PML4, 1 =
/// PDPT, 2 = PD, 3 = PT).
pub open spec fn va_index(v: u64, level: int) -> int {
    ((v as int) / pow2_shift(level)) % 512
}

/// The shift for `level`'s index: 39, 30, 21 or 12 bits.
pub open spec fn pow2_shift(level: int) -> int {
    if level == 0 {
        0x80_0000_0000
    } else if level == 1 {
        0x4000_0000
    } else if level == 2 {
        0x20_0000
    } else {
        0x1000
    }
}

/// Bits 47..39: the PML4 index.
pub fn pml4_index(virt: VirtAddr) -> (r: usize)
    ensures
        r == va_index(virt.0, 0),
        r < 512,
{
    let v = virt.as_u64();
    proof {
        lemma_va_shift(v);
    }
    ((v >> 39u64) & 0x1ff) as usize
}

/// Bits 38..30: the PDPT index.
pub fn pdpt_index(virt: VirtAddr) -> (r: usize)
    ensures
        r == va_index(virt.0, 1),
        r < 512,
{
    let v = virt.as_u64();
    proof {
        lemma_va_shift(v);
    }
    ((v >> 30u64) & 0x1ff) as usize
}

/// Bits 29..21: the PD index.
pub fn pd_index(virt: VirtAddr) -> (r: usize)
    ensures
        r == va_index(virt.0, 2),
        r < 512,
{
    let v = virt.as_u64();
    proof {
        lemma_va_shift(v);
    }
    ((v >> 21u64) & 0x1ff) as usize
}

/// Bits 20..12: the PT index.
pub fn pt_index(virt: VirtAddr) -> (r: usize)
    ensures
        r == va_index(virt.0, 3),
        r < 512,
{
    let v = virt.as_u64();
    proof {
        lemma_va_shift(v);
    }
    ((v >> 12u64) & 0x1ff) as usize
}

/// The walk's indices are the address's 9-bit fields.
pub proof fn lemma_va_shift(x: u64)
    ensures
        va_index(x, 0) == (x >> 39u64) & 0x1ff,
        va_index(x, 1) == (x >> 30u64) & 0x1ff,
        va_index(x, 2) == (x >> 21u64) & 0x1ff,
        va_index(x, 3) == (x >> 12u64) & 0x1ff,
{
    assert((x >> 39u64) & 0x1ff == (x / 0x80_0000_0000) % 512
        && (x >> 30u64) & 0x1ff == (x / 0x4000_0000) % 512
        && (x >> 21u64) & 0x1ff == (x / 0x20_0000) % 512
        && (x >> 12u64) & 0x1ff == (x / 0x1000) % 512) by (bit_vector);
}

/// An address below the top of the lower half is its four table
/// indices, each at its level's shift, plus its offset in the page.
pub proof fn law_indices_recombine(v: u64)
    requires
        v < 0x1_0000_0000_0000,
    ensures
        v == va_index(v, 0) * 0x80_0000_0000 + va_index(v, 1) * 0x4000_0000 + va_index(v, 2) * 0x20_0000
            + va_index(v, 3) * 0x1000 + v % 4096,
{
    let x = v as int;
    assert(x / 0x80_0000_0000 < 512);
    assert(x == (x / 0x80_0000_0000) * 0x80_0000_0000 + ((x / 0x4000_0000) % 512) * 0x4000_0000
        + ((x / 0x20_0000) % 512) * 0x20_0000 + ((x / 0x1000) % 512) * 0x1000 + x % 4096);
}

} // verus!
