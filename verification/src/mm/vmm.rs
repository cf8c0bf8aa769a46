//! The virtual memory manager: 4-level page tables built out of frames the
//! PMM hands out, and the map/unmap/translate operations over one address
//! space. The frames that hold page tables are modelled by `PhysMem`: the
//! content of every physical frame currently used as a page table.
use vstd::prelude::*;
use std::collections::HashMap;
use super::addr::{PhysAddr, VirtAddr};
use super::paging::{PageTable, PageTableEntry, PageFlags, entry_present, entry_huge, entry_addr, entry_encode, lemma_entry_roundtrip, va_index, pml4_index, pdpt_index, pd_index, pt_index, FLAGS_MASK, PHYS_ADDR_MASK, FLAG_PRESENT, FLAG_WRITABLE, FLAG_USER, FLAG_HUGE};
use super::pmm::{Pmm, alloc_frame, lowest_free};
use super::bitmap::free_count;
use tree::{is_link, layered, grows, changed_only_absent, new_links_fresh, links_distinct, in_space, tree_ok, unmapped_4k, unmapped_2m, mapped_one, lemma_tree_path_ok, lemma_walk_levels, lemma_chain, lemma_leaf_write};

pub mod tree;
pub mod range;
pub mod space;
pub mod ranges;

verus! {

broadcast use vstd::std_specs::hash::group_hash_axioms;

/// Size of a 2 MiB (huge) page.
pub const HUGE_PAGE_SIZE: u64 = 0x20_0000;

/// A page's size, as returned by `AddressSpace::translate`.
#[derive(Clone, Copy, PartialEq, Eq, Structural, Debug)]
pub enum PageSize {
    /// A normal, 4 KiB page.
    Normal,
    /// A 2 MiB huge page.
    Huge,
}

/// The content of every physical frame that currently holds a page table,
/// keyed by the frame's physical address.
pub struct PhysMem {
    tables: HashMap<u64, PageTable>,
    levels: Ghost<Map<u64, nat>>,
}

impl PhysMem {
    /// Each table frame's 512 raw entries.
    pub closed spec fn view(&self) -> Map<u64, Seq<u64>> {
        self.tables@.map_values(|t: PageTable| t@)
    }

    /// The paging level each table frame is used at: 0 for a PML4, 1 for
    /// a PDPT, 2 for a PD, 3 for a PT.
    pub closed spec fn levels(&self) -> Map<u64, nat> {
        self.levels@
    }

    pub closed spec fn wf(&self) -> bool {
        &&& forall|k: u64| #[trigger] self.tables@.contains_key(k) ==> self.tables@[k].wf() && self.tables@[k]@.len() == 512
        &&& self.levels@.dom() == self.tables@.dom()
        &&& forall|k: u64| #[trigger] self.levels@.contains_key(k) ==> self.levels@[k] <= 3
    }

    /// The domain of the level map is that of the tables, and every level
    /// is at most 3.
    pub proof fn lemma_levels(&self)
        requires
            self.wf(),
        ensures
            self.levels().dom() == self@.dom(),
            forall|k: u64| #[trigger] self@.contains_key(k) ==> self.levels()[k] <= 3,
            forall|k: u64| #[trigger] self@.contains_key(k) ==> self@[k].len() == 512,
    {
        assert(self@.dom() =~= self.tables@.dom());
    }

    /// No page tables yet.
    pub fn new() -> (r: Self)
        ensures
            r.wf(),
            r@ == Map::<u64, Seq<u64>>::empty(),
    {
        let r = PhysMem { tables: HashMap::new(), levels: Ghost(Map::empty()) };
        proof {
            assert(r@ =~= Map::<u64, Seq<u64>>::empty());
            assert(r.levels@.dom() =~= r.tables@.dom());
        }
        r
    }

    /// Entry `index` of the table at `table`.
    pub fn read(&self, table: u64, index: usize) -> (r: u64)
        requires
            self.wf(),
            self@.contains_key(table),
            index < 512,
        ensures
            r == self@[table][index as int],
    {
        let t = self.tables.get(&table).unwrap();
        t.entry(index).bits()
    }

    /// Overwrites entry `index` of the table at `table`.
    pub fn write(&mut self, table: u64, index: usize, value: u64)
        requires
            old(self).wf(),
            old(self)@.contains_key(table),
            index < 512,
        ensures
            final(self).wf(),
            final(self)@ == old(self)@.insert(table, old(self)@[table].update(index as int, value)),
            final(self).levels() == old(self).levels(),
    {
        let mut t = self.tables.remove(&table).unwrap();
        t.entry_mut(index, PageTableEntry(value));
        self.tables.insert(table, t);
        proof {
            assert(self@ =~= old(self)@.insert(table, old(self)@[table].update(index as int, value)));
        }
    }

    /// Starts using the frame at `table` as a page table of paging level
    /// `level` (0 = PML4 .. 3 = PT), all entries clear.
    pub fn install(&mut self, table: u64, level: usize)
        requires
            old(self).wf(),
            level <= 3,
        ensures
            final(self).wf(),
            final(self)@ == old(self)@.insert(table, Seq::new(512, |i: int| 0u64)),
            final(self).levels() == old(self).levels().insert(table, level as nat),
    {
        self.tables.insert(table, PageTable::empty());
        proof {
            self.levels@ = self.levels@.insert(table, level as nat);
            assert(self@ =~= old(self)@.insert(table, Seq::new(512, |i: int| 0u64)));
            assert(self.levels@.dom() =~= self.tables@.dom());
        }
    }

    /// Stops using the frame at `table` as a page table.
    pub fn remove(&mut self, table: u64)
        requires
            old(self).wf(),
        ensures
            final(self).wf(),
            final(self)@ == old(self)@.remove(table),
            final(self).levels() == old(self).levels().remove(table),
    {
        self.tables.remove(&table);
        proof {
            self.levels@ = self.levels@.remove(table);
            assert(self@ =~= old(self)@.remove(table));
            assert(self.levels@.dom() =~= self.tables@.dom());
        }
    }

    /// Whether the frame at `table` holds a page table.
    pub fn contains(&self, table: u64) -> (r: bool)
        ensures
            r == self@.contains_key(table),
    {
        self.tables.contains_key(&table)
    }
}

/// Every page-table frame is a used frame of the PMM's general pool.
pub open spec fn owns_tables(pmm: &Pmm, m: Map<u64, Seq<u64>>) -> bool {
    forall|k: u64| #[trigger] m.contains_key(k) ==> {
        &&& k % 4096 == 0
        &&& pmm.low().len() <= k / 4096 < pmm.general().len()
        &&& pmm.general()[(k / 4096) as int]
    }
}

/// The table a present entry points to, if it holds a page table.
pub open spec fn child(m: Map<u64, Seq<u64>>, e: u64) -> Option<u64> {
    if entry_present(e) && m.contains_key(entry_addr(e)) { Some(entry_addr(e)) } else { None }
}

/// The PDPT `v`'s walk reaches from `root`.
pub open spec fn t1(m: Map<u64, Seq<u64>>, root: u64, v: u64) -> Option<u64> {
    if m.contains_key(root) { child(m, m[root][va_index(v, 0)]) } else { None }
}

/// The PD `v`'s walk reaches.
pub open spec fn t2(m: Map<u64, Seq<u64>>, root: u64, v: u64) -> Option<u64> {
    match t1(m, root, v) {
        Some(a) => child(m, m[a][va_index(v, 1)]),
        None => None,
    }
}

/// The PD entry for `v`, if its PD exists.
pub open spec fn pd_entry(m: Map<u64, Seq<u64>>, root: u64, v: u64) -> Option<u64> {
    match t2(m, root, v) {
        Some(a) => Some(m[a][va_index(v, 2)]),
        None => None,
    }
}

/// The PT `v`'s walk reaches (none through a huge PD entry).
pub open spec fn t3(m: Map<u64, Seq<u64>>, root: u64, v: u64) -> Option<u64> {
    match pd_entry(m, root, v) {
        Some(e) => if entry_huge(e) { None } else { child(m, e) },
        None => None,
    }
}

/// What the MMU's walk of `root`'s tables makes of `v`: the physical
/// address, the leaf entry's flag bits, and the page size.
#[verifier::opaque]
pub open spec fn walk(m: Map<u64, Seq<u64>>, root: u64, v: u64) -> Option<(u64, u64, PageSize)> {
    match pd_entry(m, root, v) {
        None => None,
        Some(e) => if entry_huge(e) {
            if entry_present(e) {
                Some(((entry_addr(e) + v % 0x20_0000) as u64, e & FLAGS_MASK, PageSize::Huge))
            } else {
                None
            }
        } else {
            match t3(m, root, v) {
                None => None,
                Some(pt) => {
                    let l = m[pt][va_index(v, 3)];
                    if entry_present(l) {
                        Some(((entry_addr(l) + v % 4096) as u64, l & FLAGS_MASK, PageSize::Normal))
                    } else {
                        None
                    }
                },
            }
        },
    }
}

/// Slot `(t, i)` lies on `v`'s walk in `m` (at any level).
pub open spec fn on_path(m: Map<u64, Seq<u64>>, root: u64, v: u64, t: u64, i: int) -> bool {
    ||| (t == root && i == va_index(v, 0))
    ||| (t1(m, root, v) == Some(t) && i == va_index(v, 1))
    ||| (t2(m, root, v) == Some(t) && i == va_index(v, 2))
    ||| (t3(m, root, v) == Some(t) && i == va_index(v, 3))
}

/// Every table entry outside `v`'s walk keeps its value, and every table
/// that existed still exists.
pub open spec fn only_path_changed(old_m: Map<u64, Seq<u64>>, new_m: Map<u64, Seq<u64>>, root: u64, v: u64) -> bool {
    &&& forall|t: u64| #[trigger] old_m.contains_key(t) ==> new_m.contains_key(t)
    &&& forall|t: u64, i: int| old_m.contains_key(t) && 0 <= i < 512 && !on_path(new_m, root, v, t, i)
        ==> #[trigger] new_m[t][i] == old_m[t][i]
    &&& forall|t: u64, i: int| !old_m.contains_key(t) && new_m.contains_key(t) && 0 <= i < 512 && !on_path(new_m, root, v, t, i)
        ==> #[trigger] new_m[t][i] == 0
}

/// The tables `v`'s walk passes through exist wherever an entry is
/// present, and are pairwise distinct.
pub open spec fn path_ok(m: Map<u64, Seq<u64>>, root: u64, v: u64) -> bool {
    &&& m.contains_key(root)
    &&& entry_present(m[root][va_index(v, 0)]) ==> t1(m, root, v).is_some()
    &&& t1(m, root, v).is_some() ==> {
        let a = t1(m, root, v).unwrap();
        &&& a != root
        &&& entry_present(m[a][va_index(v, 1)]) ==> t2(m, root, v).is_some()
    }
    &&& t2(m, root, v).is_some() ==> {
        let b = t2(m, root, v).unwrap();
        &&& b != root
        &&& b != t1(m, root, v).unwrap()
        &&& entry_present(m[b][va_index(v, 2)]) && !entry_huge(m[b][va_index(v, 2)]) ==> t3(m, root, v).is_some()
    }
    &&& t3(m, root, v).is_some() ==> {
        let c = t3(m, root, v).unwrap();
        &&& c != root
        &&& c != t1(m, root, v).unwrap()
        &&& c != t2(m, root, v).unwrap()
    }
}

/// The PMM is unchanged but for frames newly marked used, each of which
/// now holds a page table that didn't exist before.
pub open spec fn pmm_grew_tables(old_p: &Pmm, new_p: &Pmm, old_m: Map<u64, Seq<u64>>, new_m: Map<u64, Seq<u64>>) -> bool {
    &&& new_p.wf()
    &&& new_p.low() == old_p.low()
    &&& new_p.regions() == old_p.regions()
    &&& new_p.store() == old_p.store()
    &&& new_p.spec_low_reserved() == old_p.spec_low_reserved()
    &&& new_p.general().len() == old_p.general().len()
    &&& forall|f: int| 0 <= f < old_p.general().len() && old_p.general()[f] ==> new_p.general()[f]
    &&& forall|f: int| 0 <= f < old_p.general().len() && new_p.general()[f] && !old_p.general()[f]
        ==> new_m.contains_key((f * 4096) as u64) && !old_m.contains_key((f * 4096) as u64)
}

/// Permissions granted to every intermediate entry created for a leaf
/// mapped with `leaf_flags`: present and writable, plus `USER` when the
/// leaf is user-accessible.
pub fn intermediate_flags(leaf_flags: PageFlags) -> (r: PageFlags)
    ensures
        r.0 == if leaf_flags.0 & FLAG_USER == FLAG_USER { FLAG_PRESENT | FLAG_WRITABLE | FLAG_USER } else { FLAG_PRESENT | FLAG_WRITABLE },
        r.0 & FLAG_HUGE == 0,
        r.0 & FLAG_PRESENT != 0,
{
    let mut flags = PageFlags(FLAG_PRESENT).union(PageFlags(FLAG_WRITABLE));
    if leaf_flags.contains(PageFlags(FLAG_USER)) {
        flags = flags.union(PageFlags(FLAG_USER));
    }
    assert((0x1u64 | 0x2u64) & 0x80 == 0 && ((0x1u64 | 0x2u64) | 0x4u64) & 0x80 == 0
        && (0x1u64 | 0x2u64) & 0x1 != 0 && ((0x1u64 | 0x2u64) | 0x4u64) & 0x1 != 0) by (bit_vector);
    flags
}

/// Follows a present entry to the table it points at; `None` if the entry
/// isn't present (or holds no page table).
pub fn next_table(mem: &PhysMem, entry: PageTableEntry) -> (r: Option<PhysAddr>)
    ensures
        match child(mem@, entry.0) {
            Some(a) => r == Some(PhysAddr(a)),
            None => r.is_none(),
        },
{
    if !entry.is_present() {
        return None;
    }
    let a = entry.addr();
    if mem.contains(a.as_u64()) {
        Some(a)
    } else {
        None
    }
}

/// Like `next_table`, but first allocates a zeroed frame from the PMM for
/// entry `index` of `table` if that entry isn't present, and points the
/// entry at it with `parent_flags | PRESENT`. Returns the child table.
pub fn next_table_or_create(mem: &mut PhysMem, pmm: &mut Pmm, table: u64, index: usize, child_level: usize, parent_flags: PageFlags) -> (r: u64)
    requires
        old(mem).wf(),
        old(pmm).wf(),
        owns_tables(old(pmm), old(mem)@),
        layered(old(mem)@, old(mem).levels()),
        old(mem)@.contains_key(table),
        child_level == old(mem).levels()[table] + 1,
        child_level <= 3,
        index < 512,
        parent_flags.0 & FLAG_HUGE == 0,
        entry_present(old(mem)@[table][index as int]) ==> is_link(old(mem).levels()[table], old(mem)@[table][index as int]),
        !entry_present(old(mem)@[table][index as int]) ==> free_count(old(pmm).general()) > 0,
    ensures
        final(mem).wf(),
        owns_tables(final(pmm), final(mem)@),
        pmm_grew_tables(old(pmm), final(pmm), old(mem)@, final(mem)@),
        layered(final(mem)@, final(mem).levels()),
        grows(old(mem)@, old(mem).levels(), final(mem)@, final(mem).levels()),
        changed_only_absent(old(mem)@, final(mem)@),
        new_links_fresh(old(mem)@, final(mem)@, final(mem).levels()),
        forall|root: u64| links_distinct(old(mem)@, old(mem).levels(), root)
            ==> #[trigger] links_distinct(final(mem)@, final(mem).levels(), root),
        final(mem)@.contains_key(r),
        final(mem).levels()[r] == child_level,
        is_link(final(mem).levels()[table], final(mem)@[table][index as int]),
        child(final(mem)@, final(mem)@[table][index as int]) == Some(r),
        entry_present(old(mem)@[table][index as int]) ==> {
            &&& final(mem)@ == old(mem)@
            &&& final(mem).levels() == old(mem).levels()
            &&& r == entry_addr(old(mem)@[table][index as int])
            &&& final(pmm).general() == old(pmm).general()
        },
        !entry_present(old(mem)@[table][index as int]) ==> {
            &&& !old(mem)@.contains_key(r)
            &&& r != table
            &&& final(mem)@ == old(mem)@.insert(r, Seq::new(512, |i: int| 0u64)).insert(
                table, old(mem)@[table].update(index as int, entry_encode(r, parent_flags.0 | FLAG_PRESENT)))
            &&& final(mem).levels() == old(mem).levels().insert(r, child_level as nat)
            &&& free_count(final(pmm).general()) + 1 == free_count(old(pmm).general())
            &&& !entry_huge(final(mem)@[table][index as int])
        },
{
    let e = mem.read(table, index);
    if e & FLAG_PRESENT != 0 {
        proof {
            assert(entry_addr(e) == e & PHYS_ADDR_MASK);
        }
        return e & PHYS_ADDR_MASK;
    }
    let ghost old_general = pmm.general();
    proof {
        pmm.lemma_wf_facts();
    }
    let frame = alloc_frame(pmm);
    let phys = match frame {
        Some(p) => p,
        None => {
            proof {
                lemma_all_used_no_free(old_general);
            }
            return 0;
        },
    };
    let r = phys.as_u64();
    proof {
        pmm.lemma_wf_facts();
        let f = r as int / 4096;
        assert(lowest_free(old_general, f));
        assert(!old(mem)@.contains_key(r)) by {
            if old(mem)@.contains_key(r) {
                assert(r / 4096 == f);
            }
        }
        assert(r < 0x10_0000_0000_0000) by (nonlinear_arith)
            requires f < pmm.general().len(), pmm.general().len() * 4096 <= 0x10_0000_0000_0000, r == f * 4096;
        lemma_entry_roundtrip(r, parent_flags.0 | FLAG_PRESENT);
        let pf = parent_flags.0;
        lemma_leaf_flags(pf);
        lemma_free_count_decrements(old_general, f);
    }
    mem.install(r, child_level);
    let mut entry = PageTableEntry(0);
    entry.set(phys, parent_flags.union(PageFlags(FLAG_PRESENT)));
    mem.write(table, index, entry.bits());
    proof {
        assert(mem@.dom() =~= old(mem)@.dom().insert(r));
        assert forall|k: u64| #[trigger] mem@.contains_key(k) implies {
            &&& k % 4096 == 0
            &&& pmm.low().len() <= k / 4096 < pmm.general().len()
            &&& pmm.general()[(k / 4096) as int]
        } by {
            if k != r {
                assert(old(mem)@.contains_key(k));
            } else {
                assert(!old_general[(r / 4096) as int]);
            }
        }
        assert forall|g: int| 0 <= g < old_general.len() && pmm.general()[g] && !old_general[g]
            implies mem@.contains_key((g * 4096) as u64) && !old(mem)@.contains_key((g * 4096) as u64) by {
            assert(g == r / 4096);
        }
        lemma_new_table_shape(old(mem)@, old(mem).levels(), mem@, mem.levels(), table, index as int, r, child_level as nat, parent_flags.0);
    }
    r
}

/// Linking a fresh, clear table `r` from a non-present entry keeps the
/// tables layered and every address space's links distinct.
proof fn lemma_new_table_shape(m: Map<u64, Seq<u64>>, lv: Map<u64, nat>, m2: Map<u64, Seq<u64>>, lv2: Map<u64, nat>,
    table: u64, index: int, r: u64, l: nat, pf: u64)
    requires
        layered(m, lv),
        m.contains_key(table),
        !m.contains_key(r),
        0 <= index < 512,
        l == lv[table] + 1,
        l <= 3,
        pf & FLAG_HUGE == 0,
        r % 4096 == 0,
        r < 0x10_0000_0000_0000,
        !entry_present(m[table][index]),
        m2 == m.insert(r, Seq::new(512, |i: int| 0u64)).insert(table, m[table].update(index, entry_encode(r, pf | FLAG_PRESENT))),
        lv2 == lv.insert(r, l),
    ensures
        layered(m2, lv2),
        grows(m, lv, m2, lv2),
        changed_only_absent(m, m2),
        new_links_fresh(m, m2, lv2),
        forall|root: u64| links_distinct(m, lv, root) ==> #[trigger] links_distinct(m2, lv2, root),
        is_link(lv2[table], m2[table][index]),
{
    lemma_entry_roundtrip(r, pf | FLAG_PRESENT);
    lemma_leaf_flags(pf);
    crate::mm::paging::lemma_zero_entry();
    let ne = entry_encode(r, pf | FLAG_PRESENT);
    assert(entry_present(ne) && !entry_huge(ne) && entry_addr(ne) == r);
    assert(r != table);
    assert(lv2.dom() =~= m2.dom());
    assert forall|t: u64, i: int| #![trigger m2[t][i]]
        m2.contains_key(t) && 0 <= i < 512 && is_link(lv2[t], m2[t][i])
        implies m2.contains_key(entry_addr(m2[t][i])) && lv2[entry_addr(m2[t][i])] == lv2[t] + 1 by {
        if t == r {
            assert(m2[t][i] == 0);
        } else if t == table && i == index {
        } else {
            assert(m2[t][i] == m[t][i]);
            assert(is_link(lv[t], m[t][i]));
        }
    }
    assert forall|root: u64| links_distinct(m, lv, root) implies #[trigger] links_distinct(m2, lv2, root) by {
        assert forall|ta: u64, ia: int, tb: u64, ib: int| #![trigger m2[ta][ia], m2[tb][ib]]
            m2.contains_key(ta) && m2.contains_key(tb) && 0 <= ia < 512 && 0 <= ib < 512
            && in_space(lv2, root, ta) && in_space(lv2, root, tb)
            && is_link(lv2[ta], m2[ta][ia]) && is_link(lv2[tb], m2[tb][ib]) && (ta != tb || ia != ib)
            implies entry_addr(m2[ta][ia]) != entry_addr(m2[tb][ib]) by {
            if ta == r {
                assert(m2[ta][ia] == 0);
            } else if tb == r {
                assert(m2[tb][ib] == 0);
            } else if ta == table && ia == index {
                assert(m2[tb][ib] == m[tb][ib]);
                assert(is_link(lv[tb], m[tb][ib]));
            } else if tb == table && ib == index {
                assert(m2[ta][ia] == m[ta][ia]);
                assert(is_link(lv[ta], m[ta][ia]));
            } else {
                assert(m2[ta][ia] == m[ta][ia]);
                assert(m2[tb][ib] == m[tb][ib]);
                assert(is_link(lv[ta], m[ta][ia]));
                assert(is_link(lv[tb], m[tb][ib]));
            }
        }
    }
    assert forall|t: u64, i: int| #![trigger m2[t][i]]
        m2.contains_key(t) && 0 <= i < 512 && is_link(lv2[t], m2[t][i])
        && (!m.contains_key(t) || m2[t][i] != m[t][i])
        implies !m.contains_key(entry_addr(m2[t][i])) by {
        if t == r {
            assert(m2[t][i] == 0);
        }
    }
}

/// If every frame is used there are no free frames.
pub proof fn lemma_all_used_no_free(s: Seq<bool>)
    requires
        forall|f: int| 0 <= f < s.len() ==> s[f],
    ensures
        free_count(s) == 0,
    decreases s.len(),
{
    if s.len() > 0 {
        lemma_all_used_no_free(s.drop_last());
    }
}

/// Marking one free frame used removes exactly one free frame.
pub proof fn lemma_free_count_decrements(s: Seq<bool>, f: int)
    requires
        0 <= f < s.len(),
        !s[f],
    ensures
        free_count(s.update(f, true)) + 1 == free_count(s),
    decreases s.len(),
{
    if f == s.len() - 1 {
        assert(s.update(f, true).drop_last() =~= s.drop_last());
    } else {
        lemma_free_count_decrements(s.drop_last(), f);
        assert(s.update(f, true).drop_last() =~= s.drop_last().update(f, true));
    }
}

/// One virtual address space: the physical address of its PML4.
#[derive(Clone, Copy, PartialEq, Eq, Structural, Debug)]
pub struct AddressSpace {
    pub pml4: PhysAddr,
}

impl AddressSpace {
    /// The physical address of this address space's PML4.
    pub fn pml4(&self) -> (r: PhysAddr)
        ensures
            r == self.pml4,
    {
        self.pml4
    }

    /// PML4 entry `index`'s raw bits.
    pub fn pml4_entry_raw(&self, mem: &PhysMem, index: usize) -> (r: u64)
        requires
            mem.wf(),
            mem@.contains_key(self.pml4.0),
            index < 512,
        ensures
            r == mem@[self.pml4.0][index as int],
    {
        mem.read(self.pml4.as_u64(), index)
    }

    /// Resolves `virt` to `(physical address, leaf flags, page size)`, or
    /// `None` if it isn't mapped.
    pub fn translate(&self, mem: &PhysMem, virt: VirtAddr) -> (r: Option<(PhysAddr, PageFlags, PageSize)>)
        requires
            mem.wf(),
        ensures
            match walk(mem@, self.pml4.0, virt.0) {
                Some((p, f, s)) => r == Some((PhysAddr(p), PageFlags(f), s)),
                None => r.is_none(),
            },
    {
        proof {
            reveal(walk);
        }
        let root = self.pml4.as_u64();
        if !mem.contains(root) {
            return None;
        }
        let pdpt = match next_table(mem, PageTableEntry(mem.read(root, pml4_index(virt)))) {
            Some(a) => a.as_u64(),
            None => return None,
        };
        let pd = match next_table(mem, PageTableEntry(mem.read(pdpt, pdpt_index(virt)))) {
            Some(a) => a.as_u64(),
            None => return None,
        };
        let pd_entry = PageTableEntry(mem.read(pd, pd_index(virt)));
        if pd_entry.is_huge() {
            if !pd_entry.is_present() {
                return None;
            }
            let page_offset = virt.as_u64() & (HUGE_PAGE_SIZE - 1);
            proof {
                lemma_offset_mask(virt.0, pd_entry.0);
            }
            let phys = PhysAddr::new(pd_entry.addr().as_u64() + page_offset);
            return Some((phys, pd_entry.flags(), PageSize::Huge));
        }
        let pt = match next_table(mem, pd_entry) {
            Some(a) => a.as_u64(),
            None => return None,
        };
        let pt_entry = PageTableEntry(mem.read(pt, pt_index(virt)));
        if !pt_entry.is_present() {
            return None;
        }
        let page_offset = virt.as_u64() & 0xfff;
        proof {
            lemma_offset_mask(virt.0, pt_entry.0);
        }
        let phys = PhysAddr::new(pt_entry.addr().as_u64() + page_offset);
        Some((phys, pt_entry.flags(), PageSize::Normal))
    }
}

impl AddressSpace {
    /// Maps one 4 KiB page `virt -> phys`; `PRESENT` is added to `flags`.
    /// Creates whichever intermediate tables are missing (at most three
    /// frames from the PMM).
    pub fn map_4k(&self, mem: &mut PhysMem, pmm: &mut Pmm, virt: VirtAddr, phys: PhysAddr, flags: PageFlags)
        requires
            old(mem).wf(),
            old(pmm).wf(),
            owns_tables(old(pmm), old(mem)@),
            virt.0 % 4096 == 0,
            phys.0 % 4096 == 0,
            phys.0 < 0x10_0000_0000_0000,
            flags.0 & FLAG_HUGE != 0 ==> phys.0 % 0x20_0000 == 0,
            tree_ok(old(mem)@, old(mem).levels(), self.pml4.0),
            unmapped_4k(old(mem)@, self.pml4.0, virt.0),
            free_count(old(pmm).general()) >= 3,
        ensures
            final(mem).wf(),
            owns_tables(final(pmm), final(mem)@),
            pmm_grew_tables(old(pmm), final(pmm), old(mem)@, final(mem)@),
            free_count(final(pmm).general()) + 3 >= free_count(old(pmm).general()),
            mapped_one(old(mem)@, old(mem).levels(), final(mem)@, final(mem).levels(), self.pml4.0, virt.0),
            forall|r2: u64| links_distinct(old(mem)@, old(mem).levels(), r2)
                ==> #[trigger] links_distinct(final(mem)@, final(mem).levels(), r2),
            pd_entry(final(mem)@, self.pml4.0, virt.0) matches Some(e) && is_link(2, e),
            walk(final(mem)@, self.pml4.0, virt.0) == Some((phys.0, (flags.0 | FLAG_PRESENT) & FLAGS_MASK, PageSize::Normal)),
    {
        proof {
            reveal(walk);
            reveal(mapped_one);
        }
        let ghost m0 = mem@;
        let ghost lv0 = mem.levels();
        let ghost p0 = pmm.general();
        let root = self.pml4.as_u64();
        let v = virt.as_u64();
        let inter = intermediate_flags(flags);
        let i0 = pml4_index(virt);
        let i1 = pdpt_index(virt);
        let i2 = pd_index(virt);
        let i3 = pt_index(virt);

        proof {
            lemma_tree_path_ok(m0, lv0, root, v);
            lemma_walk_levels(m0, lv0, root, v);
        }
        let pdpt = next_table_or_create(mem, pmm, root, i0, 1, inter);
        let ghost m1 = mem@;
        let ghost lv1 = mem.levels();
        proof {
            assert(t1(m1, root, v) == Some(pdpt));
            crate::mm::paging::lemma_zero_entry();
            if !entry_present(m0[root][i0 as int]) {
                assert(m1[pdpt] == Seq::new(512, |i: int| 0u64));
                assert(!entry_present(m1[pdpt][i1 as int]));
            } else {
                assert(t1(m0, root, v) == Some(pdpt));
                assert(m1 == m0);
            }
            assert(entry_present(m1[pdpt][i1 as int]) ==> child(m1, m1[pdpt][i1 as int]).is_some());
        }
        let pd = next_table_or_create(mem, pmm, pdpt, i1, 2, inter);
        let ghost m2 = mem@;
        let ghost lv2 = mem.levels();
        proof {
            assert(t1(m2, root, v) == Some(pdpt));
            assert(t2(m2, root, v) == Some(pd));
            crate::mm::paging::lemma_zero_entry();
            if !entry_present(m1[pdpt][i1 as int]) {
                assert(m2[pd] == Seq::new(512, |i: int| 0u64));
                assert(!entry_present(m2[pd][i2 as int]));
            } else {
                assert(t1(m0, root, v) == Some(pdpt));
                assert(t2(m0, root, v) == Some(pd));
                assert(m2 == m0);
            }
            assert(pd != root && pd != pdpt);
            assert(entry_present(m2[pd][i2 as int]) ==> child(m2, m2[pd][i2 as int]).is_some());
        }
        let e2 = mem.read(pd, i2);
        proof {
            if entry_present(e2) {
                if entry_present(m1[pdpt][i1 as int]) {
                    assert(m2 == m0);
                    assert(pd_entry(m0, root, v) == Some(e2));
                } else {
                    assert(m2[pd] == Seq::new(512, |i: int| 0u64));
                    assert(false);
                }
            }
        }
        let pt = next_table_or_create(mem, pmm, pd, i2, 3, inter);
        let ghost m3 = mem@;
        let ghost lv3 = mem.levels();
        proof {
            assert(t1(m3, root, v) == Some(pdpt));
            assert(t2(m3, root, v) == Some(pd));
            assert(pd_entry(m3, root, v) == Some(m3[pd][i2 as int]));
            if entry_present(e2) {
                assert(m3 == m2);
                if entry_present(m1[pdpt][i1 as int]) {
                    assert(m2 == m0);
                    assert(pd_entry(m0, root, v) == Some(e2));
                } else {
                    assert(m2[pd] == Seq::new(512, |i: int| 0u64));
                    assert(false);
                }
            }
            assert(!entry_huge(m3[pd][i2 as int]));
            assert(t3(m3, root, v) == Some(pt));
            if !entry_present(e2) {
                assert(m3[pt] == Seq::new(512, |i: int| 0u64));
            } else {
                assert(m3 == m2);
                if entry_present(m1[pdpt][i1 as int]) {
                    assert(m2 == m0);
                    assert(pd_entry(m0, root, v) == Some(e2));
                    assert(t3(m0, root, v) == Some(pt));
                } else {
                    assert(m2[pd] == Seq::new(512, |i: int| 0u64));
                    assert(false);
                }
            }
            assert(pt != root && pt != pdpt && pt != pd);
            assert(!entry_present(m3[pt][i3 as int]));
            lemma_leaf_flags(flags.0);
        }
        let mut leaf = PageTableEntry(0);
        leaf.set(phys, flags.union(PageFlags(FLAG_PRESENT)));
        proof {
            lemma_entry_roundtrip(phys.0, flags.0 | FLAG_PRESENT);
        }
        mem.write(pt, i3, leaf.bits());
        proof {
            let m4 = mem@;
            assert(t1(m4, root, v) == Some(pdpt));
            assert(t2(m4, root, v) == Some(pd));
            assert(pd_entry(m4, root, v) == Some(m3[pd][i2 as int]));
            assert(t3(m4, root, v) == Some(pt));
            lemma_offset_mask(v, leaf.0);
            assert(v % 4096 == 0);
            assert forall|t: u64, i: int| m0.contains_key(t) && 0 <= i < 512 && !on_path(m4, root, v, t, i)
                implies #[trigger] m4[t][i] == m0[t][i] by {
            }
            assert forall|t: u64, i: int| !m0.contains_key(t) && m4.contains_key(t) && 0 <= i < 512 && !on_path(m4, root, v, t, i)
                implies #[trigger] m4[t][i] == 0 by {
            }
            lemma_entry_roundtrip(phys.0, flags.0 | FLAG_PRESENT);
            assert(m3[pt] == m3[pt]);
            lemma_leaf_write(m3, lv3, m4, pt, i3 as int, leaf.0);
            lemma_chain(m0, lv0, m1, lv1, m2, lv2);
            lemma_chain(m0, lv0, m2, lv2, m3, lv3);
            lemma_chain(m0, lv0, m3, lv3, m4, lv3);
            assert forall|r2: u64| links_distinct(m0, lv0, r2) implies #[trigger] links_distinct(m4, lv3, r2) by {
                assert(links_distinct(m1, lv1, r2));
                assert(links_distinct(m2, lv2, r2));
                assert(links_distinct(m3, lv3, r2));
            }
            assert(links_distinct(m4, lv3, root));
            assert(lv3[pd] == 2);
        }
    }
}

impl AddressSpace {
    /// Maps one 2 MiB huge page `virt -> phys`; `PRESENT | HUGE` is added
    /// to `flags`. Creates whichever intermediate tables are missing (at
    /// most two frames from the PMM).
    pub fn map_2m(&self, mem: &mut PhysMem, pmm: &mut Pmm, virt: VirtAddr, phys: PhysAddr, flags: PageFlags)
        requires
            old(mem).wf(),
            old(pmm).wf(),
            owns_tables(old(pmm), old(mem)@),
            virt.0 % 0x20_0000 == 0,
            phys.0 % 0x20_0000 == 0,
            phys.0 < 0x10_0000_0000_0000,
            tree_ok(old(mem)@, old(mem).levels(), self.pml4.0),
            unmapped_2m(old(mem)@, self.pml4.0, virt.0),
            free_count(old(pmm).general()) >= 2,
        ensures
            final(mem).wf(),
            owns_tables(final(pmm), final(mem)@),
            pmm_grew_tables(old(pmm), final(pmm), old(mem)@, final(mem)@),
            free_count(final(pmm).general()) + 2 >= free_count(old(pmm).general()),
            mapped_one(old(mem)@, old(mem).levels(), final(mem)@, final(mem).levels(), self.pml4.0, virt.0),
            forall|r2: u64| links_distinct(old(mem)@, old(mem).levels(), r2)
                ==> #[trigger] links_distinct(final(mem)@, final(mem).levels(), r2),
            walk(final(mem)@, self.pml4.0, virt.0) == Some((phys.0, (flags.0 | FLAG_PRESENT | FLAG_HUGE) & FLAGS_MASK, PageSize::Huge)),
    {
        proof {
            reveal(walk);
            reveal(mapped_one);
        }
        let ghost m0 = mem@;
        let ghost lv0 = mem.levels();
        let root = self.pml4.as_u64();
        let v = virt.as_u64();
        let inter = intermediate_flags(flags);
        let i0 = pml4_index(virt);
        let i1 = pdpt_index(virt);
        let i2 = pd_index(virt);

        proof {
            lemma_tree_path_ok(m0, lv0, root, v);
            lemma_walk_levels(m0, lv0, root, v);
        }
        let pdpt = next_table_or_create(mem, pmm, root, i0, 1, inter);
        let ghost m1 = mem@;
        let ghost lv1 = mem.levels();
        proof {
            assert(t1(m1, root, v) == Some(pdpt));
            crate::mm::paging::lemma_zero_entry();
            if !entry_present(m0[root][i0 as int]) {
                assert(m1[pdpt] == Seq::new(512, |i: int| 0u64));
                assert(!entry_present(m1[pdpt][i1 as int]));
            } else {
                assert(t1(m0, root, v) == Some(pdpt));
                assert(m1 == m0);
            }
            assert(entry_present(m1[pdpt][i1 as int]) ==> child(m1, m1[pdpt][i1 as int]).is_some());
        }
        let pd = next_table_or_create(mem, pmm, pdpt, i1, 2, inter);
        let ghost m2 = mem@;
        let ghost lv2 = mem.levels();
        proof {
            assert(t1(m2, root, v) == Some(pdpt));
            assert(t2(m2, root, v) == Some(pd));
            crate::mm::paging::lemma_zero_entry();
            if !entry_present(m1[pdpt][i1 as int]) {
                assert(m2[pd] == Seq::new(512, |i: int| 0u64));
                assert(!entry_present(m2[pd][i2 as int]));
            } else {
                assert(t1(m0, root, v) == Some(pdpt));
                assert(t2(m0, root, v) == Some(pd));
                assert(m2 == m0);
                assert(pd_entry(m0, root, v) == Some(m2[pd][i2 as int]));
            }
            assert(pd != root && pd != pdpt);
            assert(!entry_present(m2[pd][i2 as int]));
            lemma_leaf_flags(flags.0);
            let f = flags.0;
            assert((f | 1u64 | 0x80u64) & 0x80u64 != 0 && (f | 1u64 | 0x80u64) & 1u64 != 0) by (bit_vector);
        }
        let mut leaf = PageTableEntry(0);
        leaf.set(phys, flags.union(PageFlags(FLAG_PRESENT)).union(PageFlags(FLAG_HUGE)));
        proof {
            assert(phys.0 % 4096 == 0) by (nonlinear_arith) requires phys.0 % 0x20_0000 == 0;
            lemma_entry_roundtrip(phys.0, flags.0 | FLAG_PRESENT | FLAG_HUGE);
        }
        mem.write(pd, i2, leaf.bits());
        proof {
            let m4 = mem@;
            assert(t1(m4, root, v) == Some(pdpt));
            assert(t2(m4, root, v) == Some(pd));
            assert(pd_entry(m4, root, v) == Some(leaf.0));
            lemma_offset_mask(v, leaf.0);
            assert(v % 0x20_0000 == 0);
            assert forall|t: u64, i: int| m0.contains_key(t) && 0 <= i < 512 && !on_path(m4, root, v, t, i)
                implies #[trigger] m4[t][i] == m0[t][i] by {
            }
            assert forall|t: u64, i: int| !m0.contains_key(t) && m4.contains_key(t) && 0 <= i < 512 && !on_path(m4, root, v, t, i)
                implies #[trigger] m4[t][i] == 0 by {
            }
            assert(lv2[pd] == 2);
            assert(!is_link(2, leaf.0));
            lemma_leaf_write(m2, lv2, m4, pd, i2 as int, leaf.0);
            lemma_chain(m0, lv0, m1, lv1, m2, lv2);
            lemma_chain(m0, lv0, m2, lv2, m4, lv2);
            assert forall|r2: u64| links_distinct(m0, lv0, r2) implies #[trigger] links_distinct(m4, lv2, r2) by {
                assert(links_distinct(m1, lv1, r2));
                assert(links_distinct(m2, lv2, r2));
            }
            assert(links_distinct(m4, lv2, root));
        }
    }

    /// Removes the mapping for `virt`'s page (4 KiB, or the 2 MiB page
    /// `virt` falls inside), returning the physical address it mapped to
    /// (the page's base), or `None` if it wasn't mapped. Frees nothing.
    pub fn unmap(&self, mem: &mut PhysMem, virt: VirtAddr) -> (r: Option<PhysAddr>)
        requires
            old(mem).wf(),
            virt.0 % 4096 == 0,
        ensures
            final(mem).wf(),
            match walk(old(mem)@, self.pml4.0, virt.0) {
                None => r.is_none() && final(mem)@ == old(mem)@,
                Some((p, f, PageSize::Normal)) => {
                    &&& r == Some(PhysAddr(p))
                    &&& final(mem)@ == old(mem)@.insert(t3(old(mem)@, self.pml4.0, virt.0).unwrap(),
                        old(mem)@[t3(old(mem)@, self.pml4.0, virt.0).unwrap()].update(va_index(virt.0, 3), 0u64))
                },
                Some((p, f, PageSize::Huge)) => {
                    &&& r == Some(PhysAddr((p - virt.0 % 0x20_0000) as u64))
                    &&& final(mem)@ == old(mem)@.insert(t2(old(mem)@, self.pml4.0, virt.0).unwrap(),
                        old(mem)@[t2(old(mem)@, self.pml4.0, virt.0).unwrap()].update(va_index(virt.0, 2), 0u64))
                },
            },
            path_ok(old(mem)@, self.pml4.0, virt.0) ==> walk(final(mem)@, self.pml4.0, virt.0).is_none(),
            final(mem).levels() == old(mem).levels(),
    {
        proof {
            reveal(walk);
        }
        let ghost m0 = mem@;
        let root = self.pml4.as_u64();
        let v = virt.as_u64();
        if !mem.contains(root) {
            return None;
        }
        let pdpt = match next_table(mem, PageTableEntry(mem.read(root, pml4_index(virt)))) {
            Some(a) => a.as_u64(),
            None => return None,
        };
        let pd = match next_table(mem, PageTableEntry(mem.read(pdpt, pdpt_index(virt)))) {
            Some(a) => a.as_u64(),
            None => return None,
        };
        let i2 = pd_index(virt);
        let pde = PageTableEntry(mem.read(pd, i2));
        if pde.is_huge() {
            if !pde.is_present() {
                return None;
            }
            let phys = pde.addr();
            mem.write(pd, i2, 0);
            proof {
                lemma_offset_mask(v, pde.0);
                crate::mm::paging::lemma_zero_entry();
                let m1 = mem@;
                if path_ok(m0, root, v) {
                    assert(t1(m1, root, v) == Some(pdpt));
                    assert(t2(m1, root, v) == Some(pd));
                    assert(pd_entry(m1, root, v) == Some(0u64));
                }
            }
            return Some(phys);
        }
        let pt = match next_table(mem, pde) {
            Some(a) => a.as_u64(),
            None => return None,
        };
        let i3 = pt_index(virt);
        let pt_entry = PageTableEntry(mem.read(pt, i3));
        if !pt_entry.is_present() {
            return None;
        }
        let phys = pt_entry.addr();
        mem.write(pt, i3, 0);
        proof {
            lemma_offset_mask(v, pt_entry.0);
            crate::mm::paging::lemma_zero_entry();
            let m1 = mem@;
            if path_ok(m0, root, v) {
                assert(t1(m1, root, v) == Some(pdpt));
                assert(t2(m1, root, v) == Some(pd));
                assert(pd_entry(m1, root, v) == Some(pde.0));
                assert(t3(m1, root, v) == Some(pt));
            }
        }
        Some(phys)
    }
}

/// The leaf flags `map_4k` writes keep the present bit and their own
/// flag bits.
proof fn lemma_leaf_flags(f: u64)
    ensures
        (f | 1u64) & 1u64 != 0,
        ((f | 1u64) & 0x80u64 != 0) == (f & 0x80u64 != 0),
{
    assert((f | 1u64) & 1u64 != 0 && ((f | 1u64) & 0x80u64 != 0) == (f & 0x80u64 != 0)) by (bit_vector);
}

/// Page offsets by masking, and entry addresses stay below 2^52.
proof fn lemma_offset_mask(v: u64, e: u64)
    ensures
        v & 0x1f_ffff == v % 0x20_0000,
        v & 0xfff == v % 4096,
        e & PHYS_ADDR_MASK < 0x10_0000_0000_0000,
        (e & PHYS_ADDR_MASK) + 0x20_0000 <= u64::MAX,
{
    assert(v & 0x1f_ffff == v % 0x20_0000 && v & 0xfff == v % 4096
        && e & 0x000f_ffff_ffff_f000 < 0x10_0000_0000_0000) by (bit_vector);
}

/// Unmapping a page that `map_4k` just mapped hands back the frame it was
/// mapped to and leaves the page unmapped.
pub proof fn law_map_then_unmap(
    m2: Map<u64, Seq<u64>>, lv2: Map<u64, nat>, root: u64, v: u64, phys: u64, flags: u64,
    m3: Map<u64, Seq<u64>>, r: Option<PhysAddr>,
)
    requires
        tree_ok(m2, lv2, root),
        walk(m2, root, v) == Some((phys, flags, PageSize::Normal)),
        walk(m2, root, v) matches Some((p, f, PageSize::Normal)) ==> r == Some(PhysAddr(p)),
        path_ok(m2, root, v) ==> walk(m3, root, v).is_none(),
    ensures
        r == Some(PhysAddr(phys)),
        walk(m3, root, v).is_none(),
{
    lemma_tree_path_ok(m2, lv2, root, v);
}

} // verus!
