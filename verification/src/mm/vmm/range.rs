//! Mapping a whole physically contiguous range: 2 MiB pages wherever both
//! sides are aligned and enough of the range remains, 4 KiB pages for the
//! rest.
use vstd::prelude::*;
use super::{PhysMem, AddressSpace, PageSize, HUGE_PAGE_SIZE, walk, pd_entry, owns_tables, pmm_grew_tables};
use super::tree::{tree_ok, layered, grows, links_distinct, unmapped_4k, unmapped_2m, mapped_one, other_page,
    other_block, is_link, lemma_frame, lemma_mapped_one_facts};
use crate::mm::addr::{PhysAddr, VirtAddr};
use crate::mm::paging::{PageFlags, va_index, lemma_va_shift, entry_present, entry_huge, entry_addr, FLAGS_MASK, FLAG_PRESENT, FLAG_HUGE};
use crate::mm::pmm::Pmm;
use crate::mm::bitmap::free_count;

verus! {

/// The start of the 2 MiB block `x` lies in.
pub open spec fn block_start(x: int) -> int {
    x - x % 0x20_0000
}

/// Whether `map_range(virt, phys, len, ..)` maps the page at offset `o`
/// as part of a 2 MiB page: `virt` and `phys` are congruent modulo 2 MiB
/// and the 2 MiB block holding `virt + o` lies wholly inside the range.
pub open spec fn huge_at(virt: u64, phys: u64, len: u64, o: int) -> bool {
    &&& virt % 0x20_0000 == phys % 0x20_0000
    &&& block_start(virt + o) >= virt
    &&& block_start(virt + o) + 0x20_0000 <= virt + len
}

/// The page at offset `o` can be mapped the way `map_range` maps it
/// (a 4 KiB leaf carrying `HUGE` needs a 2 MiB-aligned frame).
pub open spec fn slot_free(m: Map<u64, Seq<u64>>, root: u64, virt: u64, phys: u64, len: u64, flags: u64, o: int) -> bool {
    if huge_at(virt, phys, len, o) {
        unmapped_2m(m, root, (virt + o) as u64)
    } else {
        &&& unmapped_4k(m, root, (virt + o) as u64)
        &&& flags & FLAG_HUGE != 0 ==> (phys + o) % 0x20_0000 == 0
    }
}

/// Every page of the range can be mapped the way `map_range` maps it.
pub open spec fn range_free(m: Map<u64, Seq<u64>>, root: u64, virt: u64, phys: u64, len: u64, flags: u64) -> bool {
    forall|o: int| 0 <= o < len && o % 4096 == 0 ==> #[trigger] slot_free(m, root, virt, phys, len, flags, o)
}

/// The page at offset `o` translates to `phys + o`, with the leaf flags
/// and page size `map_range` gives it.
pub open spec fn maps_at(m: Map<u64, Seq<u64>>, root: u64, virt: u64, phys: u64, len: u64, flags: u64, o: int) -> bool {
    walk(m, root, (virt + o) as u64) == if huge_at(virt, phys, len, o) {
        Some(((phys + o) as u64, (flags | FLAG_PRESENT | FLAG_HUGE) & FLAGS_MASK, PageSize::Huge))
    } else {
        Some(((phys + o) as u64, (flags | FLAG_PRESENT) & FLAGS_MASK, PageSize::Normal))
    }
}

/// `v` lies in no page of `[virt, virt + len)`.
pub open spec fn off_range(v: u64, virt: u64, len: u64) -> bool {
    forall|o: int| 0 <= o < len ==> #[trigger] other_page(v, (virt + o) as u64)
}

/// Two distinct pages less than 2^48 bytes apart are different pages to
/// the walk.
pub proof fn lemma_pages_differ(a: u64, b: u64)
    requires
        a % 4096 == 0,
        b % 4096 == 0,
        a < b,
        b - a < 0x1_0000_0000_0000,
    ensures
        other_page(a, b),
        other_page(b, a),
{
    lemma_va_shift(a);
    lemma_va_shift(b);
    assert((a & 0xfff == a % 4096 && b & 0xfff == b % 4096) && ((a & 0xfff == 0 && b & 0xfff == 0 && a < b && b - a < 0x1_0000_0000_0000) ==> (
        (a >> 39u64) & 0x1ff != (b >> 39u64) & 0x1ff || (a >> 30u64) & 0x1ff != (b >> 30u64) & 0x1ff
        || (a >> 21u64) & 0x1ff != (b >> 21u64) & 0x1ff || (a >> 12u64) & 0x1ff != (b >> 12u64) & 0x1ff))) by (bit_vector);
}

/// An address below a 2 MiB-aligned `b`, less than 2^47 bytes below it,
/// is in another block.
proof fn lemma_blocks_differ(a: u64, b: u64)
    requires
        b % 0x20_0000 == 0,
        a < b,
        b - a < 0x8000_0000_0000,
    ensures
        other_block(a, b),
        other_block(b, a),
{
    lemma_va_shift(a);
    lemma_va_shift(b);
    assert((b & 0x1f_ffff == b % 0x20_0000) && ((b & 0x1f_ffff == 0 && a < b && b - a < 0x8000_0000_0000) ==> (
        (a >> 39u64) & 0x1ff != (b >> 39u64) & 0x1ff || (a >> 30u64) & 0x1ff != (b >> 30u64) & 0x1ff
        || (a >> 21u64) & 0x1ff != (b >> 21u64) & 0x1ff))) by (bit_vector);
}

/// An address at least one block above a 2 MiB-aligned `a`, less than
/// 2^47 bytes above it, is in another block.
proof fn lemma_blocks_differ_up(a: u64, b: u64)
    requires
        a % 0x20_0000 == 0,
        a + 0x20_0000 <= b,
        b - a < 0x1_0000_0000_0000,
    ensures
        other_block(a, b),
        other_block(b, a),
{
    lemma_va_shift(a);
    lemma_va_shift(b);
    assert((a & 0x1f_ffff == a % 0x20_0000) && ((a & 0x1f_ffff == 0 && a + 0x20_0000 <= b && b - a < 0x1_0000_0000_0000) ==> (
        (a >> 39u64) & 0x1ff != (b >> 39u64) & 0x1ff || (a >> 30u64) & 0x1ff != (b >> 30u64) & 0x1ff
        || (a >> 21u64) & 0x1ff != (b >> 21u64) & 0x1ff))) by (bit_vector);
}

/// Page `k` of the block starting at `b`.
proof fn lemma_page_in_block(b: u64, k: u64, x: u64)
    requires
        b % 0x20_0000 == 0,
        k < 512,
        x == b + k * 4096,
    ensures
        va_index(x, 0) == va_index(b, 0),
        va_index(x, 1) == va_index(b, 1),
        va_index(x, 2) == va_index(b, 2),
        va_index(x, 3) == k,
{
    lemma_va_shift(x);
    lemma_va_shift(b);
    assert((b & 0x1f_ffff == b % 0x20_0000) && ((b & 0x1f_ffff == 0 && k < 512 && x == b + k * 4096) ==> (
        (x >> 39u64) & 0x1ff == (b >> 39u64) & 0x1ff && (x >> 30u64) & 0x1ff == (b >> 30u64) & 0x1ff
        && (x >> 21u64) & 0x1ff == (b >> 21u64) & 0x1ff && (x >> 12u64) & 0x1ff == k))) by (bit_vector);
}

/// An address inside the 2 MiB block starting at `b` shares its walk down
/// to the PD entry.
proof fn lemma_same_block(b: u64, x: u64)
    requires
        b % 0x20_0000 == 0,
        b <= x,
        x - b < 0x20_0000,
    ensures
        va_index(x, 0) == va_index(b, 0),
        va_index(x, 1) == va_index(b, 1),
        va_index(x, 2) == va_index(b, 2),
        x % 0x20_0000 == x - b,
{
    lemma_va_shift(x);
    lemma_va_shift(b);
    assert((b & 0x1f_ffff == b % 0x20_0000) && ((b & 0x1f_ffff == 0 && b <= x && x - b < 0x20_0000) ==> (
        (x >> 39u64) & 0x1ff == (b >> 39u64) & 0x1ff && (x >> 30u64) & 0x1ff == (b >> 30u64) & 0x1ff
        && (x >> 21u64) & 0x1ff == (b >> 21u64) & 0x1ff))) by (bit_vector);
}

/// A 2 MiB leaf at `b`'s PD entry translates every address of its block.
proof fn lemma_walk_in_block(m: Map<u64, Seq<u64>>, root: u64, b: u64, x: u64, p: u64, f: u64)
    requires
        b % 0x20_0000 == 0,
        b <= x,
        x - b < 0x20_0000,
        walk(m, root, b) == Some((p, f, PageSize::Huge)),
    ensures
        walk(m, root, x) == Some(((p + (x - b)) as u64, f, PageSize::Huge)),
{
    reveal(walk);
    lemma_same_block(b, x);
    assert(pd_entry(m, root, x) == pd_entry(m, root, b));
}

/// Composing two PMM steps that each only allocated page tables.
pub proof fn lemma_grew_chain(p0: &Pmm, p1: &Pmm, p2: &Pmm, m0: Map<u64, Seq<u64>>, m1: Map<u64, Seq<u64>>, m2: Map<u64, Seq<u64>>)
    requires
        pmm_grew_tables(p0, p1, m0, m1),
        pmm_grew_tables(p1, p2, m1, m2),
        forall|t: u64| #[trigger] m1.contains_key(t) ==> m2.contains_key(t),
        forall|t: u64| #[trigger] m0.contains_key(t) ==> m1.contains_key(t),
    ensures
        pmm_grew_tables(p0, p2, m0, m2),
{
    assert forall|f: int| 0 <= f < p0.general().len() && p2.general()[f] && !p0.general()[f]
        implies m2.contains_key((f * 4096) as u64) && !m0.contains_key((f * 4096) as u64) by {
        if p1.general()[f] {
        } else {
        }
    }
}

/// The bounds `map_range` works within.
pub open spec fn range_ok(virt: u64, phys: u64, len: u64) -> bool {
    &&& virt % 4096 == 0
    &&& phys % 4096 == 0
    &&& len % 4096 == 0
    &&& len <= 0x8000_0000_0000
    &&& virt + len <= 0x1_0000_0000_0000_0000
    &&& phys + len <= 0x10_0000_0000_0000
}

/// A different page of the range is a different page to the walk.
pub proof fn lemma_range_pages(virt: u64, len: u64, o1: int, o2: int)
    requires
        virt % 4096 == 0,
        len <= 0x8000_0000_0000,
        virt + len <= 0x1_0000_0000_0000_0000,
        0 <= o1 < len,
        0 <= o2 < len,
        o1 % 4096 == 0,
        o2 % 4096 == 0,
        o1 != o2,
    ensures
        other_page((virt + o1) as u64, (virt + o2) as u64),
{
    if o1 < o2 {
        lemma_pages_differ((virt + o1) as u64, (virt + o2) as u64);
    } else {
        lemma_pages_differ((virt + o2) as u64, (virt + o1) as u64);
    }
}

/// If `v` is in another block than the block of the range starting at
/// offset `d`, and that block is wholly inside the range, then `v` is off
/// the range only if it is in another block.
proof fn lemma_off_range_block(v: u64, virt: u64, len: u64, d: int)
    requires
        off_range(v, virt, len),
        (virt + d) % 0x20_0000 == 0,
        0 <= d,
        d + 0x20_0000 <= len,
        virt + len <= 0x1_0000_0000_0000_0000,
    ensures
        other_block(v, (virt + d) as u64),
{
    let b = (virt + d) as u64;
    if !other_block(v, b) {
        let k = va_index(v, 3);
        assert(0 <= k < 512);
        let x = (b + k * 4096) as u64;
        lemma_page_in_block(b, k as u64, x);
        assert(other_page(v, (virt + (d + k * 4096)) as u64));
        assert(false);
    }
}

/// Whether a page is mapped huge depends only on its block.
proof fn lemma_huge_same_block(virt: u64, phys: u64, len: u64, o1: int, o2: int)
    requires
        block_start(virt + o1) == block_start(virt + o2),
    ensures
        huge_at(virt, phys, len, o1) == huge_at(virt, phys, len, o2),
{
}

/// After mapping the 2 MiB block at offset `done`.
#[verifier::rlimit(100)]
#[verifier::spinoff_prover]
proof fn lemma_step_2m(
    m0: Map<u64, Seq<u64>>, mk: Map<u64, Seq<u64>>, lvk: Map<u64, nat>, m2: Map<u64, Seq<u64>>, lv2: Map<u64, nat>,
    root: u64, virt: u64, phys: u64, len: u64, flags: u64, done: u64,
)
    requires
        range_ok(virt, phys, len),
        done % 4096 == 0,
        done + 0x20_0000 <= len,
        (virt + done) % 0x20_0000 == 0,
        (phys + done) % 0x20_0000 == 0,
        mapped_one(mk, lvk, m2, lv2, root, (virt + done) as u64),
        walk(m2, root, (virt + done) as u64)
            == Some(((phys + done) as u64, (flags | FLAG_PRESENT | FLAG_HUGE) & FLAGS_MASK, PageSize::Huge)),
        forall|o: int| 0 <= o < done && o % 4096 == 0 ==> #[trigger] maps_at(mk, root, virt, phys, len, flags, o),
        forall|o: int| done <= o < len && o % 4096 == 0 ==> #[trigger] slot_free(mk, root, virt, phys, len, flags, o),
        forall|v: u64| #[trigger] off_range(v, virt, len) ==> walk(mk, root, v) == walk(m0, root, v),
    ensures
        forall|o: int| 0 <= o < done + 0x20_0000 && o % 4096 == 0 ==> #[trigger] maps_at(m2, root, virt, phys, len, flags, o),
        forall|o: int| done + 0x20_0000 <= o < len && o % 4096 == 0 ==> #[trigger] slot_free(m2, root, virt, phys, len, flags, o),
        forall|v: u64| #[trigger] off_range(v, virt, len) ==> walk(m2, root, v) == walk(m0, root, v),
{
    let w = (virt + done) as u64;
    let p = (phys + done) as u64;
    let f = (flags | FLAG_PRESENT | FLAG_HUGE) & FLAGS_MASK;
    assert(virt % 0x20_0000 == phys % 0x20_0000);
    assert forall|o: int| 0 <= o < done + 0x20_0000 && o % 4096 == 0
        implies #[trigger] maps_at(m2, root, virt, phys, len, flags, o) by {
        let x = (virt + o) as u64;
        if o < done {
            assert(maps_at(mk, root, virt, phys, len, flags, o));
            lemma_pages_differ(x, w);
            lemma_blocks_differ(x, w);
            lemma_frame(mk, lvk, m2, lv2, root, w, x);
        } else {
            lemma_walk_in_block(m2, root, w, x, p, f);
            lemma_same_block(w, x);
            assert(block_start(virt + o) == w);
            assert(huge_at(virt, phys, len, o));
        }
    }
    assert forall|o: int| done + 0x20_0000 <= o < len && o % 4096 == 0
        implies #[trigger] slot_free(m2, root, virt, phys, len, flags, o) by {
        let x = (virt + o) as u64;
        assert(slot_free(mk, root, virt, phys, len, flags, o));
        lemma_pages_differ(w, x);
        lemma_blocks_differ_up(w, x);
        lemma_frame(mk, lvk, m2, lv2, root, w, x);
    }
    assert forall|v: u64| #[trigger] off_range(v, virt, len) implies walk(m2, root, v) == walk(m0, root, v) by {
        assert(other_page(v, (virt + done) as u64));
        lemma_off_range_block(v, virt, len, done as int);
        lemma_frame(mk, lvk, m2, lv2, root, w, v);
    }
}

/// After mapping the 4 KiB page at offset `done`.
#[verifier::rlimit(100)]
#[verifier::spinoff_prover]
proof fn lemma_step_4k(
    m0: Map<u64, Seq<u64>>, mk: Map<u64, Seq<u64>>, lvk: Map<u64, nat>, m2: Map<u64, Seq<u64>>, lv2: Map<u64, nat>,
    root: u64, virt: u64, phys: u64, len: u64, flags: u64, done: u64,
)
    requires
        range_ok(virt, phys, len),
        done % 4096 == 0,
        done + 4096 <= len,
        !huge_at(virt, phys, len, done as int),
        mapped_one(mk, lvk, m2, lv2, root, (virt + done) as u64),
        pd_entry(m2, root, (virt + done) as u64) matches Some(e) && is_link(2, e),
        walk(m2, root, (virt + done) as u64)
            == Some(((phys + done) as u64, (flags | FLAG_PRESENT) & FLAGS_MASK, PageSize::Normal)),
        forall|o: int| 0 <= o < done && o % 4096 == 0 ==> #[trigger] maps_at(mk, root, virt, phys, len, flags, o),
        forall|o: int| done <= o < len && o % 4096 == 0 ==> #[trigger] slot_free(mk, root, virt, phys, len, flags, o),
        forall|v: u64| #[trigger] off_range(v, virt, len) ==> walk(mk, root, v) == walk(m0, root, v),
    ensures
        forall|o: int| 0 <= o < done + 4096 && o % 4096 == 0 ==> #[trigger] maps_at(m2, root, virt, phys, len, flags, o),
        forall|o: int| done + 4096 <= o < len && o % 4096 == 0 ==> #[trigger] slot_free(m2, root, virt, phys, len, flags, o),
        forall|v: u64| #[trigger] off_range(v, virt, len) ==> walk(m2, root, v) == walk(m0, root, v),
{
    let w = (virt + done) as u64;
    assert forall|o: int| 0 <= o < done + 4096 && o % 4096 == 0
        implies #[trigger] maps_at(m2, root, virt, phys, len, flags, o) by {
        if o < done {
            let x = (virt + o) as u64;
            assert(maps_at(mk, root, virt, phys, len, flags, o));
            lemma_range_pages(virt, len, o, done as int);
            lemma_frame(mk, lvk, m2, lv2, root, w, x);
        } else {
            assert(o == done);
        }
    }
    assert forall|o: int| done + 4096 <= o < len && o % 4096 == 0
        implies #[trigger] slot_free(m2, root, virt, phys, len, flags, o) by {
        let x = (virt + o) as u64;
        assert(slot_free(mk, root, virt, phys, len, flags, o));
        lemma_range_pages(virt, len, done as int, o);
        if block_start(virt + o) == block_start(virt + done) {
            lemma_huge_same_block(virt, phys, len, o, done as int);
        } else {
            let bs = block_start(virt + done) as u64;
            lemma_same_block(bs, w);
            lemma_blocks_differ_up(bs, x);
        }
        lemma_frame(mk, lvk, m2, lv2, root, w, x);
    }
    assert forall|v: u64| #[trigger] off_range(v, virt, len) implies walk(m2, root, v) == walk(m0, root, v) by {
        assert(other_page(v, (virt + done) as u64));
        lemma_frame(mk, lvk, m2, lv2, root, w, v);
    }
}

impl AddressSpace {
    /// Maps `[virt, virt + len)` to `[phys, phys + len)`, using a 2 MiB
    /// page for every 2 MiB block of the range that both sides are aligned
    /// on and that lies wholly inside it, and 4 KiB pages for the rest.
    /// Every other address keeps its translation.
    #[verifier::spinoff_prover]
    #[verifier::rlimit(60)]
    pub fn map_range(&self, mem: &mut PhysMem, pmm: &mut Pmm, virt: VirtAddr, phys: PhysAddr, len: u64, flags: PageFlags)
        requires
            old(mem).wf(),
            old(pmm).wf(),
            owns_tables(old(pmm), old(mem)@),
            tree_ok(old(mem)@, old(mem).levels(), self.pml4.0),
            range_ok(virt.0, phys.0, len),
            len > 0,
            range_free(old(mem)@, self.pml4.0, virt.0, phys.0, len, flags.0),
            free_count(old(pmm).general()) >= 3 * (len / 4096),
        ensures
            final(mem).wf(),
            owns_tables(final(pmm), final(mem)@),
            pmm_grew_tables(old(pmm), final(pmm), old(mem)@, final(mem)@),
            tree_ok(final(mem)@, final(mem).levels(), self.pml4.0),
            grows(old(mem)@, old(mem).levels(), final(mem)@, final(mem).levels()),
            forall|r2: u64| links_distinct(old(mem)@, old(mem).levels(), r2)
                ==> #[trigger] links_distinct(final(mem)@, final(mem).levels(), r2),
            forall|o: int| 0 <= o < len && o % 4096 == 0
                ==> #[trigger] maps_at(final(mem)@, self.pml4.0, virt.0, phys.0, len, flags.0, o),
            forall|v: u64| #[trigger] off_range(v, virt.0, len)
                ==> walk(final(mem)@, self.pml4.0, v) == walk(old(mem)@, self.pml4.0, v),
    {
        let ghost m0 = mem@;
        let ghost lv0 = mem.levels();
        let root = self.pml4.as_u64();
        let mut done: u64 = 0;
        proof {
            assert(pmm_grew_tables(old(pmm), pmm, m0, mem@));
        }
        while done < len
            invariant
                range_ok(virt.0, phys.0, len),
                root == self.pml4.0,
                done <= len,
                done % 4096 == 0,
                mem.wf(),
                pmm.wf(),
                owns_tables(pmm, mem@),
                tree_ok(mem@, mem.levels(), root),
                grows(m0, lv0, mem@, mem.levels()),
                forall|r2: u64| links_distinct(m0, lv0, r2) ==> #[trigger] links_distinct(mem@, mem.levels(), r2),
                pmm_grew_tables(old(pmm), pmm, m0, mem@),
                free_count(pmm.general()) >= 3 * ((len - done) / 4096),
                forall|o: int| 0 <= o < done && o % 4096 == 0
                    ==> #[trigger] maps_at(mem@, root, virt.0, phys.0, len, flags.0, o),
                forall|o: int| done <= o < len && o % 4096 == 0
                    ==> #[trigger] slot_free(mem@, root, virt.0, phys.0, len, flags.0, o),
                forall|v: u64| #[trigger] off_range(v, virt.0, len) ==> walk(mem@, root, v) == walk(m0, root, v),
                (virt.0 + done) % 0x20_0000 != 0 && virt.0 % 0x20_0000 == phys.0 % 0x20_0000
                    ==> block_start(virt.0 + done) < virt.0 || block_start(virt.0 + done) + 0x20_0000 > virt.0 + len,
            decreases len - done,
        {
            let v = virt.as_u64() + done;
            let p = phys.as_u64() + done;
            let remaining = len - done;
            let ghost mk = mem@;
            let ghost lvk = mem.levels();
            let ghost pk = *pmm;
            proof {
                assert(slot_free(mk, root, virt.0, phys.0, len, flags.0, done as int));
            }
            if v % HUGE_PAGE_SIZE == 0 && p % HUGE_PAGE_SIZE == 0 && remaining >= HUGE_PAGE_SIZE {
                proof {
                    assert(block_start(virt.0 + done) == v);
                    assert(huge_at(virt.0, phys.0, len, done as int));
                    assert((len - done) / 4096 >= 512);
                }
                self.map_2m(mem, pmm, VirtAddr::new(v), PhysAddr::new(p), flags);
                proof {
                    lemma_mapped_one_facts(mk, lvk, mem@, mem.levels(), root, v);
                    lemma_step_2m(m0, mk, lvk, mem@, mem.levels(), root, virt.0, phys.0, len, flags.0, done);
                    lemma_grew_chain(old(pmm), &pk, pmm, m0, mk, mem@);
                    assert forall|r2: u64| links_distinct(m0, lv0, r2) implies #[trigger] links_distinct(mem@, mem.levels(), r2) by {
                        assert(links_distinct(mk, lvk, r2));
                    }
                    assert((len - (done + 0x20_0000)) / 4096 == (len - done) / 4096 - 512);
                }
                done = done + HUGE_PAGE_SIZE;
            } else {
                proof {
                    if (virt.0 + done) % 0x20_0000 == 0 && virt.0 % 0x20_0000 == phys.0 % 0x20_0000 {
                        assert(p % 0x20_0000 == 0);
                        assert(remaining < 0x20_0000);
                        assert(block_start(virt.0 + done) == v);
                    }
                    assert(!huge_at(virt.0, phys.0, len, done as int));
                    assert((len - done) / 4096 >= 1);
                }
                self.map_4k(mem, pmm, VirtAddr::new(v), PhysAddr::new(p), flags);
                proof {
                    lemma_mapped_one_facts(mk, lvk, mem@, mem.levels(), root, v);
                    lemma_step_4k(m0, mk, lvk, mem@, mem.levels(), root, virt.0, phys.0, len, flags.0, done);
                    lemma_grew_chain(old(pmm), &pk, pmm, m0, mk, mem@);
                    assert forall|r2: u64| links_distinct(m0, lv0, r2) implies #[trigger] links_distinct(mem@, mem.levels(), r2) by {
                        assert(links_distinct(mk, lvk, r2));
                    }
                    assert((len - (done + 4096)) / 4096 == (len - done) / 4096 - 1);
                    if (v + 4096) % 0x20_0000 != 0 && virt.0 % 0x20_0000 == phys.0 % 0x20_0000 {
                        if v % 0x20_0000 != 0 {
                            assert(block_start(v + 4096) == block_start(v as int));
                        } else {
                            assert(block_start(v + 4096) == v);
                        }
                    }
                }
                done = done + 4096;
            }
        }
    }
}

} // verus!
