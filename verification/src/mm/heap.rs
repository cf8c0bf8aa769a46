//! The kernel heap: small requests (size and alignment both at most 2048)
//! from size-class slabs, large ones (up to 4096-byte alignment) straight
//! from contiguous PMM frames, plus the running statistics.
use vstd::prelude::*;
use crate::mm::hhdm::Hhdm;
use crate::mm::pmm::{Pmm, frame_of, freeable, free_frames_usable, set_range, set_range_above};
use crate::mm::bitmap::free_count;

pub mod slab;
pub mod large;

use slab::{ClassState, NUM_CLASSES, MAX_SLAB_SIZE, class_index_for, class_size, class_size_spec, alloc_object, free_object,
    first_with_free, live_slot, obj_addr, capacity, area_offset, AllocOutcome, slab_alloc_done, fresh_free,
    lemma_owned_after_alloc, lemma_owned_keep};
use large::{LargeTable, run_start, large_alloc_done, lemma_large_owned_more, lemma_large_owned_keep, lemma_run_frame_used,
    lemma_first_empty};

verus! {

/// Point-in-time heap counters.
#[derive(Clone, Copy, Debug, PartialEq, Eq, Structural)]
pub struct HeapStats {
    /// Bytes backing live allocations: class sizes for small objects,
    /// whole frames for large ones.
    pub bytes_in_use: usize,
    /// Live objects served by the slab path.
    pub small_objects_in_use: usize,
    /// Slab frames currently owned by the slab allocator.
    pub slabs: usize,
    /// Live objects served by the large-object path.
    pub large_objects: usize,
    /// Frames owned by live large objects.
    pub large_frames: usize,
}

/// How a request is served.
#[derive(Clone, Copy, Debug, PartialEq, Eq, Structural)]
pub enum AllocKind {
    /// From the slab class with this index.
    Small(usize),
    /// From this many contiguous frames.
    Large(usize),
    /// Alignment above 4096 bytes: never served.
    Rejected,
}

/// How `classify` routes a request of `size` bytes aligned to `align`.
pub open spec fn classify_spec(size: usize, align: usize) -> AllocKind {
    let size1 = if size == 0 { 1 } else { size as int };
    let required = if size1 >= align { size1 } else { align as int };
    if align > 4096 {
        AllocKind::Rejected
    } else if required > MAX_SLAB_SIZE {
        AllocKind::Large((if (size1 + 4095) / 4096 >= 1 { (size1 + 4095) / 4096 } else { 1 }) as usize)
    } else {
        AllocKind::Small(smallest_class(required))
    }
}

/// The smallest slab class holding `required` bytes.
pub open spec fn smallest_class(required: int) -> usize {
    if required <= 16 { 0 } else if required <= 32 { 1 } else if required <= 64 { 2 } else if required <= 128 { 3 }
    else if required <= 256 { 4 } else if required <= 512 { 5 } else if required <= 1024 { 6 } else { 7 }
}

/// Routes a request: `Rejected` above 4096-byte alignment, `Large` (whole
/// frames for the size) if size or alignment exceeds the largest slab
/// class, else the smallest slab class holding both. A zero size counts
/// as one byte.
pub fn classify(size: usize, align: usize) -> (r: AllocKind)
    ensures
        r == classify_spec(size, align),
{
    let size1 = if size == 0 { 1 } else { size };
    if align > 4096 {
        return AllocKind::Rejected;
    }
    let required = if size1 >= align { size1 } else { align };
    if required > MAX_SLAB_SIZE {
        let frames = size1 / 4096 + if size1 % 4096 != 0 { 1 } else { 0 };
        let frames = if frames >= 1 { frames } else { 1 };
        proof {
            assert(frames == (if (size1 + 4095) / 4096 >= 1 { (size1 + 4095) / 4096 } else { 1 }));
        }
        AllocKind::Large(frames)
    } else {
        let c = class_index_for(required);
        AllocKind::Small(c)
    }
}

/// Live objects in the slabs `v` of class `idx`: each slab's slots minus
/// its free ones.
pub open spec fn slab_live(v: Seq<(u64, Seq<u32>)>, idx: int) -> int
    decreases v.len(),
{
    if v.len() == 0 { 0 } else { slab_live(v.drop_last(), idx) + (capacity(idx) - v.last().1.len()) }
}

/// Live objects in classes `0..k`.
pub open spec fn classes_live(vs: Seq<Seq<(u64, Seq<u32>)>>, k: int) -> int
    decreases k,
{
    if k <= 0 { 0 } else { classes_live(vs, k - 1) + slab_live(vs[k - 1], k - 1) }
}

/// Bytes of live objects in classes `0..k`, at their class sizes.
pub open spec fn classes_bytes(vs: Seq<Seq<(u64, Seq<u32>)>>, k: int) -> int
    decreases k,
{
    if k <= 0 { 0 } else { classes_bytes(vs, k - 1) + class_size_spec(k - 1) * slab_live(vs[k - 1], k - 1) }
}

/// Slabs in classes `0..k`.
pub open spec fn classes_slabs(vs: Seq<Seq<(u64, Seq<u32>)>>, k: int) -> int
    decreases k,
{
    if k <= 0 { 0 } else { classes_slabs(vs, k - 1) + vs[k - 1].len() }
}

/// Replacing one slab changes the live count by that slab alone.
proof fn lemma_slab_live_update(v: Seq<(u64, Seq<u32>)>, idx: int, i: int, x: (u64, Seq<u32>))
    requires
        0 <= i < v.len(),
    ensures
        slab_live(v.update(i, x), idx) == slab_live(v, idx) - (capacity(idx) - v[i].1.len()) + (capacity(idx) - x.1.len()),
    decreases v.len(),
{
    if i == v.len() - 1 {
        assert(v.update(i, x).drop_last() =~= v.drop_last());
    } else {
        lemma_slab_live_update(v.drop_last(), idx, i, x);
        assert(v.update(i, x).drop_last() =~= v.drop_last().update(i, x));
    }
}

/// A slab put in front adds its live objects.
proof fn lemma_slab_live_prepend(x: (u64, Seq<u32>), v: Seq<(u64, Seq<u32>)>, idx: int)
    ensures
        slab_live(seq![x] + v, idx) == (capacity(idx) - x.1.len()) + slab_live(v, idx),
    decreases v.len(),
{
    let xv = seq![x] + v;
    if v.len() == 0 {
        assert(xv.drop_last() =~= Seq::<(u64, Seq<u32>)>::empty());
        assert(xv.last() == x);
        assert(slab_live(xv.drop_last(), idx) == 0);
        assert(slab_live(v, idx) == 0);
        assert(slab_live(xv, idx) == slab_live(xv.drop_last(), idx) + (capacity(idx) - xv.last().1.len()));
    } else {
        lemma_slab_live_prepend(x, v.drop_last(), idx);
        assert(xv.drop_last() =~= seq![x] + v.drop_last());
        assert(xv.last() == v.last());
        assert(slab_live(xv, idx) == slab_live(xv.drop_last(), idx) + (capacity(idx) - xv.last().1.len()));
        assert(slab_live(v, idx) == slab_live(v.drop_last(), idx) + (capacity(idx) - v.last().1.len()));
    }
}

/// Removing a slab takes away its live objects.
proof fn lemma_slab_live_remove(v: Seq<(u64, Seq<u32>)>, idx: int, i: int)
    requires
        0 <= i < v.len(),
    ensures
        slab_live(v.remove(i), idx) == slab_live(v, idx) - (capacity(idx) - v[i].1.len()),
    decreases v.len(),
{
    if i == v.len() - 1 {
        assert(v.remove(i) =~= v.drop_last());
    } else {
        lemma_slab_live_remove(v.drop_last(), idx, i);
        assert(v.remove(i).drop_last() =~= v.drop_last().remove(i));
    }
}

/// Every slab has between one and `capacity` live objects, so a class's
/// live count lies between its slab count and `capacity` times it, and
/// takes at most a frame's bytes per slab.
proof fn lemma_slab_live_bounds(v: Seq<(u64, Seq<u32>)>, idx: int)
    requires
        0 <= idx < NUM_CLASSES,
        forall|i: int| 0 <= i < v.len() ==> (#[trigger] v[i]).1.len() < capacity(idx),
    ensures
        v.len() <= slab_live(v, idx),
        class_size_spec(idx) * slab_live(v, idx) <= 4096 * v.len(),
    decreases v.len(),
{
    if v.len() > 0 {
        lemma_slab_live_bounds(v.drop_last(), idx);
        assert(v.last() == v[v.len() - 1]);
        let cs = class_size_spec(idx);
        let cap = capacity(idx);
        assert(cs * cap <= 4096) by (nonlinear_arith)
            requires cap == (4096 - area_offset(idx)) / cs, cs > 0, 0 <= area_offset(idx) < 4096;
        let l = cap - v.last().1.len();
        assert(cs * l <= cs * cap) by (nonlinear_arith) requires l <= cap, cs > 0;
        assert(cs * slab_live(v, idx) == cs * slab_live(v.drop_last(), idx) + cs * l) by (nonlinear_arith)
            requires slab_live(v, idx) == slab_live(v.drop_last(), idx) + l;
    }
}

/// Changing one class changes the totals by that class alone.
proof fn lemma_classes_update(vs: Seq<Seq<(u64, Seq<u32>)>>, c: int, v2: Seq<(u64, Seq<u32>)>, k: int)
    requires
        0 <= c < vs.len(),
        0 <= k <= vs.len(),
    ensures
        classes_live(vs.update(c, v2), k) == classes_live(vs, k)
            + (if c < k { slab_live(v2, c) - slab_live(vs[c], c) } else { 0 }),
        classes_bytes(vs.update(c, v2), k) == classes_bytes(vs, k)
            + (if c < k { class_size_spec(c) * slab_live(v2, c) - class_size_spec(c) * slab_live(vs[c], c) } else { 0 }),
        classes_slabs(vs.update(c, v2), k) == classes_slabs(vs, k)
            + (if c < k { v2.len() - vs[c].len() } else { 0 }),
    decreases k,
{
    if k > 0 {
        lemma_classes_update(vs, c, v2, k - 1);
    }
}

/// The totals over every class are bounded by the slabs: live objects by
/// live bytes, live bytes by a frame per slab.
proof fn lemma_classes_bounds(vs: Seq<Seq<(u64, Seq<u32>)>>, k: int)
    requires
        0 <= k <= vs.len(),
        k <= NUM_CLASSES,
        forall|c: int, i: int| 0 <= c < k && 0 <= i < vs[c].len() ==> (#[trigger] vs[c][i]).1.len() < capacity(c),
    ensures
        0 <= classes_slabs(vs, k) <= classes_live(vs, k) <= classes_bytes(vs, k) <= 4096 * classes_slabs(vs, k),
    decreases k,
{
    if k > 0 {
        lemma_classes_bounds(vs, k - 1);
        let c = k - 1;
        assert forall|i: int| 0 <= i < vs[c].len() implies (#[trigger] vs[c][i]).1.len() < capacity(c) by {
        }
        lemma_slab_live_bounds(vs[c], c);
        let l = slab_live(vs[c], c);
        assert(l <= class_size_spec(c) * l) by (nonlinear_arith) requires l >= 0, class_size_spec(c) >= 1;
    }
}

/// Marking a run of free frames used takes them off the free count.
proof fn lemma_free_count_take_run(s: Seq<bool>, g: int, n: int)
    requires
        0 <= g,
        0 <= n,
        g + n <= s.len(),
        forall|k: int| g <= k < g + n ==> !s[k],
    ensures
        free_count(set_range(s, g, n, true)) + n == free_count(s),
    decreases n,
{
    if n > 0 {
        lemma_free_count_take_run(s, g, n - 1);
        let s1 = set_range(s, g, n - 1, true);
        assert(s1.len() == s.len());
        assert(set_range(s, g, n, true) =~= s1.update(g + n - 1, true));
        lemma_free_count_update(s1, g + n - 1, true);
    } else {
        assert(set_range(s, g, 0, true) =~= s);
    }
}

/// Marking a run of used frames at or above `from` free adds them to the
/// free count.
proof fn lemma_free_count_give_run(s: Seq<bool>, g: int, n: int, from: int)
    requires
        0 <= from <= g,
        0 <= n,
        g + n <= s.len(),
        forall|k: int| g <= k < g + n ==> s[k],
    ensures
        free_count(set_range_above(s, g, n, from)) == free_count(s) + n,
    decreases n,
{
    if n > 0 {
        lemma_free_count_give_run(s, g, n - 1, from);
        let s1 = set_range_above(s, g, n - 1, from);
        assert(s1.len() == s.len());
        assert(set_range_above(s, g, n, from) =~= s1.update(g + n - 1, false));
        lemma_free_count_update(s1, g + n - 1, false);
    } else {
        assert(set_range_above(s, g, 0, from) =~= s);
    }
}

/// Setting one frame changes the free count by that frame alone.
proof fn lemma_free_count_update(s: Seq<bool>, f: int, v: bool)
    requires
        0 <= f < s.len(),
    ensures
        free_count(s.update(f, v)) + (if s[f] { 0int } else { 1int }) == free_count(s) + (if v { 0int } else { 1int }),
    decreases s.len(),
{
    if f == s.len() - 1 {
        assert(s.update(f, v).drop_last() =~= s.drop_last());
    } else {
        lemma_free_count_update(s.drop_last(), f, v);
        assert(s.update(f, v).drop_last() =~= s.drop_last().update(f, v));
    }
}

/// A PMM and direct map the heap can work with: the PMM is sound, its
/// free frames can be handed out, the direct map covers all of it, and a
/// byte count of all of it fits in a `usize`.
pub open spec fn heap_ready(pmm: &Pmm, offset: u64) -> bool {
    &&& pmm.wf()
    &&& free_frames_usable(pmm)
    &&& offset % 4096 == 0
    &&& offset + pmm.general().len() * 4096 <= u64::MAX
    &&& pmm.general().len() * 4096 <= usize::MAX
}

/// Totals over classes with no slabs are zero.
proof fn lemma_classes_empty(vs: Seq<Seq<(u64, Seq<u32>)>>, k: int)
    requires
        0 <= k <= vs.len(),
        forall|c: int| 0 <= c < k ==> (#[trigger] vs[c]).len() == 0,
    ensures
        classes_live(vs, k) == 0,
        classes_bytes(vs, k) == 0,
        classes_slabs(vs, k) == 0,
    decreases k,
{
    if k > 0 {
        lemma_classes_empty(vs, k - 1);
        assert(vs[k - 1].len() == 0);
        assert(slab_live(vs[k - 1], k - 1) == 0);
    }
}

/// The heap's state: per-class slab lists, the large-object table and the
/// running counters.
pub struct HeapState {
    classes: Vec<ClassState>,
    large: LargeTable,
    bytes_in_use: usize,
    small_objects_in_use: usize,
    slabs: usize,
}

impl HeapState {
    /// The counters `stats` reports.
    pub closed spec fn stats_spec(&self) -> HeapStats {
        HeapStats {
            bytes_in_use: self.bytes_in_use,
            small_objects_in_use: self.small_objects_in_use,
            slabs: self.slabs,
            large_objects: self.large.live_objects(),
            large_frames: self.large.frames_owned(),
        }
    }

    /// Class `c`'s slabs, newest first.
    pub closed spec fn class_view(&self, c: int) -> Seq<(u64, Seq<u32>)> {
        self.classes@[c]@
    }

    /// The large-object table's slots.
    pub closed spec fn large_view(&self) -> Seq<(u64, usize)> {
        self.large@
    }

    /// The large-object table.
    pub closed spec fn large_table(&self) -> LargeTable {
        self.large
    }

    /// Every class's slabs, by class.
    pub closed spec fn views(&self) -> Seq<Seq<(u64, Seq<u32>)>> {
        Seq::new(NUM_CLASSES as nat, |c: int| self.class_view(c))
    }

    /// The heap's structure is sound relative to the PMM and HHDM: every
    /// slab and large run is a frame the heap owns, and no frame is owned
    /// twice.
    pub closed spec fn wf(&self, pmm: &Pmm, offset: u64) -> bool {
        &&& self.classes@.len() == NUM_CLASSES
        &&& forall|c: int| 0 <= c < NUM_CLASSES ==> (#[trigger] self.classes@[c]).wf(c, offset)
            && self.classes@[c].owned_by(pmm)
        &&& self.large.wf(offset)
        &&& self.large.owned_by(pmm, offset)
        &&& forall|c1: int, i1: int, c2: int, i2: int|
            0 <= c1 < NUM_CLASSES && 0 <= c2 < NUM_CLASSES && c1 != c2
            && 0 <= i1 < self.class_view(c1).len() && 0 <= i2 < self.class_view(c2).len()
            ==> (#[trigger] self.class_view(c1)[i1]).0 != (#[trigger] self.class_view(c2)[i2]).0
        &&& forall|c: int, i: int, j: int|
            0 <= c < NUM_CLASSES && 0 <= i < self.class_view(c).len() && 0 <= j < self.large@.len()
            && (#[trigger] self.large@[j]).0 != 0
            ==> !(run_start(offset, self.large@[j]) <= frame_of((#[trigger] self.class_view(c)[i]).0)
                < run_start(offset, self.large@[j]) + self.large@[j].1)
        &&& self.small_objects_in_use == classes_live(self.views(), NUM_CLASSES as int)
        &&& self.slabs == classes_slabs(self.views(), NUM_CLASSES as int)
        &&& self.bytes_in_use == classes_bytes(self.views(), NUM_CLASSES as int) + 4096 * self.large.frames_owned()
        &&& self.slabs + self.large.frames_owned() + free_count(pmm.general()) <= pmm.general().len()
        &&& heap_ready(pmm, offset)
    }

    /// An empty heap.
    pub fn new() -> (r: Self)
        ensures
            r.stats_spec() == (HeapStats { bytes_in_use: 0, small_objects_in_use: 0, slabs: 0, large_objects: 0, large_frames: 0 }),
            forall|c: int| 0 <= c < NUM_CLASSES ==> #[trigger] r.class_view(c).len() == 0,
            forall|j: int| 0 <= j < r.large_view().len() ==> (#[trigger] r.large_view()[j]).0 == 0,
            forall|pmm: &Pmm, offset: u64| #[trigger] heap_ready(pmm, offset) ==> r.wf(pmm, offset),
    {
        let mut classes: Vec<ClassState> = Vec::new();
        while classes.len() < NUM_CLASSES
            invariant
                classes.len() <= NUM_CLASSES,
                forall|c: int| 0 <= c < classes@.len() ==> (#[trigger] classes@[c])@.len() == 0,
            decreases NUM_CLASSES - classes.len(),
        {
            classes.push(ClassState::new());
        }
        let r = HeapState { classes, large: LargeTable::new(), bytes_in_use: 0, small_objects_in_use: 0, slabs: 0 };
        proof {
            lemma_classes_empty(r.views(), NUM_CLASSES as int);
            assert forall|pmm: &Pmm, offset: u64| #[trigger] heap_ready(pmm, offset) implies r.wf(pmm, offset) by {
                crate::mm::pmm::lemma_free_count_le(pmm.general());
            }
        }
        r
    }
}

/// What `alloc` does to heap `h0` (becoming `h1`) and the general pool
/// `g0` (becoming `g1`), and returns, by the route `classify` picks: a
/// rejected alignment changes nothing and gets nothing; a small request is
/// served as `alloc_object` serves its class, the other classes and the
/// large table untouched; a large one as `allocate` serves the table, the
/// classes untouched. The counters follow what was handed out.
pub open spec fn heap_alloc_done(h0: HeapState, h1: HeapState, size: usize, align: usize, offset: u64,
    g0: Seq<bool>, g1: Seq<bool>, r: Option<u64>) -> bool {
    let s0 = h0.stats_spec();
    match classify_spec(size, align) {
        AllocKind::Rejected => r.is_none() && h1 == h0 && g1 == g0,
        AllocKind::Small(c) => {
            &&& exists|o: Option<AllocOutcome>|
                #[trigger] slab_alloc_done(h0.class_view(c as int), h1.class_view(c as int), c as int, offset, g0, g1, o)
                && r == (match o { Some(x) => Some(x.ptr), None => None::<u64> })
                && h1.stats_spec() == (match o {
                    Some(x) => HeapStats {
                        bytes_in_use: (s0.bytes_in_use + class_size_spec(c as int)) as usize,
                        small_objects_in_use: (s0.small_objects_in_use + 1) as usize,
                        slabs: (s0.slabs + if x.new_slab { 1int } else { 0int }) as usize,
                        large_objects: s0.large_objects,
                        large_frames: s0.large_frames,
                    },
                    None => s0,
                })
            &&& h1.large_table() == h0.large_table()
            &&& forall|d: int| 0 <= d < NUM_CLASSES && d != c ==> #[trigger] h1.class_view(d) == h0.class_view(d)
        },
        AllocKind::Large(n) => {
            &&& large_alloc_done(h0.large_table(), h1.large_table(), n, offset, g0, g1, r)
            &&& forall|d: int| 0 <= d < NUM_CLASSES ==> #[trigger] h1.class_view(d) == h0.class_view(d)
            &&& h1.stats_spec() == (if r.is_some() {
                HeapStats {
                    bytes_in_use: (s0.bytes_in_use + n * 4096) as usize,
                    small_objects_in_use: s0.small_objects_in_use,
                    slabs: s0.slabs,
                    large_objects: (s0.large_objects + 1) as usize,
                    large_frames: (s0.large_frames + n) as usize,
                }
            } else {
                s0
            })
        },
    }
}

impl HeapState {
    /// The structural part of `wf` carries over to a state with the same
    /// classes and large table.
    proof fn lemma_same_structure(&self, other: &HeapState, pmm: &Pmm, offset: u64)
        requires
            self.classes == other.classes,
            self.large == other.large,
            forall|c: int| 0 <= c < NUM_CLASSES ==> (#[trigger] other.classes@[c]).wf(c, offset)
                && other.classes@[c].owned_by(pmm),
            forall|c1: int, i1: int, c2: int, i2: int|
                0 <= c1 < NUM_CLASSES && 0 <= c2 < NUM_CLASSES && c1 != c2
                && 0 <= i1 < other.class_view(c1).len() && 0 <= i2 < other.class_view(c2).len()
                ==> (#[trigger] other.class_view(c1)[i1]).0 != (#[trigger] other.class_view(c2)[i2]).0,
            forall|c: int, i: int, j: int|
                0 <= c < NUM_CLASSES && 0 <= i < other.class_view(c).len() && 0 <= j < other.large@.len()
                && (#[trigger] other.large@[j]).0 != 0
                ==> !(run_start(offset, other.large@[j]) <= frame_of((#[trigger] other.class_view(c)[i]).0)
                    < run_start(offset, other.large@[j]) + other.large@[j].1),
        ensures
            forall|c: int| 0 <= c < NUM_CLASSES ==> (#[trigger] self.classes@[c]).wf(c, offset)
                && self.classes@[c].owned_by(pmm),
            forall|c1: int, i1: int, c2: int, i2: int|
                0 <= c1 < NUM_CLASSES && 0 <= c2 < NUM_CLASSES && c1 != c2
                && 0 <= i1 < self.class_view(c1).len() && 0 <= i2 < self.class_view(c2).len()
                ==> (#[trigger] self.class_view(c1)[i1]).0 != (#[trigger] self.class_view(c2)[i2]).0,
            forall|c: int, i: int, j: int|
                0 <= c < NUM_CLASSES && 0 <= i < self.class_view(c).len() && 0 <= j < self.large@.len()
                && (#[trigger] self.large@[j]).0 != 0
                ==> !(run_start(offset, self.large@[j]) <= frame_of((#[trigger] self.class_view(c)[i]).0)
                    < run_start(offset, self.large@[j]) + self.large@[j].1),
    {
        assert forall|c1: int, i1: int, c2: int, i2: int|
            0 <= c1 < NUM_CLASSES && 0 <= c2 < NUM_CLASSES && c1 != c2
            && 0 <= i1 < self.class_view(c1).len() && 0 <= i2 < self.class_view(c2).len()
            implies (#[trigger] self.class_view(c1)[i1]).0 != (#[trigger] self.class_view(c2)[i2]).0 by {
            assert(self.class_view(c1) == other.class_view(c1));
            assert(self.class_view(c2) == other.class_view(c2));
        }
        assert forall|c: int, i: int, j: int|
            0 <= c < NUM_CLASSES && 0 <= i < self.class_view(c).len() && 0 <= j < self.large@.len()
            && (#[trigger] self.large@[j]).0 != 0
            implies !(run_start(offset, self.large@[j]) <= frame_of((#[trigger] self.class_view(c)[i]).0)
                < run_start(offset, self.large@[j]) + self.large@[j].1) by {
            assert(self.class_view(c) == other.class_view(c));
        }
    }
}

/// A slab frame is a used general-pool frame.
proof fn lemma_slab_frame_used(c: &ClassState, p: &Pmm, i: int)
    requires
        c.owned_by(p),
        0 <= i < c@.len(),
    ensures
        p.general()[frame_of(c@[i].0)],
{
    assert(freeable(p, c@[i].0));
}

impl HeapState {
    /// Serves a request of `size` bytes aligned to `align` by the route
    /// `classify` picks, returning the object's direct-map address, or
    /// `None` for a rejected alignment or when the PMM (or the large table)
    /// has no room.
    #[verifier::spinoff_prover]
    #[verifier::rlimit(60)]
    pub fn allocate(&mut self, size: usize, align: usize, pmm: &mut Pmm, hhdm: &Hhdm) -> (r: Option<u64>)
        requires
            old(self).wf(old(pmm), hhdm.offset),
        ensures
            final(self).wf(final(pmm), hhdm.offset),
            final(pmm).regions() == old(pmm).regions(),
            final(pmm).store() == old(pmm).store(),
            final(pmm).low() == old(pmm).low(),
            final(pmm).spec_low_reserved() == old(pmm).spec_low_reserved(),
            heap_alloc_done(*old(self), *final(self), size, align, hhdm.offset, old(pmm).general(), final(pmm).general(), r),
    {
        let ghost h0 = *self;
        let ghost p0 = *pmm;
        let ghost offset = hhdm.offset;
        proof {
            p0.lemma_wf_facts();
            crate::mm::pmm::lemma_free_count_le(p0.general());
            lemma_classes_bounds(h0.views(), NUM_CLASSES as int);
        }
        match classify(size, align) {
            AllocKind::Rejected => None,
            AllocKind::Small(c) => {
                proof {
                    assert(h0.classes@[c as int].wf(c as int, offset) && h0.classes@[c as int].owned_by(&p0));
                }
                let mut cls = self.classes.remove(c);
                let ghost v0 = cls@;
                let out = alloc_object(&mut cls, c, pmm, hhdm);
                let ghost v1 = cls@;
                let ghost cls1 = cls;
                self.classes.insert(c, cls);
                let ghost p1 = *pmm;
                proof {
                    assert(self.classes@ =~= h0.classes@.update(c as int, cls1));
                    assert(self.views() =~= h0.views().update(c as int, v1));
                    assert(v0 == h0.class_view(c as int));
                    lemma_classes_update(h0.views(), c as int, v1, NUM_CLASSES as int);
                    assert forall|f: int| 0 <= f < p0.general().len() && p0.general()[f] implies #[trigger] p1.general()[f] by {
                    }
                    assert forall|d: int| 0 <= d < NUM_CLASSES implies (#[trigger] self.classes@[d]).wf(d, offset)
                        && self.classes@[d].owned_by(pmm) by {
                        if d != c {
                            assert(self.classes@[d] == h0.classes@[d]);
                            lemma_owned_after_alloc(&h0.classes@[d], &p0, pmm);
                        }
                    }
                    lemma_large_owned_more(&self.large, &p0, pmm, offset);
                    // Every slab of class `c` is an old one, or the fresh frame.
                    assert forall|i: int| 0 <= i < v1.len() implies
                        (exists|j: int| 0 <= j < v0.len() && (#[trigger] v0[j]).0 == v1[i].0)
                        || (!p0.general()[frame_of(v1[i].0)] && out is Some && out->0.new_slab && i == 0) by {
                        if exists|k: int| first_with_free(v0, k) {
                            let k = choose|k: int| first_with_free(v0, k);
                            assert(v1[i].0 == v0[i].0);
                        } else if out is Some {
                            if i > 0 {
                                assert(v1[i] == v0[i - 1]);
                            }
                        } else {
                            assert(v1[i] == v0[i]);
                        }
                    }
                    assert forall|c1: int, i1: int, c2: int, i2: int|
                        0 <= c1 < NUM_CLASSES && 0 <= c2 < NUM_CLASSES && c1 != c2
                        && 0 <= i1 < self.class_view(c1).len() && 0 <= i2 < self.class_view(c2).len()
                        implies (#[trigger] self.class_view(c1)[i1]).0 != (#[trigger] self.class_view(c2)[i2]).0 by {
                        if c1 == c {
                            assert(self.class_view(c2) == h0.class_view(c2));
                            lemma_slab_frame_used(&h0.classes@[c2], &p0, i2);
                            if exists|j: int| 0 <= j < v0.len() && (#[trigger] v0[j]).0 == v1[i1].0 {
                                let j = choose|j: int| 0 <= j < v0.len() && (#[trigger] v0[j]).0 == v1[i1].0;
                                assert(h0.class_view(c1)[j] == v0[j]);
                            }
                        } else if c2 == c {
                            assert(self.class_view(c1) == h0.class_view(c1));
                            lemma_slab_frame_used(&h0.classes@[c1], &p0, i1);
                            if exists|j: int| 0 <= j < v0.len() && (#[trigger] v0[j]).0 == v1[i2].0 {
                                let j = choose|j: int| 0 <= j < v0.len() && (#[trigger] v0[j]).0 == v1[i2].0;
                                assert(h0.class_view(c2)[j] == v0[j]);
                            }
                        } else {
                            assert(self.class_view(c1) == h0.class_view(c1));
                            assert(self.class_view(c2) == h0.class_view(c2));
                        }
                    }
                    assert forall|d: int, i: int, j: int|
                        0 <= d < NUM_CLASSES && 0 <= i < self.class_view(d).len() && 0 <= j < self.large@.len()
                        && (#[trigger] self.large@[j]).0 != 0
                        implies !(run_start(offset, self.large@[j]) <= frame_of((#[trigger] self.class_view(d)[i]).0)
                            < run_start(offset, self.large@[j]) + self.large@[j].1) by {
                        if d == c {
                            if exists|k: int| 0 <= k < v0.len() && (#[trigger] v0[k]).0 == v1[i].0 {
                                let k = choose|k: int| 0 <= k < v0.len() && (#[trigger] v0[k]).0 == v1[i].0;
                                assert(h0.class_view(d)[k] == v0[k]);
                            } else {
                                if run_start(offset, self.large@[j]) <= frame_of(v1[i].0)
                                    < run_start(offset, self.large@[j]) + self.large@[j].1 {
                                    lemma_run_frame_used(&self.large, &p0, offset, j, frame_of(v1[i].0));
                                }
                            }
                        } else {
                            assert(self.class_view(d) == h0.class_view(d));
                        }
                    }
                }
                let ghost hm = *self;
                match out {
                    Some(o) => {
                        let ghost fresh = o.new_slab;
                        proof {
                            if exists|k: int| first_with_free(v0, k) {
                                let k = choose|k: int| first_with_free(v0, k);
                                lemma_slab_live_update(v0, c as int, k, v1[k]);
                                assert(!fresh);
                            } else {
                                let x = v1[0];
                                assert(v1 =~= seq![x] + v0);
                                lemma_slab_live_prepend(x, v0, c as int);
                                let f = frame_of(x.0);
                                crate::mm::heap::lemma_free_count_update(p0.general(), f, true);
                            }
                            let cs = class_size_spec(c as int);
                            let l0 = slab_live(v0, c as int);
                            assert(slab_live(v1, c as int) == l0 + 1);
                            assert(cs * (l0 + 1) == cs * l0 + cs) by (nonlinear_arith);
                            assert(classes_live(self.views(), NUM_CLASSES as int) == h0.small_objects_in_use + 1);
                            assert(classes_bytes(self.views(), NUM_CLASSES as int) == classes_bytes(h0.views(), NUM_CLASSES as int) + cs);
                            assert(classes_slabs(self.views(), NUM_CLASSES as int) == h0.slabs + if fresh { 1int } else { 0int });
                            assert(free_count(pmm.general()) + (if fresh { 1int } else { 0int }) == free_count(p0.general()));
                            lemma_classes_bounds(self.views(), NUM_CLASSES as int);
                        }
                        if o.new_slab {
                            self.slabs = self.slabs + 1;
                        }
                        self.small_objects_in_use = self.small_objects_in_use + 1;
                        self.bytes_in_use = self.bytes_in_use + class_size(c);
                        proof {
                            assert(self.views() =~= h0.views().update(c as int, v1));
                            assert(self.small_objects_in_use == classes_live(self.views(), NUM_CLASSES as int));
                            assert(self.slabs == classes_slabs(self.views(), NUM_CLASSES as int));
                            assert(self.bytes_in_use == classes_bytes(self.views(), NUM_CLASSES as int) + 4096 * self.large.frames_owned());
                            assert(self.slabs + self.large.frames_owned() + free_count(pmm.general()) <= pmm.general().len());
                            assert(heap_ready(pmm, offset));
                            self.lemma_same_structure(&hm, pmm, offset);
                            assert(self.wf(pmm, offset));
                            assert(slab_alloc_done(h0.class_view(c as int), self.class_view(c as int), c as int, offset,
                                p0.general(), pmm.general(), out));
                        }
                        Some(o.ptr)
                    }
                    None => {
                        proof {
                            assert(v1 == v0);
                            assert(self.views() =~= h0.views());
                            assert(self.wf(pmm, offset));
                            assert(slab_alloc_done(h0.class_view(c as int), self.class_view(c as int), c as int, offset,
                                p0.general(), pmm.general(), out));
                        }
                        None
                    }
                }
            }
            AllocKind::Large(n) => {
                if n > usize::MAX - self.large.total_frames() {
                    proof {
                        assert(n > p0.general().len());
                        assert forall|g: int| !crate::mm::pmm::run_fits(p0.general(), g, n as int, 1) by {
                        }
                    }
                    return None;
                }
                let r = self.large.allocate(n, pmm, hhdm);
                let ghost p1 = *pmm;
                let ghost t1 = self.large;
                proof {
                    assert(self.views() =~= h0.views());
                    assert forall|f: int| 0 <= f < p0.general().len() && p0.general()[f] implies #[trigger] p1.general()[f] by {
                    }
                    assert forall|d: int| 0 <= d < NUM_CLASSES implies (#[trigger] self.classes@[d]).wf(d, offset)
                        && self.classes@[d].owned_by(pmm) by {
                        lemma_owned_after_alloc(&h0.classes@[d], &p0, pmm);
                    }
                    assert forall|c1: int, i1: int, c2: int, i2: int|
                        0 <= c1 < NUM_CLASSES && 0 <= c2 < NUM_CLASSES && c1 != c2
                        && 0 <= i1 < self.class_view(c1).len() && 0 <= i2 < self.class_view(c2).len()
                        implies (#[trigger] self.class_view(c1)[i1]).0 != (#[trigger] self.class_view(c2)[i2]).0 by {
                        assert(self.class_view(c1) == h0.class_view(c1));
                        assert(self.class_view(c2) == h0.class_view(c2));
                    }
                }
                let ghost hm = *self;
                match r {
                    Some(v) => {
                        let ghost start = frame_of((v - offset) as u64);
                        let ghost t0 = h0.large;
                        proof {
                            assert(exists|i: int| 0 <= i < t0@.len() && (#[trigger] t0@[i]).0 == 0) by {
                                if !(exists|i: int| 0 <= i < t0@.len() && (#[trigger] t0@[i]).0 == 0) {
                                    assert(forall|i: int| 0 <= i < t0@.len() ==> (#[trigger] t0@[i]).0 != 0);
                                }
                            }
                            let k = choose|i: int| 0 <= i < t0@.len() && (#[trigger] t0@[i]).0 == 0;
                            lemma_first_empty(t0@, k);
                            lemma_free_count_take_run(p0.general(), start, n as int);
                            assert forall|d: int, i: int, j: int|
                                0 <= d < NUM_CLASSES && 0 <= i < self.class_view(d).len() && 0 <= j < self.large@.len()
                                && (#[trigger] self.large@[j]).0 != 0
                                implies !(run_start(offset, self.large@[j]) <= frame_of((#[trigger] self.class_view(d)[i]).0)
                                    < run_start(offset, self.large@[j]) + self.large@[j].1) by {
                                assert(self.class_view(d) == h0.class_view(d));
                                lemma_slab_frame_used(&h0.classes@[d], &p0, i);
                                let slot = choose|i: int| 0 <= i < t0@.len() && t0@[i].0 == 0
                                    && forall|j: int| 0 <= j < i ==> t0@[j].0 != 0;
                                assert(self.large@ == t0@.update(slot, (v, n)));
                                if j != slot {
                                    assert(self.large@[j] == h0.large@[j]);
                                } else {
                                    assert(run_start(offset, self.large@[j]) == start);
                                    let f = frame_of(self.class_view(d)[i].0);
                                    if start <= f < start + n {
                                        assert(!p0.general()[f]);
                                    }
                                }
                            }
                        }
                        self.bytes_in_use = self.bytes_in_use + n * 4096;
                        proof {
                            assert(self.large.frames_owned() == h0.large.frames_owned() + n);
                            assert(free_count(pmm.general()) + n == free_count(p0.general()));
                            assert(self.views() =~= h0.views());
                            assert(self.bytes_in_use == classes_bytes(self.views(), NUM_CLASSES as int) + 4096 * self.large.frames_owned());
                            assert(self.slabs + self.large.frames_owned() + free_count(pmm.general()) <= pmm.general().len());
                            assert(heap_ready(pmm, offset));
                            self.lemma_same_structure(&hm, pmm, offset);
                            assert(self.wf(pmm, offset));
                        }
                        Some(v)
                    }
                    None => {
                        proof {
                            assert(self.large@ == h0.large@);
                            assert forall|d: int, i: int, j: int|
                                0 <= d < NUM_CLASSES && 0 <= i < self.class_view(d).len() && 0 <= j < self.large@.len()
                                && (#[trigger] self.large@[j]).0 != 0
                                implies !(run_start(offset, self.large@[j]) <= frame_of((#[trigger] self.class_view(d)[i]).0)
                                    < run_start(offset, self.large@[j]) + self.large@[j].1) by {
                                assert(self.class_view(d) == h0.class_view(d));
                                assert(self.large@[j] == h0.large@[j]);
                            }
                            assert(self.wf(pmm, offset));
                        }
                        None
                    }
                }
            }
        }
    }
}

/// `ptr` is a live object that `allocate` handed out for a request of
/// `size` bytes aligned to `align`: a handed-out slot of the request's
/// class, or the address of a live large run. A rejected alignment was
/// never served.
pub open spec fn heap_live(h: HeapState, size: usize, align: usize, offset: u64, ptr: u64) -> bool {
    match classify_spec(size, align) {
        AllocKind::Small(c) => exists|i: int, s: int| #[trigger] live_slot(h.class_view(c as int), c as int, i, s)
            && ptr == obj_addr(offset, h.class_view(c as int)[i].0, c as int, s),
        AllocKind::Large(_) => ptr != 0 && exists|i: int| 0 <= i < h.large_table()@.len()
            && (#[trigger] h.large_table()@[i]).0 == ptr,
        AllocKind::Rejected => false,
    }
}

/// What `deallocate` does to heap `h0` (becoming `h1`) and the general
/// pool `g0` (becoming `g1`): a small object's slot goes back on its
/// slab's free stack, and a slab left with no live object is unlinked and
/// its frame freed; a large object's slot is cleared and its run freed.
/// The counters drop by what was given back; nothing else changes.
pub open spec fn heap_dealloc_done(h0: HeapState, h1: HeapState, size: usize, align: usize, offset: u64,
    g0: Seq<bool>, g1: Seq<bool>, ptr: u64) -> bool {
    let s0 = h0.stats_spec();
    match classify_spec(size, align) {
        AllocKind::Small(c) => {
            let v0 = h0.class_view(c as int);
            let (i, s) = choose|i: int, s: int| #[trigger] live_slot(v0, c as int, i, s)
                && ptr == obj_addr(offset, v0[i].0, c as int, s);
            let (phys, free) = v0[i];
            let emptied = free.len() + 1 == capacity(c as int);
            &&& h1.class_view(c as int) == (if emptied { v0.remove(i) } else { v0.update(i, (phys, free.push(s as u32))) })
            &&& g1 == (if emptied { g0.update(frame_of(phys), false) } else { g0 })
            &&& h1.stats_spec() == HeapStats {
                bytes_in_use: (s0.bytes_in_use - class_size_spec(c as int)) as usize,
                small_objects_in_use: (s0.small_objects_in_use - 1) as usize,
                slabs: (s0.slabs - if emptied { 1int } else { 0int }) as usize,
                large_objects: s0.large_objects,
                large_frames: s0.large_frames,
            }
            &&& h1.large_table() == h0.large_table()
            &&& forall|d: int| 0 <= d < NUM_CLASSES && d != c ==> #[trigger] h1.class_view(d) == h0.class_view(d)
        },
        AllocKind::Large(_) => {
            let t0 = h0.large_table()@;
            let i = choose|i: int| 0 <= i < t0.len() && (#[trigger] t0[i]).0 == ptr;
            let n = t0[i].1;
            &&& h1.large_table()@ == t0.update(i, (0u64, 0usize))
            &&& g1 == set_range(g0, frame_of((ptr - offset) as u64), n as int, false)
            &&& h1.stats_spec() == HeapStats {
                bytes_in_use: (s0.bytes_in_use - n * 4096) as usize,
                small_objects_in_use: s0.small_objects_in_use,
                slabs: s0.slabs,
                large_objects: (s0.large_objects - 1) as usize,
                large_frames: (s0.large_frames - n) as usize,
            }
            &&& forall|d: int| 0 <= d < NUM_CLASSES ==> #[trigger] h1.class_view(d) == h0.class_view(d)
        },
        AllocKind::Rejected => h1 == h0 && g1 == g0,
    }
}

/// Page-aligned addresses in the same frame are equal.
proof fn lemma_same_frame(a: u64, b: u64)
    requires
        a % 4096 == 0,
        b % 4096 == 0,
        frame_of(a) == frame_of(b),
    ensures
        a == b,
{
}

impl HeapState {
    /// Gives back an object `allocate` handed out for the same `size` and
    /// `align`.
    #[verifier::spinoff_prover]
    #[verifier::rlimit(100)]
    pub fn deallocate(&mut self, ptr: u64, size: usize, align: usize, pmm: &mut Pmm, hhdm: &Hhdm)
        requires
            old(self).wf(old(pmm), hhdm.offset),
            heap_live(*old(self), size, align, hhdm.offset, ptr),
        ensures
            final(self).wf(final(pmm), hhdm.offset),
            final(pmm).regions() == old(pmm).regions(),
            final(pmm).store() == old(pmm).store(),
            final(pmm).low() == old(pmm).low(),
            final(pmm).spec_low_reserved() == old(pmm).spec_low_reserved(),
            heap_dealloc_done(*old(self), *final(self), size, align, hhdm.offset, old(pmm).general(), final(pmm).general(), ptr),
    {
        let ghost h0 = *self;
        let ghost p0 = *pmm;
        let ghost offset = hhdm.offset;
        proof {
            p0.lemma_wf_facts();
            crate::mm::pmm::lemma_free_count_le(p0.general());
            lemma_classes_bounds(h0.views(), NUM_CLASSES as int);
        }
        match classify(size, align) {
            AllocKind::Rejected => {}
            AllocKind::Small(c) => {
                proof {
                    assert(h0.classes@[c as int].wf(c as int, offset) && h0.classes@[c as int].owned_by(&p0));
                }
                let mut cls = self.classes.remove(c);
                let ghost v0 = cls@;
                let emptied = free_object(&mut cls, ptr, c, pmm, hhdm);
                let ghost v1 = cls@;
                let ghost cls1 = cls;
                self.classes.insert(c, cls);
                let ghost p1 = *pmm;
                let ghost (gi, gs) = choose|i: int, s: int| #[trigger] live_slot(v0, c as int, i, s)
                    && ptr == obj_addr(offset, v0[i].0, c as int, s);
                let ghost f = frame_of(v0[gi].0);
                proof {
                    assert(v0 == h0.class_view(c as int));
                    assert(self.classes@ =~= h0.classes@.update(c as int, cls1));
                    assert(self.views() =~= h0.views().update(c as int, v1));
                    lemma_classes_update(h0.views(), c as int, v1, NUM_CLASSES as int);
                    lemma_slab_frame_used(&h0.classes@[c as int], &p0, gi);
                    if emptied {
                        lemma_slab_live_remove(v0, c as int, gi);
                        lemma_free_count_update(p0.general(), f, false);
                    } else {
                        lemma_slab_live_update(v0, c as int, gi, (v0[gi].0, v0[gi].1.push(gs as u32)));
                    }
                    let cs = class_size_spec(c as int);
                    let l0 = slab_live(v0, c as int);
                    assert(slab_live(v1, c as int) == l0 - 1);
                    assert(cs * (l0 - 1) == cs * l0 - cs) by (nonlinear_arith);
                    lemma_classes_bounds(self.views(), NUM_CLASSES as int);
                    // Every slab of class `c` is an old one.
                    assert forall|i: int| #![trigger v1[i]] 0 <= i < v1.len() implies
                        exists|j: int| 0 <= j < v0.len() && (#[trigger] v0[j]).0 == v1[i].0 by {
                        if emptied {
                            if i < gi { assert(v1[i] == v0[i]); } else { assert(v1[i] == v0[i + 1]); }
                        } else {
                            assert(v1[i].0 == v0[i].0);
                        }
                    }
                    // The freed frame, if any, is no other slab's and in no large run.
                    assert forall|d: int, i: int| 0 <= d < NUM_CLASSES && d != c && 0 <= i < h0.class_view(d).len()
                        implies #[trigger] p1.general()[frame_of(h0.class_view(d)[i].0)] by {
                        lemma_slab_frame_used(&h0.classes@[d], &p0, i);
                        if emptied && frame_of(h0.class_view(d)[i].0) == f {
                            lemma_same_frame(h0.class_view(d)[i].0, v0[gi].0);
                        }
                    }
                    assert forall|d: int| 0 <= d < NUM_CLASSES implies (#[trigger] self.classes@[d]).wf(d, offset)
                        && self.classes@[d].owned_by(pmm) by {
                        if d != c {
                            assert(self.classes@[d] == h0.classes@[d]);
                            assert forall|i: int| #![trigger h0.classes@[d]@[i]] 0 <= i < h0.classes@[d]@.len()
                                implies p1.general()[frame_of(h0.classes@[d]@[i].0)] by {
                                assert(h0.class_view(d)[i] == h0.classes@[d]@[i]);
                            }
                            lemma_owned_keep(&h0.classes@[d], &p0, pmm);
                        }
                    }
                    assert forall|j: int, fr: int| #![trigger h0.large@[j], p1.general()[fr]]
                        0 <= j < h0.large@.len() && h0.large@[j].0 != 0
                        && run_start(offset, h0.large@[j]) <= fr < run_start(offset, h0.large@[j]) + h0.large@[j].1
                        implies p1.general()[fr] by {
                        lemma_run_frame_used(&h0.large, &p0, offset, j, fr);
                        assert(h0.class_view(c as int)[gi] == v0[gi]);
                    }
                    lemma_large_owned_keep(&self.large, &p0, pmm, offset);
                    assert forall|c1: int, i1: int, c2: int, i2: int|
                        0 <= c1 < NUM_CLASSES && 0 <= c2 < NUM_CLASSES && c1 != c2
                        && 0 <= i1 < self.class_view(c1).len() && 0 <= i2 < self.class_view(c2).len()
                        implies (#[trigger] self.class_view(c1)[i1]).0 != (#[trigger] self.class_view(c2)[i2]).0 by {
                        if c1 == c {
                            assert(self.class_view(c2) == h0.class_view(c2));
                            let j = choose|j: int| 0 <= j < v0.len() && (#[trigger] v0[j]).0 == v1[i1].0;
                            assert(h0.class_view(c1)[j] == v0[j]);
                        } else if c2 == c {
                            assert(self.class_view(c1) == h0.class_view(c1));
                            let j = choose|j: int| 0 <= j < v0.len() && (#[trigger] v0[j]).0 == v1[i2].0;
                            assert(h0.class_view(c2)[j] == v0[j]);
                        } else {
                            assert(self.class_view(c1) == h0.class_view(c1));
                            assert(self.class_view(c2) == h0.class_view(c2));
                        }
                    }
                    assert forall|d: int, i: int, j: int|
                        0 <= d < NUM_CLASSES && 0 <= i < self.class_view(d).len() && 0 <= j < self.large@.len()
                        && (#[trigger] self.large@[j]).0 != 0
                        implies !(run_start(offset, self.large@[j]) <= frame_of((#[trigger] self.class_view(d)[i]).0)
                            < run_start(offset, self.large@[j]) + self.large@[j].1) by {
                        if d == c {
                            let k = choose|k: int| 0 <= k < v0.len() && (#[trigger] v0[k]).0 == v1[i].0;
                            assert(h0.class_view(d)[k] == v0[k]);
                        } else {
                            assert(self.class_view(d) == h0.class_view(d));
                        }
                    }
                }
                let ghost hm = *self;
                if emptied {
                    self.slabs = self.slabs - 1;
                }
                self.small_objects_in_use = self.small_objects_in_use - 1;
                self.bytes_in_use = self.bytes_in_use - class_size(c);
                proof {
                    assert(self.views() =~= h0.views().update(c as int, v1));
                    assert(heap_ready(pmm, offset));
                    self.lemma_same_structure(&hm, pmm, offset);
                    assert(self.wf(pmm, offset));
                    assert(self.class_view(c as int) == v1);
                    assert(self.large_table() == h0.large_table());
                    assert(forall|d: int| 0 <= d < NUM_CLASSES && d != c ==> #[trigger] self.class_view(d) == h0.class_view(d));
                    assert(self.stats_spec().bytes_in_use == h0.stats_spec().bytes_in_use - class_size_spec(c as int));
                    assert(self.stats_spec().slabs == h0.stats_spec().slabs - if emptied { 1int } else { 0int });
                    assert(heap_dealloc_done(h0, *self, size, align, offset, p0.general(), pmm.general(), ptr));
                }
            }
            AllocKind::Large(_) => {
                let ghost t0 = h0.large@;
                let ghost gi = choose|i: int| 0 <= i < t0.len() && (#[trigger] t0[i]).0 == ptr;
                let n = self.large.free(ptr, pmm, hhdm);
                let ghost p1 = *pmm;
                let ghost start = frame_of((ptr - offset) as u64);
                proof {
                    assert(self.views() =~= h0.views());
                    assert(run_start(offset, t0[gi]) == start);
                    assert forall|k: int| start <= k < start + n implies p0.general()[k] by {
                        lemma_run_frame_used(&h0.large, &p0, offset, gi, k);
                    }
                    assert(p0.low().len() <= start) by {
                        lemma_run_frame_used(&h0.large, &p0, offset, gi, start);
                    }
                    assert(start + n <= p0.general().len()) by {
                        lemma_run_frame_used(&h0.large, &p0, offset, gi, start + n - 1);
                    }
                    lemma_free_count_give_run(p0.general(), start, n as int, p0.low().len() as int);
                    assert(set_range_above(p0.general(), start, n as int, p0.low().len() as int)
                        =~= set_range(p0.general(), start, n as int, false));
                    assert forall|d: int| 0 <= d < NUM_CLASSES implies (#[trigger] self.classes@[d]).wf(d, offset)
                        && self.classes@[d].owned_by(pmm) by {
                        assert forall|i: int| #![trigger h0.classes@[d]@[i]] 0 <= i < h0.classes@[d]@.len()
                            implies p1.general()[frame_of(h0.classes@[d]@[i].0)] by {
                            assert(h0.class_view(d)[i] == h0.classes@[d]@[i]);
                            lemma_slab_frame_used(&h0.classes@[d], &p0, i);
                        }
                        lemma_owned_keep(&h0.classes@[d], &p0, pmm);
                    }
                    assert forall|c1: int, i1: int, c2: int, i2: int|
                        0 <= c1 < NUM_CLASSES && 0 <= c2 < NUM_CLASSES && c1 != c2
                        && 0 <= i1 < self.class_view(c1).len() && 0 <= i2 < self.class_view(c2).len()
                        implies (#[trigger] self.class_view(c1)[i1]).0 != (#[trigger] self.class_view(c2)[i2]).0 by {
                        assert(self.class_view(c1) == h0.class_view(c1));
                        assert(self.class_view(c2) == h0.class_view(c2));
                    }
                    assert forall|d: int, i: int, j: int|
                        0 <= d < NUM_CLASSES && 0 <= i < self.class_view(d).len() && 0 <= j < self.large@.len()
                        && (#[trigger] self.large@[j]).0 != 0
                        implies !(run_start(offset, self.large@[j]) <= frame_of((#[trigger] self.class_view(d)[i]).0)
                            < run_start(offset, self.large@[j]) + self.large@[j].1) by {
                        assert(self.class_view(d) == h0.class_view(d));
                        assert(j != gi);
                        assert(self.large@[j] == t0[j]);
                    }
                }
                let ghost hm = *self;
                self.bytes_in_use = self.bytes_in_use - n * 4096;
                proof {
                    assert(self.views() =~= h0.views());
                    assert(heap_ready(pmm, offset));
                    self.lemma_same_structure(&hm, pmm, offset);
                    assert(self.wf(pmm, offset));
                    assert(forall|d: int| 0 <= d < NUM_CLASSES ==> #[trigger] self.class_view(d) == h0.class_view(d));
                    assert(self.stats_spec().bytes_in_use == h0.stats_spec().bytes_in_use - n * 4096);
                    assert(pmm.general() == set_range(p0.general(), start, n as int, false));
                    assert(n == t0[gi].1);
                    let t0s = h0.large_table()@;
                    let j = choose|i: int| 0 <= i < t0s.len() && (#[trigger] t0s[i]).0 == ptr;
                    assert(t0s == t0);
                    assert(j == gi);
                    assert(self.large_table()@ == t0.update(gi, (0u64, 0usize)));
                    assert(self.stats_spec().large_objects == h0.stats_spec().large_objects - 1);
                    assert(self.stats_spec().large_frames == h0.stats_spec().large_frames - n);
                    assert(self.stats_spec().slabs == h0.stats_spec().slabs);
                    assert(heap_dealloc_done(h0, *self, size, align, offset, p0.general(), pmm.general(), ptr));
                }
            }
        }
    }
}

/// What `reallocate` leaves the caller to do.
#[derive(Clone, Copy, Debug, PartialEq, Eq, Structural)]
pub enum ReallocStep {
    /// The object already sits in a block that fits the new size.
    Keep,
    /// A new object was allocated here: the caller copies the old contents
    /// over and then deallocates the old object.
    Moved(u64),
    /// No new object could be had (or the new layout is invalid); the old
    /// object stays as it was.
    Failed,
}

/// Whether `size` bytes aligned to `align` form a valid layout: `align` a
/// power of two and `size`, rounded up to it, at most `isize::MAX`.
pub open spec fn layout_ok(size: usize, align: usize) -> bool {
    &&& align != 0
    &&& align & ((align - 1) as usize) == 0
    &&& size + align - 1 <= isize::MAX
}

/// A request's route decides the block it gets: the same class, or the
/// same number of frames.
pub open spec fn same_block(a: AllocKind, b: AllocKind) -> bool {
    match (a, b) {
        (AllocKind::Small(x), AllocKind::Small(y)) => x == y,
        (AllocKind::Large(x), AllocKind::Large(y)) => x == y,
        _ => false,
    }
}

impl HeapState {
    /// Resizes an object of `size` bytes aligned to `align` to `new_size`:
    /// `Failed` for an invalid new layout; `Keep` if the new size routes to
    /// the same block; else a fresh allocation for the new size (see
    /// `allocate`), `Moved` to its address or `Failed`.
    pub fn reallocate(&mut self, size: usize, align: usize, new_size: usize, pmm: &mut Pmm, hhdm: &Hhdm) -> (r: ReallocStep)
        requires
            old(self).wf(old(pmm), hhdm.offset),
        ensures
            final(self).wf(final(pmm), hhdm.offset),
            final(pmm).regions() == old(pmm).regions(),
            final(pmm).store() == old(pmm).store(),
            final(pmm).low() == old(pmm).low(),
            final(pmm).spec_low_reserved() == old(pmm).spec_low_reserved(),
            !layout_ok(new_size, align) ==> r == ReallocStep::Failed && *final(self) == *old(self) && *final(pmm) == *old(pmm),
            layout_ok(new_size, align) && same_block(classify_spec(size, align), classify_spec(new_size, align))
                ==> r == ReallocStep::Keep && *final(self) == *old(self) && *final(pmm) == *old(pmm),
            layout_ok(new_size, align) && !same_block(classify_spec(size, align), classify_spec(new_size, align))
                ==> exists|a: Option<u64>| #[trigger] heap_alloc_done(*old(self), *final(self), new_size, align, hhdm.offset,
                    old(pmm).general(), final(pmm).general(), a)
                    && r == (match a { Some(v) => ReallocStep::Moved(v), None => ReallocStep::Failed }),
    {
        if align == 0 || align & (align - 1) != 0 || align - 1 > (isize::MAX as usize) || new_size > (isize::MAX as usize) - (align - 1) {
            return ReallocStep::Failed;
        }
        let same = match (classify(size, align), classify(new_size, align)) {
            (AllocKind::Small(x), AllocKind::Small(y)) => x == y,
            (AllocKind::Large(x), AllocKind::Large(y)) => x == y,
            _ => false,
        };
        if same {
            return ReallocStep::Keep;
        }
        let a = self.allocate(new_size, align, pmm, hhdm);
        match a {
            Some(v) => ReallocStep::Moved(v),
            None => ReallocStep::Failed,
        }
    }
}

/// The current heap counters.
pub fn stats(heap: &HeapState) -> (r: HeapStats)
    ensures
        r == heap.stats_spec(),
{
    HeapStats {
        bytes_in_use: heap.bytes_in_use,
        small_objects_in_use: heap.small_objects_in_use,
        slabs: heap.slabs,
        large_objects: heap.large.count(),
        large_frames: heap.large.total_frames(),
    }
}

/// Starts the heap: nothing to set up (every class starts empty, the
/// large-object table clear), so this only builds the empty state.
pub fn init() -> (r: HeapState)
    ensures
        r.stats_spec() == (HeapStats { bytes_in_use: 0, small_objects_in_use: 0, slabs: 0, large_objects: 0, large_frames: 0 }),
        forall|pmm: &Pmm, offset: u64| #[trigger] heap_ready(pmm, offset) ==> r.wf(pmm, offset),
{
    HeapState::new()
}

/// The allocator the kernel installs globally; every operation goes to
/// the one `HeapState`.
pub struct KernelHeap;

/// Every request is served by room enough: a small request by a class at
/// least as large as both its size and its alignment, a large one by
/// whole frames covering its size.
pub proof fn law_classes_fit(size: usize, align: usize)
    ensures
        classify_spec(size, align) matches AllocKind::Small(c) ==> c < NUM_CLASSES
            && class_size_spec(c as int) >= size && class_size_spec(c as int) >= align && class_size_spec(c as int) >= 1,
        classify_spec(size, align) matches AllocKind::Large(n) ==> n * 4096 >= size && n >= 1,
{
}

} // verus!
