//! Bookkeeping for allocations too big for any slab class: each is a run
//! of contiguous PMM frames addressed through the HHDM, recorded in a
//! fixed-capacity table so `free` knows how many frames to give back.
use vstd::prelude::*;
use crate::mm::addr::PhysAddr;
use crate::mm::hhdm::Hhdm;
use crate::mm::pmm::{Pmm, alloc_contiguous, free_contiguous, lowest_free_run, run_fits, set_range, set_range_above,
    frame_of, freeable, free_frames_usable, lemma_usable_after_alloc, lemma_usable_after_free_run};

verus! {

/// How many large allocations can be live at once.
pub const MAX_LARGE_OBJECTS: usize = 512;

/// One table slot: the allocation's HHDM address (0 marks an empty slot)
/// and its frame count.
#[derive(Clone, Copy)]
struct Entry {
    virt: u64,
    frames: usize,
}

pub struct LargeTable {
    entries: Vec<Entry>,
    /// Live large allocations.
    pub count: usize,
    /// Frames owned by live large allocations.
    pub total_frames: usize,
}

/// How many slots of `s` are live.
pub open spec fn live_count(s: Seq<(u64, usize)>) -> nat
    decreases s.len(),
{
    if s.len() == 0 { 0 } else { live_count(s.drop_last()) + if s.last().0 != 0 { 1nat } else { 0nat } }
}

/// How many frames the live slots of `s` hold.
pub open spec fn live_frames(s: Seq<(u64, usize)>) -> nat
    decreases s.len(),
{
    if s.len() == 0 { 0 } else { live_frames(s.drop_last()) + if s.last().0 != 0 { s.last().1 as nat } else { 0nat } }
}

/// Replacing one slot changes the counts by that slot alone.
proof fn lemma_live_update(s: Seq<(u64, usize)>, i: int, x: (u64, usize))
    requires
        0 <= i < s.len(),
    ensures
        live_count(s.update(i, x)) + (if s[i].0 != 0 { 1nat } else { 0nat })
            == live_count(s) + (if x.0 != 0 { 1nat } else { 0nat }),
        live_frames(s.update(i, x)) + (if s[i].0 != 0 { s[i].1 as nat } else { 0nat })
            == live_frames(s) + (if x.0 != 0 { x.1 as nat } else { 0nat }),
    decreases s.len(),
{
    if i == s.len() - 1 {
        assert(s.update(i, x).drop_last() =~= s.drop_last());
    } else {
        lemma_live_update(s.drop_last(), i, x);
        assert(s.update(i, x).drop_last() =~= s.drop_last().update(i, x));
    }
}

/// Bounds on the counts.
proof fn lemma_live_bounds(s: Seq<(u64, usize)>)
    ensures
        live_count(s) <= s.len(),
    decreases s.len(),
{
    if s.len() > 0 {
        lemma_live_bounds(s.drop_last());
        assert(s.last() == s[s.len() - 1]);
    }
}

/// Frame numbers step with whole frames.
proof fn lemma_frame_step(x: u64, k: int, len: int)
    requires
        x % 4096 == 0,
        0 <= k,
        frame_of(x) + k < len,
        len * 4096 <= 0x10_0000_0000_0000,
    ensures
        x + k * 4096 < 0x10_0000_0000_0000,
        frame_of((x + k * 4096) as u64) == frame_of(x) + k,
{
    assert(x == frame_of(x) * 4096);
    assert(x + k * 4096 < len * 4096) by (nonlinear_arith)
        requires x == frame_of(x) * 4096, frame_of(x) + k < len;
    assert((frame_of(x) * 4096 + k * 4096) / 4096 == frame_of(x) + k) by (nonlinear_arith)
        requires k >= 0, frame_of(x) >= 0;
}

/// The physical frame run slot `(v, n)` owns under HHDM offset `offset`.
pub open spec fn run_start(offset: u64, e: (u64, usize)) -> int {
    frame_of((e.0 - offset) as u64)
}

impl View for LargeTable {
    type V = Seq<(u64, usize)>;

    closed spec fn view(&self) -> Seq<(u64, usize)> {
        Seq::new(self.entries@.len(), |i: int| (self.entries@[i].virt, self.entries@[i].frames))
    }
}

impl LargeTable {
    /// Live large allocations.
    pub closed spec fn live_objects(&self) -> usize {
        self.count
    }

    /// Frames owned by live large allocations.
    pub closed spec fn frames_owned(&self) -> usize {
        self.total_frames
    }

    /// Live large allocations.
    pub fn count(&self) -> (r: usize)
        ensures
            r == self.live_objects(),
    {
        self.count
    }

    /// Frames owned by live large allocations.
    pub fn total_frames(&self) -> (r: usize)
        ensures
            r == self.frames_owned(),
    {
        self.total_frames
    }

    /// Well-formed: `MAX_LARGE_OBJECTS` slots, empty ones all zero, live
    /// ones a frame-aligned HHDM address of at least one frame, the
    /// counters matching, and live runs pairwise disjoint.
    pub closed spec fn wf(&self, offset: u64) -> bool {
        &&& self@.len() == MAX_LARGE_OBJECTS
        &&& forall|i: int| 0 <= i < self@.len() ==> {
            let e = #[trigger] self@[i];
            &&& e.0 == 0 ==> e.1 == 0
            &&& e.0 != 0 ==> {
                &&& e.0 >= offset
                &&& (e.0 - offset) % 4096 == 0
                &&& e.1 >= 1
            }
        }
        &&& self.count == live_count(self@)
        &&& self.total_frames == live_frames(self@)
        &&& forall|i: int, j: int| 0 <= i < self@.len() && 0 <= j < self@.len() && i != j
            && (#[trigger] self@[i]).0 != 0 && (#[trigger] self@[j]).0 != 0
            ==> run_start(offset, self@[i]) + self@[i].1 <= run_start(offset, self@[j])
                || run_start(offset, self@[j]) + self@[j].1 <= run_start(offset, self@[i])
    }

    /// Every frame of every live run is a used general-pool frame that can
    /// be freed back.
    pub open spec fn owned_by(&self, pmm: &Pmm, offset: u64) -> bool {
        forall|i: int, k: int| 0 <= i < self@.len() && (#[trigger] self@[i]).0 != 0 && 0 <= k < self@[i].1 ==> {
            &&& #[trigger] freeable(pmm, ((self@[i].0 - offset) + k * 4096) as u64)
            &&& pmm.low().len() <= run_start(offset, self@[i]) + k < pmm.general().len()
        }
    }

    /// An empty table.
    pub fn new() -> (r: Self)
        ensures
            r.wf(0),
            forall|offset: u64| #[trigger] r.wf(offset),
            forall|i: int| 0 <= i < r@.len() ==> (#[trigger] r@[i]).0 == 0,
            r.live_objects() == 0,
            r.frames_owned() == 0,
    {
        let mut entries: Vec<Entry> = Vec::new();
        while entries.len() < MAX_LARGE_OBJECTS
            invariant
                entries.len() <= MAX_LARGE_OBJECTS,
                forall|i: int| 0 <= i < entries@.len() ==> (#[trigger] entries@[i]).virt == 0 && entries@[i].frames == 0,
            decreases MAX_LARGE_OBJECTS - entries.len(),
        {
            entries.push(Entry { virt: 0, frames: 0 });
        }
        let r = LargeTable { entries, count: 0, total_frames: 0 };
        proof {
            assert forall|s: Seq<(u64, usize)>| s.len() <= MAX_LARGE_OBJECTS && (forall|i: int| 0 <= i < s.len() ==> (#[trigger] s[i]).0 == 0)
                implies live_count(s) == 0 && live_frames(s) == 0 by {
                lemma_all_empty(s);
            }
        }
        r
    }
}

/// A table of empty slots counts nothing.
proof fn lemma_all_empty(s: Seq<(u64, usize)>)
    requires
        forall|i: int| 0 <= i < s.len() ==> (#[trigger] s[i]).0 == 0,
    ensures
        live_count(s) == 0,
        live_frames(s) == 0,
    decreases s.len(),
{
    if s.len() > 0 {
        assert(s.last() == s[s.len() - 1]);
        lemma_all_empty(s.drop_last());
    }
}

/// What `allocate(n)` does to table `t0` (becoming `t1`) and the general
/// pool `g0` (becoming `g1`), and returns: with an empty slot and a free
/// run of `n` frames, the lowest such run is taken and recorded in the
/// first empty slot, and its direct-map address returned; else nothing
/// changes.
pub open spec fn large_alloc_done(t0: LargeTable, t1: LargeTable, n: usize, offset: u64,
    g0: Seq<bool>, g1: Seq<bool>, r: Option<u64>) -> bool {
    &&& (forall|i: int| 0 <= i < t0@.len() ==> (#[trigger] t0@[i]).0 != 0) ==> {
        &&& r.is_none()
        &&& t1@ == t0@
        &&& g1 == g0
    }
    &&& r.is_none() ==> t1@ == t0@ && g1 == g0
        && t1.live_objects() == t0.live_objects() && t1.frames_owned() == t0.frames_owned()
    &&& (exists|i: int| 0 <= i < t0@.len() && (#[trigger] t0@[i]).0 == 0) ==> match r {
        None => n == 0 || forall|g: int| !run_fits(g0, g, n as int, 1),
        Some(v) => {
            let slot = choose|i: int| 0 <= i < t0@.len() && t0@[i].0 == 0
                && forall|j: int| 0 <= j < i ==> t0@[j].0 != 0;
            let phys = (v - offset) as u64;
            &&& n >= 1
            &&& v >= offset
            &&& phys % 4096 == 0
            &&& lowest_free_run(g0, frame_of(phys), n as int, 1)
            &&& g1 == set_range(g0, frame_of(phys), n as int, true)
            &&& t1@ == t0@.update(slot, (v, n))
            &&& t1.live_objects() == t0.live_objects() + 1
            &&& t1.frames_owned() == t0.frames_owned() + n
        },
    }
}

/// A table whose frames stay used keeps owning them.
pub proof fn lemma_large_owned_more(t: &LargeTable, p0: &Pmm, p1: &Pmm, offset: u64)
    requires
        t.wf(offset),
        t.owned_by(p0, offset),
        p0.wf(),
        p1.general().len() == p0.general().len(),
        p1.low() == p0.low(),
        p1.regions() == p0.regions(),
        p1.store() == p0.store(),
        forall|f: int| 0 <= f < p0.general().len() && p0.general()[f] ==> #[trigger] p1.general()[f],
    ensures
        t.owned_by(p1, offset),
{
    assert forall|i: int, k: int| 0 <= i < t@.len() && (#[trigger] t@[i]).0 != 0 && 0 <= k < t@[i].1 implies {
        &&& #[trigger] freeable(p1, ((t@[i].0 - offset) + k * 4096) as u64)
        &&& p1.low().len() <= run_start(offset, t@[i]) + k < p1.general().len()
    } by {
        let x = ((t@[i].0 - offset) + k * 4096) as u64;
        assert(freeable(p0, x));
        p0.lemma_wf_facts();
        lemma_frame_step((t@[i].0 - offset) as u64, k, p0.general().len() as int);
        assert(frame_of(x) == run_start(offset, t@[i]) + k);
        assert(p0.general()[frame_of(x)]);
    }
}

/// A table with an empty slot has a first one.
pub proof fn lemma_first_empty(s: Seq<(u64, usize)>, k: int)
    requires
        0 <= k < s.len(),
        s[k].0 == 0,
    ensures
        exists|i: int| 0 <= i < s.len() && s[i].0 == 0 && forall|j: int| 0 <= j < i ==> s[j].0 != 0,
    decreases k,
{
    if exists|j: int| 0 <= j < k && s[j].0 == 0 {
        let j = choose|j: int| 0 <= j < k && s[j].0 == 0;
        lemma_first_empty(s, j);
    } else {
        assert(0 <= k < s.len() && s[k].0 == 0 && forall|j: int| 0 <= j < k ==> s[j].0 != 0);
    }
}

/// What `allocate` hands out, `free` takes back whole: the address is a
/// live entry of the table (as `free` requires), and the only one, holding
/// the `n` frames allocated, so `free` of it gives back those `n` frames.
pub proof fn law_allocate_then_free(t0: LargeTable, t1: LargeTable, n: usize, offset: u64, g0: Seq<bool>, g1: Seq<bool>, v: u64)
    requires
        t0.wf(offset),
        t1.wf(offset),
        large_alloc_done(t0, t1, n, offset, g0, g1, Some(v)),
    ensures
        v != 0,
        exists|i: int| 0 <= i < t1@.len() && (#[trigger] t1@[i]).0 == v,
        t1@[choose|i: int| 0 <= i < t1@.len() && (#[trigger] t1@[i]).0 == v].1 == n,
{
    assert(exists|i: int| 0 <= i < t0@.len() && (#[trigger] t0@[i]).0 == 0) by {
        if !(exists|i: int| 0 <= i < t0@.len() && (#[trigger] t0@[i]).0 == 0) {
            assert(forall|i: int| 0 <= i < t0@.len() ==> (#[trigger] t0@[i]).0 != 0);
        }
    }
    let k = choose|i: int| 0 <= i < t0@.len() && (#[trigger] t0@[i]).0 == 0;
    lemma_first_empty(t0@, k);
    let slot = choose|i: int| 0 <= i < t0@.len() && t0@[i].0 == 0 && forall|j: int| 0 <= j < i ==> t0@[j].0 != 0;
    assert(t1@[slot] == (v, n));
    assert(v != 0) by {
        if v == 0 {
            assert(t1@[slot].1 == 0);
        }
    }
    let i = choose|i: int| 0 <= i < t1@.len() && (#[trigger] t1@[i]).0 == v;
    if i != slot {
        assert(run_start(offset, t1@[i]) == run_start(offset, t1@[slot]));
        assert(t1@[i].1 >= 1 && t1@[slot].1 >= 1);
    }
}

/// Every frame of a live run is a used general-pool frame above the low
/// pool.
pub proof fn lemma_run_frame_used(t: &LargeTable, p: &Pmm, offset: u64, i: int, f: int)
    requires
        t.wf(offset),
        t.owned_by(p, offset),
        p.wf(),
        0 <= i < t@.len(),
        t@[i].0 != 0,
        run_start(offset, t@[i]) <= f < run_start(offset, t@[i]) + t@[i].1,
    ensures
        p.general()[f],
        p.low().len() <= f < p.general().len(),
{
    let k = f - run_start(offset, t@[i]);
    let x = ((t@[i].0 - offset) + k * 4096) as u64;
    assert(freeable(p, x));
    p.lemma_wf_facts();
    lemma_frame_step((t@[i].0 - offset) as u64, k, p.general().len() as int);
}

/// A table keeps owning its runs in a PMM (with the same low pool, regions
/// and storage) where every frame of every live run is still used.
pub proof fn lemma_large_owned_keep(t: &LargeTable, p0: &Pmm, p1: &Pmm, offset: u64)
    requires
        t.wf(offset),
        t.owned_by(p0, offset),
        p0.wf(),
        p1.general().len() == p0.general().len(),
        p1.low() == p0.low(),
        p1.regions() == p0.regions(),
        p1.store() == p0.store(),
        forall|i: int, f: int| #![trigger t@[i], p1.general()[f]]
            0 <= i < t@.len() && t@[i].0 != 0 && run_start(offset, t@[i]) <= f < run_start(offset, t@[i]) + t@[i].1
            ==> p1.general()[f],
    ensures
        t.owned_by(p1, offset),
{
    assert forall|i: int, k: int| 0 <= i < t@.len() && (#[trigger] t@[i]).0 != 0 && 0 <= k < t@[i].1 implies {
        &&& #[trigger] freeable(p1, ((t@[i].0 - offset) + k * 4096) as u64)
        &&& p1.low().len() <= run_start(offset, t@[i]) + k < p1.general().len()
    } by {
        let x = ((t@[i].0 - offset) + k * 4096) as u64;
        assert(freeable(p0, x));
        p0.lemma_wf_facts();
        lemma_frame_step((t@[i].0 - offset) as u64, k, p0.general().len() as int);
        assert(frame_of(x) == run_start(offset, t@[i]) + k);
        assert(p1.general()[run_start(offset, t@[i]) + k]);
    }
}

impl LargeTable {
    /// Allocates `n_frames` contiguous frames from the PMM and records
    /// them in the first empty slot, returning their HHDM address. `None`
    /// (and nothing changes) if the table is full or the PMM has no such
    /// run.
    pub fn allocate(&mut self, n_frames: usize, pmm: &mut Pmm, hhdm: &Hhdm) -> (r: Option<u64>)
        requires
            old(self).wf(hhdm.offset),
            old(self).owned_by(old(pmm), hhdm.offset),
            old(pmm).wf(),
            free_frames_usable(old(pmm)),
            hhdm.offset + old(pmm).general().len() * 4096 <= u64::MAX,
            hhdm.offset % 4096 == 0,
            old(self).frames_owned() + n_frames <= usize::MAX,
        ensures
            final(self).wf(hhdm.offset),
            final(self).owned_by(final(pmm), hhdm.offset),
            final(pmm).wf(),
            free_frames_usable(final(pmm)),
            final(pmm).regions() == old(pmm).regions(),
            final(pmm).store() == old(pmm).store(),
            final(pmm).low() == old(pmm).low(),
            final(pmm).spec_low_reserved() == old(pmm).spec_low_reserved(),
            large_alloc_done(*old(self), *final(self), n_frames, hhdm.offset, old(pmm).general(), final(pmm).general(), r),
    {
        let mut slot: usize = 0;
        while slot < self.entries.len() && self.entries[slot].virt != 0
            invariant
                slot <= self.entries@.len(),
                self@ == old(self)@,
                self.entries@.len() == self@.len(),
                forall|j: int| 0 <= j < slot ==> old(self)@[j].0 != 0,
            decreases self.entries.len() - slot,
        {
            slot = slot + 1;
        }
        if slot == self.entries.len() {
            return None;
        }
        let ghost s0 = self@;
        let ghost p0 = *pmm;
        proof {
            let c = choose|i: int| 0 <= i < old(self)@.len() && old(self)@[i].0 == 0
                && forall|j: int| 0 <= j < i ==> old(self)@[j].0 != 0;
            assert(0 <= slot < old(self)@.len() && old(self)@[slot as int].0 == 0
                && forall|j: int| 0 <= j < slot ==> old(self)@[j].0 != 0);
            assert(c == slot as int) by {
                if c < slot { assert(old(self)@[c].0 != 0); }
                if c > slot { assert(old(self)@[slot as int].0 != 0); }
            }
            pmm.lemma_wf_facts();
        }
        let phys = match alloc_contiguous(pmm, n_frames, 1) {
            Some(p) => p.as_u64(),
            None => {
                proof {
                    assert forall|i: int, k: int| 0 <= i < self@.len() && (#[trigger] self@[i]).0 != 0 && 0 <= k < self@[i].1 implies {
                        &&& #[trigger] freeable(pmm, ((self@[i].0 - hhdm.offset) + k * 4096) as u64)
                        &&& pmm.low().len() <= run_start(hhdm.offset, self@[i]) + k < pmm.general().len()
                    } by {
                        assert(freeable(&p0, ((self@[i].0 - hhdm.offset) + k * 4096) as u64));
                    }
                }
                return None;
            },
        };
        let ghost f0 = frame_of(phys);
        proof {
            assert(lowest_free_run(p0.general(), f0, n_frames as int, 1));
            assert(f0 + n_frames <= p0.general().len());
            assert(!p0.general()[f0]);
            assert(f0 != 0);
            assert(phys > 0);
            assert(phys + n_frames * 4096 <= p0.general().len() * 4096) by (nonlinear_arith)
                requires phys == f0 * 4096, f0 + n_frames <= p0.general().len();
            lemma_usable_after_alloc(&p0, pmm);
        }
        let virt = phys + hhdm.offset;
        self.entries.set(slot, Entry { virt, frames: n_frames });
        proof {
            lemma_live_update(s0, slot as int, (virt, n_frames));
            lemma_live_bounds(s0);
            assert(self@ =~= s0.update(slot as int, (virt, n_frames)));
        }
        self.count = self.count + 1;
        self.total_frames = self.total_frames + n_frames;
        proof {
            assert forall|i: int| 0 <= i < self@.len() implies {
                let e = #[trigger] self@[i];
                &&& e.0 == 0 ==> e.1 == 0
                &&& e.0 != 0 ==> {
                    &&& e.0 >= hhdm.offset
                    &&& (e.0 - hhdm.offset) % 4096 == 0
                    &&& e.1 >= 1
                }
            } by {
                if i != slot { assert(self@[i] == s0[i]); }
            }
            assert(run_start(hhdm.offset, (virt, n_frames)) == f0);
            // Every other live run is used in p0, the new one was free.
            assert forall|i: int| 0 <= i < s0.len() && i != slot && (#[trigger] s0[i]).0 != 0
                implies run_start(hhdm.offset, s0[i]) + s0[i].1 <= f0 || f0 + n_frames <= run_start(hhdm.offset, s0[i]) by {
                let st = run_start(hhdm.offset, s0[i]);
                if !(st + s0[i].1 <= f0 || f0 + n_frames <= st) {
                    let g = if st >= f0 { st } else { f0 };
                    let k = g - st;
                    assert(0 <= k < s0[i].1);
                    assert(freeable(&p0, ((s0[i].0 - hhdm.offset) + k * 4096) as u64));
                    lemma_frame_step((s0[i].0 - hhdm.offset) as u64, k, p0.general().len() as int);
                    assert(p0.general()[g]);
                    assert(!p0.general()[g]);
                }
            }
            assert forall|i: int, j: int| 0 <= i < self@.len() && 0 <= j < self@.len() && i != j
                && (#[trigger] self@[i]).0 != 0 && (#[trigger] self@[j]).0 != 0
                implies run_start(hhdm.offset, self@[i]) + self@[i].1 <= run_start(hhdm.offset, self@[j])
                    || run_start(hhdm.offset, self@[j]) + self@[j].1 <= run_start(hhdm.offset, self@[i]) by {
                if i == slot {
                    assert(s0[j].0 != 0);
                } else if j == slot {
                    assert(s0[i].0 != 0);
                } else {
                    assert(self@[i] == s0[i] && self@[j] == s0[j]);
                }
            }
            assert forall|i: int, k: int| 0 <= i < self@.len() && (#[trigger] self@[i]).0 != 0 && 0 <= k < self@[i].1 implies {
                &&& #[trigger] freeable(pmm, ((self@[i].0 - hhdm.offset) + k * 4096) as u64)
                &&& pmm.low().len() <= run_start(hhdm.offset, self@[i]) + k < pmm.general().len()
            } by {
                let a = ((self@[i].0 - hhdm.offset) + k * 4096) as u64;
                if i == slot {
                    lemma_frame_step(phys, k, p0.general().len() as int);
                    assert(!p0.general()[f0 + k]);
                    assert(p0.usable_frame(f0 + k));
                } else {
                    assert(self@[i] == s0[i]);
                    assert(freeable(&p0, a));
                    lemma_frame_step((s0[i].0 - hhdm.offset) as u64, k, p0.general().len() as int);
                    assert(p0.general()[frame_of(a)]);
                }
            }
            assert(self.owned_by(pmm, hhdm.offset));
        }
        Some(virt)
    }

    /// Frees the large allocation at `virt` (a live entry of the table),
    /// giving its frames back to the PMM, and returns how many it held.
    pub fn free(&mut self, virt: u64, pmm: &mut Pmm, hhdm: &Hhdm) -> (r: usize)
        requires
            old(self).wf(hhdm.offset),
            old(self).owned_by(old(pmm), hhdm.offset),
            old(pmm).wf(),
            free_frames_usable(old(pmm)),
            hhdm.offset % 4096 == 0,
            virt != 0,
            exists|i: int| 0 <= i < old(self)@.len() && (#[trigger] old(self)@[i]).0 == virt,
        ensures
            final(self).wf(hhdm.offset),
            final(self).owned_by(final(pmm), hhdm.offset),
            final(pmm).wf(),
            free_frames_usable(final(pmm)),
            final(pmm).regions() == old(pmm).regions(),
            final(pmm).store() == old(pmm).store(),
            final(pmm).spec_low_reserved() == old(pmm).spec_low_reserved(),
            ({
                let i = choose|i: int| 0 <= i < old(self)@.len() && (#[trigger] old(self)@[i]).0 == virt;
                let phys = (virt - hhdm.offset) as u64;
                &&& r == old(self)@[i].1
                &&& final(self)@ == old(self)@.update(i, (0u64, 0usize))
                &&& final(self).live_objects() == old(self).live_objects() - 1
                &&& final(self).frames_owned() == old(self).frames_owned() - r
                &&& r >= 1
                &&& forall|j: int| 0 <= j < old(self)@.len() && (#[trigger] old(self)@[j]).0 == virt ==> j == i
                &&& final(pmm).general() == set_range(old(pmm).general(), frame_of(phys), r as int, false)
                &&& final(pmm).low() == old(pmm).low()
            }),
    {
        let ghost gi = choose|i: int| 0 <= i < old(self)@.len() && (#[trigger] old(self)@[i]).0 == virt;
        let ghost s0 = self@;
        let mut slot: usize = 0;
        proof {
            assert(self.entries@.len() == self.entries.len());
            assert forall|i: int| 0 <= i < s0.len() && s0[i].0 == virt implies i == gi by {
                if i != gi {
                    let a = s0[i];
                    let b = s0[gi];
                    assert(run_start(hhdm.offset, a) == run_start(hhdm.offset, b));
                    assert(a.1 >= 1 && b.1 >= 1);
                }
            }
        }
        while self.entries[slot].virt != virt
            invariant
                0 <= slot <= gi,
                0 <= gi < s0.len(),
                s0.len() <= usize::MAX,
                self@ == s0,
                self.entries@.len() == s0.len(),
                s0[gi].0 == virt,
                forall|i: int| 0 <= i < s0.len() && s0[i].0 == virt ==> i == gi,
            decreases gi - slot,
        {
            proof {
                assert(self@[slot as int].0 == self.entries@[slot as int].virt);
            }
            slot = slot + 1;
        }
        proof {
            assert(self@[slot as int].0 == virt);
        }
        let frames = self.entries[slot].frames;
        let ghost e = s0[gi];
        proof {
            assert(slot == gi);
            assert(e == (virt, frames));
            lemma_live_update(s0, gi, (0u64, 0usize));
            lemma_live_bounds(s0);
        }
        self.entries.set(slot, Entry { virt: 0, frames: 0 });
        proof {
            assert(self@ =~= s0.update(gi, (0u64, 0usize)));
        }
        self.count = self.count - 1;
        self.total_frames = self.total_frames - frames;
        let phys = virt - hhdm.offset;
        let ghost p0 = *pmm;
        proof {
            pmm.lemma_wf_facts();
            assert forall|k: int| 0 <= k < frames implies #[trigger] freeable(&p0, (phys + k * 4096) as u64) by {
                assert(freeable(&p0, ((s0[gi].0 - hhdm.offset) + k * 4096) as u64));
            }
            assert(pmm.low().len() <= run_start(hhdm.offset, e) + (frames - 1) < pmm.general().len()) by {
                assert(freeable(&p0, ((s0[gi].0 - hhdm.offset) + (frames - 1) * 4096) as u64));
            }
            assert(phys + frames * 4096 <= p0.general().len() * 4096) by (nonlinear_arith)
                requires phys == run_start(hhdm.offset, e) * 4096, run_start(hhdm.offset, e) + frames <= p0.general().len();
        }
        free_contiguous(pmm, PhysAddr::new(phys), frames);
        proof {
            assert(p0.low().len() <= run_start(hhdm.offset, e)) by {
                assert(freeable(&p0, ((s0[gi].0 - hhdm.offset) + 0 * 4096) as u64));
            }
            assert(set_range(p0.low(), frame_of(phys), frames as int, false) =~= p0.low());
            assert(set_range_above(p0.general(), frame_of(phys), frames as int, p0.low().len() as int)
                =~= set_range(p0.general(), frame_of(phys), frames as int, false));
            lemma_usable_after_free_run(&p0, pmm, phys, frames as int);
            assert forall|i: int| 0 <= i < self@.len() implies {
                let e2 = #[trigger] self@[i];
                &&& e2.0 == 0 ==> e2.1 == 0
                &&& e2.0 != 0 ==> {
                    &&& e2.0 >= hhdm.offset
                    &&& (e2.0 - hhdm.offset) % 4096 == 0
                    &&& e2.1 >= 1
                }
            } by {
                if i != gi { assert(self@[i] == s0[i]); }
            }
            assert forall|i: int, j: int| 0 <= i < self@.len() && 0 <= j < self@.len() && i != j
                && (#[trigger] self@[i]).0 != 0 && (#[trigger] self@[j]).0 != 0
                implies run_start(hhdm.offset, self@[i]) + self@[i].1 <= run_start(hhdm.offset, self@[j])
                    || run_start(hhdm.offset, self@[j]) + self@[j].1 <= run_start(hhdm.offset, self@[i]) by {
                assert(self@[i] == s0[i] && self@[j] == s0[j]);
            }
            assert forall|i: int, k: int| 0 <= i < self@.len() && (#[trigger] self@[i]).0 != 0 && 0 <= k < self@[i].1 implies {
                &&& #[trigger] freeable(pmm, ((self@[i].0 - hhdm.offset) + k * 4096) as u64)
                &&& pmm.low().len() <= run_start(hhdm.offset, self@[i]) + k < pmm.general().len()
            } by {
                assert(self@[i] == s0[i]);
                assert(i != gi);
                let a = ((s0[i].0 - hhdm.offset) + k * 4096) as u64;
                assert(freeable(&p0, a));
                lemma_frame_step((s0[i].0 - hhdm.offset) as u64, k, p0.general().len() as int);
                assert(s0[gi].0 != 0);
                assert(run_start(hhdm.offset, s0[i]) + s0[i].1 <= run_start(hhdm.offset, s0[gi])
                    || run_start(hhdm.offset, s0[gi]) + s0[gi].1 <= run_start(hhdm.offset, s0[i]));
            }
        }
        frames
    }
}

} // verus!
