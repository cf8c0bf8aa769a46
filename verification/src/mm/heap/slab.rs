//! The size-class (slab) allocator for small requests: objects of 16, 32,
//! 64, 128, 256, 512, 1024 or 2048 bytes carved out of 4 KiB frames from
//! the PMM, addressed through the HHDM. Each slab frame starts with a
//! header, followed by tightly packed object slots; its free slots form a
//! stack (the most recently freed slot is handed out first). A class keeps
//! its slabs newest first; a slab whose objects are all free again is
//! unlinked and its frame handed back to the PMM.
use vstd::prelude::*;
use crate::mm::addr::PhysAddr;
use crate::mm::hhdm::Hhdm;
use crate::mm::pmm::{Pmm, alloc_frame, free_frame, lowest_free, frame_of, freeable, free_frames_usable,
    lemma_usable_after_alloc, lemma_usable_after_free};

verus! {

/// How many size classes there are.
pub const NUM_CLASSES: usize = 8;
/// The largest size a slab class serves.
pub const MAX_SLAB_SIZE: usize = 2048;
/// Bytes of the per-slab header at the start of every slab frame.
pub const SLAB_HEADER_SIZE: usize = 72;

/// The object size of class `idx`: 16 << idx.
pub open spec fn class_size_spec(idx: int) -> int {
    if idx == 0 { 16 } else if idx == 1 { 32 } else if idx == 2 { 64 } else if idx == 3 { 128 }
    else if idx == 4 { 256 } else if idx == 5 { 512 } else if idx == 6 { 1024 } else { 2048 }
}

/// Where a class's first object slot starts: the header rounded up to a
/// whole slot.
pub open spec fn area_offset(idx: int) -> int {
    let cs = class_size_spec(idx);
    ((SLAB_HEADER_SIZE + cs - 1) / cs) * cs
}

/// How many objects of class `idx` fit in one slab after the header.
pub open spec fn capacity(idx: int) -> int {
    (4096 - area_offset(idx)) / class_size_spec(idx)
}

/// The address of slot `s` of the slab in frame `phys`.
pub open spec fn obj_addr(offset: u64, phys: u64, idx: int, s: int) -> int {
    offset + phys + area_offset(idx) + s * class_size_spec(idx)
}

/// The object size of class `idx`.
pub fn class_size(idx: usize) -> (r: usize)
    requires
        idx < NUM_CLASSES,
    ensures
        r == class_size_spec(idx as int),
{
    match idx {
        0 => 16,
        1 => 32,
        2 => 64,
        3 => 128,
        4 => 256,
        5 => 512,
        6 => 1024,
        _ => 2048,
    }
}

/// Byte offset of the first object slot within a slab of class `idx`.
fn object_area_offset(idx: usize) -> (r: usize)
    requires
        idx < NUM_CLASSES,
    ensures
        r == area_offset(idx as int),
        r < 4096,
{
    let cs = class_size(idx);
    assert(((SLAB_HEADER_SIZE + cs - 1) as int) / (cs as int) * (cs as int) <= SLAB_HEADER_SIZE + cs - 1) by (nonlinear_arith)
        requires cs > 0;
    (SLAB_HEADER_SIZE + cs - 1) / cs * cs
}

/// How many class-`idx` objects fit in one slab.
fn capacity_for(idx: usize) -> (r: u32)
    requires
        idx < NUM_CLASSES,
    ensures
        r == capacity(idx as int),
        1 <= r <= 251,
{
    let cs = class_size(idx);
    ((4096 - object_area_offset(idx)) / cs) as u32
}

/// The smallest class whose objects hold `required` bytes (`required` is
/// already the larger of size and alignment, at most `MAX_SLAB_SIZE`).
pub fn class_index_for(required: usize) -> (r: usize)
    requires
        1 <= required <= MAX_SLAB_SIZE,
    ensures
        r < NUM_CLASSES,
        class_size_spec(r as int) >= required,
        r == 0 || class_size_spec(r - 1) < required,
{
    let mut idx: usize = 0;
    while class_size(idx) < required
        invariant
            idx < NUM_CLASSES,
            idx == 0 || class_size_spec(idx - 1) < required,
            required <= MAX_SLAB_SIZE,
        decreases NUM_CLASSES - idx,
    {
        idx = idx + 1;
    }
    idx
}

/// One slab: the frame it lives in and its free slots, most recently freed
/// last.
pub struct Slab {
    phys: u64,
    free: Vec<u32>,
}

/// Every live slab of one size class, newest first.
pub struct ClassState {
    slabs: Vec<Slab>,
}

/// What `alloc_object` did.
#[derive(Clone, Copy, PartialEq, Eq, Structural, Debug)]
pub struct AllocOutcome {
    /// The object's (HHDM) address.
    pub ptr: u64,
    /// Whether a fresh slab was carved out for it.
    pub new_slab: bool,
}

/// A fresh slab's free stack: every slot, slot 0 on top.
pub open spec fn fresh_free(cap: int) -> Seq<u32> {
    Seq::new(cap as nat, |i: int| (cap - 1 - i) as u32)
}

/// The first slab (newest first) with a free slot.
pub open spec fn first_with_free(v: Seq<(u64, Seq<u32>)>, i: int) -> bool {
    &&& 0 <= i < v.len()
    &&& v[i].1.len() > 0
    &&& forall|j: int| 0 <= j < i ==> v[j].1.len() == 0
}

/// Slot `s` of slab `i` is handed out.
pub open spec fn live_slot(v: Seq<(u64, Seq<u32>)>, idx: int, i: int, s: int) -> bool {
    &&& 0 <= i < v.len()
    &&& 0 <= s < capacity(idx)
    &&& !v[i].1.contains(s as u32)
}

impl View for ClassState {
    type V = Seq<(u64, Seq<u32>)>;

    /// Each slab's frame and free-slot stack, newest slab first.
    closed spec fn view(&self) -> Seq<(u64, Seq<u32>)> {
        Seq::new(self.slabs@.len(), |i: int| (self.slabs@[i].phys, self.slabs@[i].free@))
    }
}

impl ClassState {
    /// A class with no slabs.
    pub fn new() -> (r: Self)
        ensures
            r@ == Seq::<(u64, Seq<u32>)>::empty(),
    {
        let r = ClassState { slabs: Vec::new() };
        assert(r@ =~= Seq::<(u64, Seq<u32>)>::empty());
        r
    }

    /// The slabs of class `idx` are sound: frames page aligned, distinct
    /// and addressable through the HHDM at `offset`; free stacks hold
    /// distinct slots of the slab; and every slab has a live object.
    pub open spec fn wf(&self, idx: int, offset: u64) -> bool {
        &&& forall|i: int| 0 <= i < self@.len() ==> {
            let (phys, free) = #[trigger] self@[i];
            &&& phys % 4096 == 0
            &&& offset + phys + 4096 <= u64::MAX
            &&& free.len() < capacity(idx)
            &&& free.no_duplicates()
            &&& forall|k: int| 0 <= k < free.len() ==> (free[k] as int) < capacity(idx)
        }
        &&& forall|i: int, j: int| 0 <= i < j < self@.len() ==> (#[trigger] self@[i]).0 != (#[trigger] self@[j]).0
    }

    /// Every slab frame is a used frame of the PMM's general pool that can
    /// be freed back to it.
    pub open spec fn owned_by(&self, pmm: &Pmm) -> bool {
        forall|i: int| 0 <= i < self@.len() ==> freeable(pmm, (#[trigger] self@[i]).0)
            && pmm.low().len() <= frame_of(self@[i].0) < pmm.general().len()
    }
}

/// A used frame stays freeable while the PMM only marks more frames used.
pub proof fn lemma_owned_after_alloc(c: &ClassState, p0: &Pmm, p1: &Pmm)
    requires
        c.owned_by(p0),
        p1.general().len() == p0.general().len(),
        p1.low() == p0.low(),
        p1.regions() == p0.regions(),
        p1.store() == p0.store(),
        forall|f: int| 0 <= f < p0.general().len() && p0.general()[f] ==> #[trigger] p1.general()[f],
    ensures
        c.owned_by(p1),
{
    assert forall|i: int| 0 <= i < c@.len() implies freeable(p1, (#[trigger] c@[i]).0)
        && p1.low().len() <= frame_of(c@[i].0) < p1.general().len() by {
        assert(freeable(p0, c@[i].0));
        assert(p0.general()[frame_of(c@[i].0)]);
    }
}

/// A class keeps owning its slabs in a PMM (with the same low pool,
/// regions and storage) where every slab frame is still used.
pub proof fn lemma_owned_keep(c: &ClassState, p0: &Pmm, p1: &Pmm)
    requires
        c.owned_by(p0),
        p1.general().len() == p0.general().len(),
        p1.low() == p0.low(),
        p1.regions() == p0.regions(),
        p1.store() == p0.store(),
        forall|i: int| #![trigger c@[i]] 0 <= i < c@.len() ==> p1.general()[frame_of(c@[i].0)],
    ensures
        c.owned_by(p1),
{
    assert forall|i: int| 0 <= i < c@.len() implies freeable(p1, (#[trigger] c@[i]).0)
        && p1.low().len() <= frame_of(c@[i].0) < p1.general().len() by {
        assert(freeable(p0, c@[i].0));
    }
}

/// What `alloc_object` does to the slabs `v0` of class `idx` (becoming
/// `v1`) and the general pool `g0` (becoming `g1`), and returns: with a
/// free slot in some slab, the most recently freed slot of the newest such
/// slab; else, with a free frame, slot 0 of a fresh slab in front, carved
/// out of the lowest free frame; else nothing.
pub open spec fn slab_alloc_done(v0: Seq<(u64, Seq<u32>)>, v1: Seq<(u64, Seq<u32>)>, idx: int, offset: u64,
    g0: Seq<bool>, g1: Seq<bool>, r: Option<AllocOutcome>) -> bool {
    &&& (exists|i: int| first_with_free(v0, i)) ==> {
        let i = choose|i: int| first_with_free(v0, i);
        let (phys, free) = v0[i];
        &&& r == Some(AllocOutcome { ptr: obj_addr(offset, phys, idx, free.last() as int) as u64, new_slab: false })
        &&& v1 == v0.update(i, (phys, free.drop_last()))
        &&& g1 == g0
    }
    &&& !(exists|i: int| first_with_free(v0, i)) ==> match r {
        None => {
            &&& v1 == v0
            &&& g1 == g0
            &&& forall|f: int| 0 <= f < g0.len() ==> g0[f]
        },
        Some(o) => {
            let phys = (o.ptr - offset - area_offset(idx)) as u64;
            &&& o.new_slab
            &&& phys % 4096 == 0
            &&& lowest_free(g0, frame_of(phys))
            &&& g1 == g0.update(frame_of(phys), true)
            &&& v1 == seq![(phys, fresh_free(capacity(idx)).drop_last())] + v0
            &&& o.ptr == obj_addr(offset, phys, idx, 0)
        },
    }
}

/// Allocates one object of class `idx`: from the newest slab with a free
/// slot (its most recently freed slot), else from a fresh slab carved out
/// of a new PMM frame (its slot 0). `None` if a fresh slab was needed and
/// the PMM had no free frame.
pub fn alloc_object(class: &mut ClassState, idx: usize, pmm: &mut Pmm, hhdm: &Hhdm) -> (r: Option<AllocOutcome>)
    requires
        idx < NUM_CLASSES,
        old(class).wf(idx as int, hhdm.offset),
        old(pmm).wf(),
        old(class).owned_by(old(pmm)),
        free_frames_usable(old(pmm)),
        hhdm.offset + old(pmm).general().len() * 4096 <= u64::MAX,
    ensures
        final(class).wf(idx as int, hhdm.offset),
        final(pmm).wf(),
        final(class).owned_by(final(pmm)),
        free_frames_usable(final(pmm)),
        final(pmm).regions() == old(pmm).regions(),
        final(pmm).store() == old(pmm).store(),
        final(pmm).low() == old(pmm).low(),
        final(pmm).spec_low_reserved() == old(pmm).spec_low_reserved(),
        slab_alloc_done(old(class)@, final(class)@, idx as int, hhdm.offset, old(pmm).general(), final(pmm).general(), r),
{
    let cs = class_size(idx);
    let offset = object_area_offset(idx);
    let mut i: usize = 0;
    while i < class.slabs.len()
        invariant
            0 <= i <= class@.len(),
            forall|j: int| 0 <= j < i ==> class@[j].1.len() == 0,
            class@ == old(class)@,
            class.slabs@.len() == class@.len(),
            idx < NUM_CLASSES,
            cs == class_size_spec(idx as int),
            offset == area_offset(idx as int),
            offset < 4096,
            old(class).wf(idx as int, hhdm.offset),
            old(pmm).wf(),
            old(class).owned_by(old(pmm)),
            free_frames_usable(old(pmm)),
        decreases class.slabs.len() - i,
    {
        if class.slabs[i].free.len() > 0 {
            let ghost v0 = class@;
            proof {
                assert(first_with_free(v0, i as int));
                let c = choose|c: int| first_with_free(v0, c);
                assert(c == i as int) by {
                    if c < i { assert(v0[c].1.len() == 0); }
                    if c > i { assert(v0[i as int].1.len() == 0); }
                }
                assert(class@[i as int] == (class.slabs@[i as int].phys, class.slabs@[i as int].free@));
            }
            let mut slab = class.slabs.remove(i);
            let slot = slab.free.pop().unwrap();
            let phys = slab.phys;
            class.slabs.insert(i, slab);
            proof {
                let (p, free) = v0[i as int];
                assert(free.last() == slot);
                assert((free[free.len() - 1] as int) < capacity(idx as int));
                assert(0 <= slot < capacity(idx as int));
                assert(class@ =~= v0.update(i as int, (phys, free.drop_last())));
                assert forall|a: int| 0 <= a < class@.len() implies {
                    let (ph, fr) = #[trigger] class@[a];
                    &&& ph % 4096 == 0
                    &&& hhdm.offset + ph + 4096 <= u64::MAX
                    &&& fr.len() < capacity(idx as int)
                    &&& fr.no_duplicates()
                    &&& forall|k: int| 0 <= k < fr.len() ==> (fr[k] as int) < capacity(idx as int)
                } by {
                    if a == i as int {
                        assert(v0[a].1.no_duplicates());
                        assert(v0[a].1.drop_last().no_duplicates()) by {
                            assert forall|x: int, y: int| 0 <= x < y < v0[a].1.drop_last().len()
                                implies v0[a].1.drop_last()[x] != v0[a].1.drop_last()[y] by {
                                assert(v0[a].1[x] != v0[a].1[y]);
                            }
                        }
                        assert forall|k: int| 0 <= k < v0[a].1.drop_last().len()
                            implies (v0[a].1.drop_last()[k] as int) < capacity(idx as int) by {
                            assert(v0[a].1[k] == v0[a].1.drop_last()[k]);
                        }
                    }
                }
                assert forall|a: int, b: int| 0 <= a < b < class@.len() implies (#[trigger] class@[a]).0 != (#[trigger] class@[b]).0 by {
                    assert(v0[a].0 != v0[b].0);
                }
                assert(class.owned_by(pmm)) by {
                    assert forall|a: int| 0 <= a < class@.len() implies freeable(pmm, (#[trigger] class@[a]).0)
                        && pmm.low().len() <= frame_of(class@[a].0) < pmm.general().len() by {
                        assert(class@[a].0 == v0[a].0);
                    }
                }
                assert(offset + slot * cs <= 4096) by (nonlinear_arith)
                    requires slot < capacity(idx as int), offset == area_offset(idx as int), cs == class_size_spec(idx as int),
                        capacity(idx as int) == (4096 - offset as int) / (cs as int), cs > 0, offset < 4096;
            }
            let ptr = hhdm.offset + phys + offset as u64 + slot as u64 * cs as u64;
            return Some(AllocOutcome { ptr, new_slab: false });
        }
        i = i + 1;
    }
    proof {
        assert(!(exists|c: int| first_with_free(old(class)@, c))) by {
            if exists|c: int| first_with_free(old(class)@, c) {
                let c = choose|c: int| first_with_free(old(class)@, c);
                assert(old(class)@[c].1.len() == 0);
            }
        }
        pmm.lemma_wf_facts();
    }
    let ghost p0 = *pmm;
    let frame = alloc_frame(pmm);
    let phys = match frame {
        Some(p) => p.as_u64(),
        None => return None,
    };
    proof {
        let f = frame_of(phys);
        assert(lowest_free(p0.general(), f));
        assert(p0.usable_frame(f) && f >= p0.low().len() && f != 0);
        lemma_usable_after_alloc(&p0, pmm);
        lemma_owned_after_alloc(class, &p0, pmm);
        assert forall|a: int| 0 <= a < class@.len() implies (#[trigger] class@[a]).0 != phys by {
            assert(freeable(&p0, class@[a].0));
            if class@[a].0 == phys {
                assert(p0.general()[f]);
            }
        }
        assert(phys < p0.general().len() * 4096) by (nonlinear_arith)
            requires f < p0.general().len(), phys == f * 4096;
    }
    let cap = capacity_for(idx);
    let mut free: Vec<u32> = Vec::new();
    let mut k: u32 = cap;
    while k > 1
        invariant
            1 <= k <= cap,
            cap == capacity(idx as int),
            free@ == Seq::new((cap - k) as nat, |j: int| (cap - 1 - j) as u32),
        decreases k,
    {
        k = k - 1;
        free.push(k);
        proof {
            assert(free@ =~= Seq::new((cap - k) as nat, |j: int| (cap - 1 - j) as u32));
        }
    }
    proof {
        assert(free@ =~= fresh_free(cap as int).drop_last());
    }
    let ghost v0 = class@;
    class.slabs.insert(0, Slab { phys, free });
    proof {
        let fr = fresh_free(cap as int).drop_last();
        assert(class@ =~= seq![(phys, fr)] + v0);
        assert(fr.no_duplicates());
        assert forall|a: int| 0 <= a < class@.len() implies {
            let (ph, fre) = #[trigger] class@[a];
            &&& ph % 4096 == 0
            &&& hhdm.offset + ph + 4096 <= u64::MAX
            &&& fre.len() < capacity(idx as int)
            &&& fre.no_duplicates()
            &&& forall|k: int| 0 <= k < fre.len() ==> (fre[k] as int) < capacity(idx as int)
        } by {
            if a > 0 {
                assert(class@[a] == v0[a - 1]);
            }
        }
        assert forall|a: int, b: int| 0 <= a < b < class@.len() implies (#[trigger] class@[a]).0 != (#[trigger] class@[b]).0 by {
            if a > 0 {
                assert(class@[a] == v0[a - 1]);
                assert(class@[b] == v0[b - 1]);
            } else {
                assert(class@[b] == v0[b - 1]);
            }
        }
        assert forall|a: int| 0 <= a < class@.len() implies freeable(pmm, (#[trigger] class@[a]).0)
            && pmm.low().len() <= frame_of(class@[a].0) < pmm.general().len() by {
            if a > 0 {
                assert(class@[a] == v0[a - 1]);
            } else {
                assert(pmm.general()[frame_of(phys)]);
            }
        }
    }
    let ptr = hhdm.offset + phys + object_area_offset(idx) as u64;
    Some(AllocOutcome { ptr, new_slab: true })
}

/// An object address pins down its slab and slot: the slab frame is the
/// page the address lies in, and the slot is its offset into the object
/// area in whole objects.
proof fn lemma_obj_addr_unique(offset: u64, phys: u64, idx: int, slot: int)
    requires
        0 <= idx < 8,
        offset % 4096 == 0,
        phys % 4096 == 0,
        0 <= slot < capacity(idx),
    ensures
        area_offset(idx) + slot * class_size_spec(idx) + class_size_spec(idx) <= 4096,
        obj_addr(offset, phys, idx, slot) % 4096 == area_offset(idx) + slot * class_size_spec(idx),
        obj_addr(offset, phys, idx, slot) - obj_addr(offset, phys, idx, slot) % 4096 == offset + phys,
        (obj_addr(offset, phys, idx, slot) - (offset + phys) - area_offset(idx)) / class_size_spec(idx) == slot,
{
    let cs = class_size_spec(idx);
    let ao = area_offset(idx);
    let cap = capacity(idx);
    assert(ao < 4096 && cs > 0 && ao % cs == 0);
    assert(slot * cs + cs <= 4096 - ao) by (nonlinear_arith)
        requires slot < cap, cap == (4096 - ao) / cs, cs > 0, ao < 4096;
    assert(slot * cs >= 0) by (nonlinear_arith) requires slot >= 0, cs > 0;
    let k = (offset + phys) / 4096;
    assert(offset + phys == k * 4096);
    assert((k * 4096 + (ao + slot * cs)) % 4096 == ao + slot * cs) by (nonlinear_arith)
        requires 0 <= ao + slot * cs < 4096, k >= 0;
    assert((slot * cs) / cs == slot) by (nonlinear_arith) requires cs > 0;
}

/// Frees an object `alloc_object` handed out from one of this class's
/// slabs: its slot goes back on top of the slab's free stack. If that
/// leaves the slab with no live object, the slab is unlinked and its frame
/// freed back to the PMM, and the result is `true`.
pub fn free_object(class: &mut ClassState, ptr: u64, idx: usize, pmm: &mut Pmm, hhdm: &Hhdm) -> (r: bool)
    requires
        idx < NUM_CLASSES,
        hhdm.offset % 4096 == 0,
        old(class).wf(idx as int, hhdm.offset),
        old(pmm).wf(),
        old(class).owned_by(old(pmm)),
        free_frames_usable(old(pmm)),
        exists|i: int, s: int| #[trigger] live_slot(old(class)@, idx as int, i, s)
            && ptr == obj_addr(hhdm.offset, old(class)@[i].0, idx as int, s),
    ensures
        final(class).wf(idx as int, hhdm.offset),
        final(pmm).wf(),
        final(class).owned_by(final(pmm)),
        free_frames_usable(final(pmm)),
        final(pmm).regions() == old(pmm).regions(),
        final(pmm).store() == old(pmm).store(),
        final(pmm).low() == old(pmm).low(),
        final(pmm).spec_low_reserved() == old(pmm).spec_low_reserved(),
        ({
            let (i, s) = choose|i: int, s: int| #[trigger] live_slot(old(class)@, idx as int, i, s)
                && ptr == obj_addr(hhdm.offset, old(class)@[i].0, idx as int, s);
            let (phys, free) = old(class)@[i];
            if free.len() + 1 == capacity(idx as int) {
                &&& r
                &&& final(class)@ == old(class)@.remove(i)
                &&& final(pmm).general() == old(pmm).general().update(frame_of(phys), false)
            } else {
                &&& !r
                &&& final(class)@ == old(class)@.update(i, (phys, free.push(s as u32)))
                &&& final(pmm).general() == old(pmm).general()
            }
        }),
{
    let ghost v0 = class@;
    let ghost (gi, gs) = choose|i: int, s: int| #[trigger] live_slot(old(class)@, idx as int, i, s)
        && ptr == obj_addr(hhdm.offset, old(class)@[i].0, idx as int, s);
    proof {
        lemma_obj_addr_unique(hhdm.offset, v0[gi].0, idx as int, gs);
        assert(ptr & !0xfffu64 == ptr - ptr % 4096) by (bit_vector);
    }
    let slab_base = ptr & !0xfff;
    let phys = slab_base - hhdm.offset;
    let cs = class_size(idx);
    let slot = ((ptr - slab_base) as usize - object_area_offset(idx)) / cs;
    let mut i: usize = 0;
    proof {
        assert(class.slabs@.len() == class.slabs.len());
    }
    while class.slabs[i].phys != phys
        invariant
            0 <= i <= gi,
            class@ == v0,
            v0 == old(class)@,
            class.slabs@.len() == v0.len(),
            0 <= gi < v0.len(),
            v0.len() <= usize::MAX,
            v0[gi].0 == phys,
        decreases gi - i,
    {
        proof {
            assert(class@[i as int].0 == class.slabs@[i as int].phys);
            if i == gi {
                assert(false);
            }
        }
        i = i + 1;
    }
    proof {
        assert(class@[i as int].0 == phys);
        if i != gi {
            assert(v0[i as int].0 != v0[gi].0);
        }
        assert(i == gi);
        assert(slot == gs);
    }
    let mut slab = class.slabs.remove(i);
    slab.free.push(slot as u32);
    let now_free = slab.free.len();
    let total = capacity_for(idx) as usize;
    if now_free != total {
        class.slabs.insert(i, slab);
        proof {
            let (p, fr) = v0[gi];
            assert(class@ =~= v0.update(gi, (p, fr.push(gs as u32))));
            assert(fr.no_duplicates());
            let pushed = fr.push(gs as u32);
            assert(pushed.no_duplicates()) by {
                assert forall|x: int, y: int| 0 <= x < pushed.len() && 0 <= y < pushed.len() && x != y
                    implies #[trigger] pushed[x] != #[trigger] pushed[y] by {
                    if x == fr.len() {
                        assert(fr[y] != gs as u32) by {
                            if fr[y] == gs as u32 { assert(fr.contains(gs as u32)); }
                        }
                    }
                    if y == fr.len() {
                        assert(fr[x] != gs as u32) by {
                            if fr[x] == gs as u32 { assert(fr.contains(gs as u32)); }
                        }
                    }
                }
            }
            assert forall|a: int| 0 <= a < class@.len() implies {
                let (ph, fre) = #[trigger] class@[a];
                &&& ph % 4096 == 0
                &&& hhdm.offset + ph + 4096 <= u64::MAX
                &&& fre.len() < capacity(idx as int)
                &&& fre.no_duplicates()
                &&& forall|k: int| 0 <= k < fre.len() ==> (fre[k] as int) < capacity(idx as int)
            } by {
                if a == gi {
                    assert forall|k: int| 0 <= k < pushed.len()
                        implies (#[trigger] pushed[k] as int) < capacity(idx as int) by {
                        if k < fr.len() { assert(fr[k] == pushed[k]); }
                    }
                } else {
                    assert(class@[a] == v0[a]);
                }
            }
            assert forall|a: int, b: int| 0 <= a < b < class@.len() implies (#[trigger] class@[a]).0 != (#[trigger] class@[b]).0 by {
                assert(class@[a].0 == v0[a].0 && class@[b].0 == v0[b].0);
            }
            assert forall|a: int| 0 <= a < class@.len() implies freeable(pmm, (#[trigger] class@[a]).0)
                && pmm.low().len() <= frame_of(class@[a].0) < pmm.general().len() by {
                assert(class@[a].0 == v0[a].0);
            }
        }
        return false;
    }
    proof {
        assert(class@ =~= v0.remove(gi));
        assert(freeable(pmm, phys));
    }
    let ghost p0 = *pmm;
    free_frame(pmm, PhysAddr::new(phys));
    proof {
        lemma_usable_after_free(&p0, pmm, phys);
        assert forall|a: int| 0 <= a < class@.len() implies {
            let (ph, fre) = #[trigger] class@[a];
            &&& ph % 4096 == 0
            &&& hhdm.offset + ph + 4096 <= u64::MAX
            &&& fre.len() < capacity(idx as int)
            &&& fre.no_duplicates()
            &&& forall|k: int| 0 <= k < fre.len() ==> (fre[k] as int) < capacity(idx as int)
        } by {
            if a < gi { assert(class@[a] == v0[a]); } else { assert(class@[a] == v0[a + 1]); }
        }
        assert forall|a: int, b: int| 0 <= a < b < class@.len() implies (#[trigger] class@[a]).0 != (#[trigger] class@[b]).0 by {
            let a0 = if a < gi { a } else { a + 1 };
            let b0 = if b < gi { b } else { b + 1 };
            assert(class@[a] == v0[a0] && class@[b] == v0[b0]);
        }
        assert forall|a: int| 0 <= a < class@.len() implies freeable(pmm, (#[trigger] class@[a]).0)
            && pmm.low().len() <= frame_of(class@[a].0) < pmm.general().len() by {
            let a0 = if a < gi { a } else { a + 1 };
            assert(class@[a] == v0[a0]);
            assert(freeable(&p0, v0[a0].0));
            assert(v0[a0].0 != phys);
            assert(frame_of(v0[a0].0) != frame_of(phys));
        }
    }
    true
}

} // verus!
