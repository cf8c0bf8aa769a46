//! The physical memory manager: a frame-granularity bitmap built from the
//! boot memory map, handing out and reclaiming 4 KiB physical frames, plus
//! a separate pool for real-mode-addressable frames below 1 MiB.
use vstd::prelude::*;
use super::addr::PhysAddr;
use super::bitmap::{FrameBitmap, free_count, run_free};

verus! {

broadcast use super::bitmap::lemma_view_len;

/// Boot memory-map entry types (the Limine numbering).
pub const MEMMAP_USABLE: u64 = 0;
pub const MEMMAP_RESERVED: u64 = 1;
pub const MEMMAP_ACPI_RECLAIMABLE: u64 = 2;
pub const MEMMAP_ACPI_NVS: u64 = 3;
pub const MEMMAP_BAD_MEMORY: u64 = 4;
pub const MEMMAP_BOOTLOADER_RECLAIMABLE: u64 = 5;
pub const MEMMAP_EXECUTABLE_AND_MODULES: u64 = 6;
pub const MEMMAP_FRAMEBUFFER: u64 = 7;
pub const MEMMAP_MAPPED_RESERVED: u64 = 8;

/// How many USABLE regions `for_each_usable_region` remembers.
pub const MAX_USABLE_REGIONS: usize = 64;

/// Real-mode-addressable memory: frames below here form the separate
/// `alloc_frame_low` pool.
pub const LOW_MEM_LIMIT: u64 = 0x10_0000;
pub const LOW_MEM_FRAME_COUNT: usize = 256;

/// One boot memory-map entry: `[base, base + length)` of type `type_`.
#[derive(Clone, Copy, PartialEq, Eq, Structural, Debug)]
pub struct MemmapEntry {
    pub base: u64,
    pub length: u64,
    pub type_: u64,
}

/// Frame counts, in frames.
#[derive(Clone, Copy, PartialEq, Eq, Structural, Debug)]
pub struct PmmStats {
    pub total: usize,
    pub used: usize,
    pub free: usize,
    /// How many of `total`'s frames below 1 MiB were moved to the low pool.
    pub low_reserved: usize,
}

pub open spec fn is_usable(e: MemmapEntry) -> bool {
    e.type_ == MEMMAP_USABLE
}

/// The highest end address of any USABLE entry among the first `n`.
pub open spec fn highest_end(entries: Seq<MemmapEntry>, n: int) -> int
    decreases n,
{
    if n <= 0 {
        0
    } else {
        let prev = highest_end(entries, n - 1);
        let e = entries[n - 1];
        if is_usable(e) && e.base + e.length > prev { e.base + e.length } else { prev }
    }
}

/// Frames the general bitmap covers.
pub open spec fn spec_total_frames(entries: Seq<MemmapEntry>) -> int {
    highest_end(entries, entries.len() as int) / 4096
}

/// Bytes of bitmap storage `init` needs.
pub open spec fn spec_bitmap_bytes(entries: Seq<MemmapEntry>) -> int {
    ((spec_total_frames(entries) + 63) / 64) * 8
}

/// Entry `i` may hold the bitmap: USABLE, at or above 1 MiB, big enough.
pub open spec fn bitmap_candidate(entries: Seq<MemmapEntry>, i: int) -> bool {
    &&& 0 <= i < entries.len()
    &&& is_usable(entries[i])
    &&& entries[i].base >= LOW_MEM_LIMIT
    &&& entries[i].length >= spec_bitmap_bytes(entries)
}

/// Entry `i` is where `init` places the bitmap: the longest candidate,
/// the last one among equally long ones.
pub open spec fn bitmap_choice(entries: Seq<MemmapEntry>, i: int) -> bool {
    &&& bitmap_candidate(entries, i)
    &&& forall|j: int| bitmap_candidate(entries, j) ==> entries[j].length <= entries[i].length
    &&& forall|j: int| i < j && bitmap_candidate(entries, j) ==> entries[j].length < entries[i].length
}

/// Whether frame `f` lies wholly inside USABLE entry `j`.
pub open spec fn frame_in_entry(entries: Seq<MemmapEntry>, j: int, f: int) -> bool {
    &&& is_usable(entries[j])
    &&& entries[j].base / 4096 <= f < (entries[j].base + entries[j].length) / 4096
}

/// Whether frame `f` lies inside some USABLE entry.
pub open spec fn frame_in_usable(entries: Seq<MemmapEntry>, f: int) -> bool {
    exists|j: int| 0 <= j < entries.len() && frame_in_entry(entries, j, f)
}

/// The entries `init` accepts: USABLE entries page-aligned, nothing
/// overflowing, some USABLE memory, and a region that can hold the bitmap.
pub open spec fn memmap_ok(entries: Seq<MemmapEntry>) -> bool {
    &&& forall|j: int| 0 <= j < entries.len() ==> entries[j].base + entries[j].length <= u64::MAX
    &&& forall|j: int| 0 <= j < entries.len() && is_usable(entries[j]) ==> entries[j].base % 4096 == 0 && entries[j].length % 4096 == 0
    &&& spec_total_frames(entries) > 0
    &&& highest_end(entries, entries.len() as int) <= 0x10_0000_0000_0000
    &&& spec_total_frames(entries) + 63 <= usize::MAX
    &&& entries.len() <= usize::MAX / 256
    &&& exists|i: int| bitmap_candidate(entries, i)
}

/// The USABLE entries, as `(base, length)` pairs, in order.
pub open spec fn usable_pairs(entries: Seq<MemmapEntry>) -> Seq<(u64, u64)>
    decreases entries.len(),
{
    if entries.len() == 0 {
        Seq::empty()
    } else {
        let rest = usable_pairs(entries.drop_last());
        let e = entries.last();
        if is_usable(e) { rest.push((e.base, e.length)) } else { rest }
    }
}

/// The number of frames USABLE entries contribute below `low_count`.
pub open spec fn low_contribution(entries: Seq<MemmapEntry>, low_count: int) -> int
    decreases entries.len(),
{
    if entries.len() == 0 {
        0
    } else {
        let e = entries.last();
        let s = e.base / 4096;
        let t = if (e.base + e.length) / 4096 < low_count { (e.base + e.length) / 4096 } else { low_count };
        low_contribution(entries.drop_last(), low_count) + if is_usable(e) && s < t { t - s } else { 0 }
    }
}

pub struct Pmm {
    bitmap: FrameBitmap,
    bitmap_base: PhysAddr,
    bitmap_bytes: usize,
    low_bitmap: FrameBitmap,
    low_reserved: usize,
    usable_regions: Vec<(u64, u64)>,
}

impl Pmm {
    pub closed spec fn wf(&self) -> bool {
        &&& self.bitmap.wf()
        &&& self.low_bitmap.wf()
        &&& self.bitmap.spec_base() == 0
        &&& self.low_bitmap.spec_base() == 0
        &&& self.bitmap.spec_count() > 0
        &&& self.bitmap.spec_count() * 4096 <= 0x10_0000_0000_0000
        &&& forall|f: int| 0 <= f < self.low_bitmap.spec_count() ==> self.bitmap@[f]
        &&& self.low_bitmap.spec_count() <= self.bitmap.spec_count()
        &&& self.low_bitmap.spec_count() <= LOW_MEM_FRAME_COUNT
        &&& self.bitmap_base.0 + self.bitmap_bytes <= u64::MAX
        &&& self.usable_regions@.len() <= MAX_USABLE_REGIONS
        &&& forall|k: int| 0 <= k < self.usable_regions@.len() ==>
            self.usable_regions@[k].0 + self.usable_regions@[k].1 <= self.bitmap.spec_count() * 4096
        &&& forall|f: int| 0 <= f < self.bitmap.spec_count() && !#[trigger] self.bitmap@[f] ==> {
            &&& f >= self.low_bitmap.spec_count()
            &&& f != 0
            &&& !(self.bitmap_base.0 <= f * 4096 < self.bitmap_base.0 + self.bitmap_bytes)
        }
        &&& forall|f: int| 0 <= f < self.low_bitmap.spec_count() && !#[trigger] self.low_bitmap@[f] ==> f != 0
    }

    /// What well-formedness tells a caller about the two pools.
    pub proof fn lemma_wf_facts(&self)
        requires
            self.wf(),
        ensures
            self.general().len() > 0,
            self.general().len() * 4096 <= 0x10_0000_0000_0000,
            self.low().len() <= self.general().len(),
            self.low().len() <= LOW_MEM_FRAME_COUNT,
            forall|f: int| 0 <= f < self.low().len() ==> self.general()[f],
            forall|f: int| 0 <= f < self.general().len() && !#[trigger] self.general()[f] ==> {
                &&& f >= self.low().len()
                &&& f != 0
                &&& !(self.store().0 <= f * 4096 < self.store().0 + self.store().1)
            },
            forall|f: int| 0 <= f < self.low().len() && !#[trigger] self.low()[f] ==> f != 0,
    {
    }

    /// Used/free state of the general pool, by frame number.
    pub closed spec fn general(&self) -> Seq<bool> {
        self.bitmap@
    }

    /// Used/free state of the below-1-MiB pool, by frame number.
    pub closed spec fn low(&self) -> Seq<bool> {
        self.low_bitmap@
    }

    pub closed spec fn spec_low_reserved(&self) -> int {
        self.low_reserved as int
    }

    /// The remembered USABLE regions.
    pub closed spec fn regions(&self) -> Seq<(u64, u64)> {
        self.usable_regions@
    }

    /// Where the bitmap's own storage lives.
    pub closed spec fn store(&self) -> (u64, usize) {
        (self.bitmap_base.0, self.bitmap_bytes)
    }

    /// The pool that owns `frame`'s used/free bit.
    pub open spec fn pool_of(&self, frame: int) -> Seq<bool> {
        if frame < self.low().len() { self.low() } else { self.general() }
    }

    /// Whether `frame` lies inside some remembered USABLE region and
    /// outside the bitmap's own storage.
    pub open spec fn usable_frame(&self, frame: int) -> bool {
        let addr = frame * 4096;
        &&& !(self.store().0 <= addr < self.store().0 + self.store().1)
        &&& exists|k: int| 0 <= k < self.regions().len()
            && self.regions()[k].0 <= addr
            && addr + 4096 <= self.regions()[k].0 + self.regions()[k].1
    }

    /// Whether `frame` lies inside some remembered USABLE region and
    /// outside the bitmap's own storage.
    fn is_usable_frame(&self, frame: u64) -> (r: bool)
        requires
            self.wf(),
            frame * 4096 <= u64::MAX,
        ensures
            r == self.usable_frame(frame as int),
    {
        let addr = frame * 4096;
        let bitmap_start = self.bitmap_base.as_u64();
        let bitmap_end = bitmap_start + self.bitmap_bytes as u64;
        if addr >= bitmap_start && addr < bitmap_end {
            return false;
        }
        let mut k: usize = 0;
        while k < self.usable_regions.len()
            invariant
                self.wf(),
                addr == frame * 4096,
                !(self.bitmap_base.0 <= addr < self.bitmap_base.0 + self.bitmap_bytes),
                0 <= k <= self.usable_regions@.len(),
                forall|m: int| 0 <= m < k ==> !(self.usable_regions@[m].0 <= addr
                    && addr + 4096 <= self.usable_regions@[m].0 + self.usable_regions@[m].1),
            decreases self.usable_regions@.len() - k,
        {
            let (base, len) = self.usable_regions[k];
            if addr >= base && (addr as u128) + 4096 <= (base as u128) + (len as u128) {
                proof {
                    assert(self.regions()[k as int].0 <= addr && addr + 4096 <= self.regions()[k as int].0 + self.regions()[k as int].1);
                    assert(!(self.store().0 <= addr < self.store().0 + self.store().1));
                    assert(self.usable_frame(frame as int));
                }
                return true;
            }
            k += 1;
        }
        false
    }
}

/// Builds the PMM from the boot memory map: every frame starts used; the
/// frames of every USABLE entry are freed; the bitmap's own storage (the
/// longest USABLE region at or above 1 MiB that can hold it) is claimed
/// back; USABLE frames below 1 MiB move to the low pool; frame 0 is never
/// handed out from either pool.
pub fn init(entries: &[MemmapEntry]) -> (r: Pmm)
    requires
        memmap_ok(entries@),
    ensures
        r.wf(),
        r.general().len() == spec_total_frames(entries@),
        r.low().len() == if spec_total_frames(entries@) < 256 { spec_total_frames(entries@) } else { 256 },
        exists|i: int| bitmap_choice(entries@, i)
            && r.store() == (entries@[i].base, spec_bitmap_bytes(entries@) as usize),
        forall|f: int| 0 <= f < r.general().len() ==> r.general()[f] == !(
            frame_in_usable(entries@, f)
            && f >= r.low().len()
            && !(r.store().0 <= f * 4096 < r.store().0 + r.store().1)),
        forall|f: int| 0 <= f < r.low().len() ==> r.low()[f] == !(frame_in_usable(entries@, f) && f != 0),
        r.regions() == if usable_pairs(entries@).len() <= 64 { usable_pairs(entries@) } else { usable_pairs(entries@).subrange(0, 64) },
        r.spec_low_reserved() == low_contribution(entries@, r.low().len() as int),
{
    // Highest end of any USABLE entry.
    let mut highest_usable_end: u64 = 0;
    let mut i: usize = 0;
    while i < entries.len()
        invariant
            memmap_ok(entries@),
            0 <= i <= entries@.len(),
            highest_usable_end == highest_end(entries@, i as int),
        decreases entries@.len() - i,
    {
        let e = entries[i];
        if e.type_ == MEMMAP_USABLE && e.base + e.length > highest_usable_end {
            highest_usable_end = e.base + e.length;
        }
        i += 1;
    }
    let total_frames = (highest_usable_end / 4096) as usize;
    let bitmap_words = (total_frames + 63) / 64;
    let bitmap_bytes = bitmap_words * 8;

    // The longest USABLE region at or above 1 MiB that fits the bitmap
    // (the last of equally long ones).
    let mut best: usize = entries.len();
    let mut i: usize = 0;
    while i < entries.len()
        invariant
            memmap_ok(entries@),
            bitmap_bytes == spec_bitmap_bytes(entries@),
            0 <= i <= entries@.len(),
            best <= entries@.len(),
            best == entries@.len() ==> forall|j: int| 0 <= j < i ==> !bitmap_candidate(entries@, j),
            best < entries@.len() ==> {
                &&& best < i
                &&& bitmap_candidate(entries@, best as int)
                &&& forall|j: int| 0 <= j < i && bitmap_candidate(entries@, j) ==> entries@[j].length <= entries@[best as int].length
                &&& forall|j: int| best < j < i && bitmap_candidate(entries@, j) ==> entries@[j].length < entries@[best as int].length
            },
        decreases entries@.len() - i,
    {
        let e = entries[i];
        if e.type_ == MEMMAP_USABLE && e.base >= LOW_MEM_LIMIT && e.length as u128 >= bitmap_bytes as u128 {
            if best == entries.len() || e.length >= entries[best].length {
                best = i;
            }
        }
        i += 1;
    }
    proof {
        if best == entries@.len() {
            let w = choose|w: int| bitmap_candidate(entries@, w);
            assert(false);
        }
    }
    let bitmap_base = PhysAddr::new(entries[best].base);

    let mut words: Vec<u64> = Vec::new();
    let mut w: usize = 0;
    while w < bitmap_words
        invariant
            0 <= w <= bitmap_words,
            words@.len() == w,
        decreases bitmap_words - w,
    {
        words.push(0);
        w += 1;
    }
    let mut bitmap = FrameBitmap::new(words, 0, total_frames);
    bitmap.fill_used();

    let low_frame_count: usize = if total_frames < LOW_MEM_FRAME_COUNT { total_frames } else { LOW_MEM_FRAME_COUNT };
    let mut low_words: Vec<u64> = Vec::new();
    low_words.push(0);
    low_words.push(0);
    low_words.push(0);
    low_words.push(0);
    let mut low_bitmap = FrameBitmap::new(low_words, 0, low_frame_count);
    low_bitmap.fill_used();

    let ghost store_lo = bitmap_base.0 as int;
    let ghost store_hi = bitmap_base.0 + bitmap_bytes;

    // Free every USABLE frame; claim back the bitmap's own frames and move
    // low frames to the low pool.
    let mut low_reserved: usize = 0;
    let mut i: usize = 0;
    while i < entries.len()
        invariant
            memmap_ok(entries@),
            total_frames == spec_total_frames(entries@),
            highest_usable_end == highest_end(entries@, entries@.len() as int),
            bitmap.wf(),
            bitmap.spec_base() == 0,
            bitmap.spec_count() == total_frames,
            low_bitmap.wf(),
            low_bitmap.spec_base() == 0,
            low_bitmap.spec_count() == low_frame_count,
            low_frame_count <= total_frames,
            low_frame_count <= 256,
            0 <= i <= entries@.len(),
            forall|f: int| 0 <= f < total_frames ==> bitmap@[f] == !(
                exists|j: int| 0 <= j < i && frame_in_entry(entries@, j, f)),
            forall|f: int| 0 <= f < low_frame_count ==> low_bitmap@[f] == !(
                exists|j: int| 0 <= j < i && frame_in_entry(entries@, j, f)),
            low_reserved == low_contribution(entries@.subrange(0, i as int), low_frame_count as int),
            low_reserved <= i * 256,
        decreases entries@.len() - i,
    {
        let e = entries[i];
        proof {
            if is_usable(e) {
                lemma_highest_end_bound(entries@, i as int, entries@.len() as int);
            }
            assert(entries@.subrange(0, i + 1).drop_last() =~= entries@.subrange(0, i as int));
        }
        let start_frame = e.base / 4096;
        let end_frame = (e.base + e.length) / 4096;
        if e.type_ == MEMMAP_USABLE {
            let mut frame = start_frame;
            while frame < end_frame
                invariant
                    bitmap.wf(),
                    bitmap.spec_base() == 0,
                    bitmap.spec_count() == total_frames,
                    low_bitmap.wf(),
                    low_bitmap.spec_base() == 0,
                    low_bitmap.spec_count() == low_frame_count,
                    low_frame_count <= total_frames,
                    start_frame <= frame <= end_frame,
                    end_frame <= total_frames,
                    e == entries@[i as int],
                    is_usable(e),
                    start_frame == e.base / 4096,
                    end_frame == (e.base + e.length) / 4096,
                    0 <= i < entries@.len(),
                    forall|f: int| 0 <= f < total_frames ==> bitmap@[f] == !(
                        (exists|j: int| 0 <= j < i && frame_in_entry(entries@, j, f)) || (start_frame <= f < frame)),
                    forall|f: int| 0 <= f < low_frame_count ==> low_bitmap@[f] == !(
                        exists|j: int| 0 <= j < i && frame_in_entry(entries@, j, f)),
                decreases end_frame - frame,
            {
                bitmap.set_free(frame);
                frame += 1;
            }
            // Frames below the low-memory line move to the low pool.
            let low_end = if end_frame < low_frame_count as u64 { end_frame } else { low_frame_count as u64 };
            if start_frame < low_end {
                let mut frame = start_frame;
                while frame < low_end
                    invariant
                        low_bitmap.wf(),
                        low_bitmap.spec_base() == 0,
                        low_bitmap.spec_count() == low_frame_count,
                        start_frame <= frame <= low_end,
                        low_end <= low_frame_count,
                        low_end <= end_frame,
                        forall|f: int| 0 <= f < low_frame_count ==> low_bitmap@[f] == !(
                            (exists|j: int| 0 <= j < i && frame_in_entry(entries@, j, f)) || (start_frame <= f < frame)),
                    decreases low_end - frame,
                {
                    low_bitmap.set_free(frame);
                    frame += 1;
                }
                low_reserved = low_reserved + (low_end - start_frame) as usize;
            }
        }
        proof {
            assert forall|f: int| 0 <= f < total_frames implies bitmap@[f] == !(
                exists|j: int| 0 <= j < i + 1 && frame_in_entry(entries@, j, f)) by {
                if is_usable(e) && start_frame <= f < end_frame {
                    assert(frame_in_entry(entries@, i as int, f));
                }
                if exists|j: int| 0 <= j < i + 1 && frame_in_entry(entries@, j, f) {
                    let j = choose|j: int| 0 <= j < i + 1 && frame_in_entry(entries@, j, f);
                    if j < i {
                        assert(exists|j: int| 0 <= j < i && frame_in_entry(entries@, j, f));
                    } else {
                        assert(j == i);
                    }
                } else {
                    assert(!(exists|j: int| 0 <= j < i && frame_in_entry(entries@, j, f)));
                }
            }
            assert forall|f: int| 0 <= f < low_frame_count implies low_bitmap@[f] == !(
                exists|j: int| 0 <= j < i + 1 && frame_in_entry(entries@, j, f)) by {
                if is_usable(e) && start_frame <= f < end_frame {
                    assert(frame_in_entry(entries@, i as int, f));
                }
                if exists|j: int| 0 <= j < i + 1 && frame_in_entry(entries@, j, f) {
                    let j = choose|j: int| 0 <= j < i + 1 && frame_in_entry(entries@, j, f);
                    if j < i {
                        assert(exists|j: int| 0 <= j < i && frame_in_entry(entries@, j, f));
                    } else {
                        assert(j == i);
                    }
                } else {
                    assert(!(exists|j: int| 0 <= j < i && frame_in_entry(entries@, j, f)));
                }
            }
        }
        i += 1;
    }
    proof {
        assert(entries@.subrange(0, entries@.len() as int) =~= entries@);
    }

    // The bitmap's own storage is never handed out.
    let bitmap_frame_count = (bitmap_bytes as u64 + 4095) / 4096;
    let bitmap_start_frame = bitmap_base.frame_index();
    proof {
        lemma_highest_end_bound(entries@, best as int, entries@.len() as int);
    }
    let mut frame = bitmap_start_frame;
    while frame < bitmap_start_frame + bitmap_frame_count
        invariant
            bitmap.wf(),
            bitmap.spec_base() == 0,
            bitmap.spec_count() == total_frames,
            bitmap_start_frame <= frame <= bitmap_start_frame + bitmap_frame_count,
            bitmap_start_frame + bitmap_frame_count <= total_frames,
            bitmap_start_frame == bitmap_base.0 / 4096,
            bitmap_base.0 % 4096 == 0,
            bitmap_frame_count == (bitmap_bytes + 4095) / 4096,
            forall|f: int| 0 <= f < total_frames ==> bitmap@[f] == !(
                frame_in_usable(entries@, f) && !(bitmap_start_frame <= f < frame)),
        decreases bitmap_start_frame + bitmap_frame_count - frame,
    {
        bitmap.set_used(frame);
        frame += 1;
    }

    // Everything below the low-memory line leaves the general pool.
    let mut frame: u64 = 0;
    while frame < low_frame_count as u64
        invariant
            bitmap.wf(),
            bitmap.spec_base() == 0,
            bitmap.spec_count() == total_frames,
            low_frame_count <= total_frames,
            0 <= frame <= low_frame_count,
            forall|f: int| 0 <= f < total_frames ==> bitmap@[f] == !(
                frame_in_usable(entries@, f) && !(bitmap_start_frame <= f < bitmap_start_frame + bitmap_frame_count) && f >= frame),
        decreases low_frame_count - frame,
    {
        bitmap.set_used(frame);
        frame += 1;
    }

    // Frame 0 is never handed out.
    bitmap.set_used(0);
    if low_frame_count > 0 {
        low_bitmap.set_used(0);
    }

    // Remember up to MAX_USABLE_REGIONS USABLE regions.
    let mut usable_regions: Vec<(u64, u64)> = Vec::new();
    let mut i: usize = 0;
    while i < entries.len() && usable_regions.len() < MAX_USABLE_REGIONS
        invariant
            memmap_ok(entries@),
            highest_usable_end == highest_end(entries@, entries@.len() as int),
            0 <= i <= entries@.len(),
            usable_regions@.len() <= MAX_USABLE_REGIONS,
            usable_regions@ == usable_pairs(entries@.subrange(0, i as int)),
            forall|k: int| 0 <= k < usable_regions@.len() ==>
                usable_regions@[k].0 + usable_regions@[k].1 <= highest_usable_end,
        decreases entries@.len() - i,
    {
        let e = entries[i];
        proof {
            assert(entries@.subrange(0, i + 1).drop_last() =~= entries@.subrange(0, i as int));
            if is_usable(e) {
                lemma_highest_end_bound(entries@, i as int, entries@.len() as int);
            }
        }
        if e.type_ == MEMMAP_USABLE {
            usable_regions.push((e.base, e.length));
        }
        i += 1;
    }
    proof {
        lemma_usable_pairs_prefix_stable(entries@, i as int);
        if i == entries@.len() {
            assert(entries@.subrange(0, entries@.len() as int) =~= entries@);
        } else {
            assert(usable_pairs(entries@).subrange(0, 64) =~= usable_regions@);
        }
        lemma_highest_aligned(entries@, entries@.len() as int);
    }

    proof {
        assert(bitmap_choice(entries@, best as int));
    }
    Pmm { bitmap, bitmap_base, bitmap_bytes, low_bitmap, low_reserved, usable_regions }
}

/// The name of memory-map entry type `t`, as the boot log prints it.
pub open spec fn entry_type_label(t: u64) -> Seq<char> {
    if t == MEMMAP_USABLE {
        "USABLE"@
    } else if t == MEMMAP_RESERVED {
        "RESERVED"@
    } else if t == MEMMAP_ACPI_RECLAIMABLE {
        "ACPI_RECLAIMABLE"@
    } else if t == MEMMAP_ACPI_NVS {
        "ACPI_NVS"@
    } else if t == MEMMAP_BAD_MEMORY {
        "BAD_MEMORY"@
    } else if t == MEMMAP_BOOTLOADER_RECLAIMABLE {
        "BOOTLOADER_RECLAIMABLE"@
    } else if t == MEMMAP_EXECUTABLE_AND_MODULES {
        "EXECUTABLE_AND_MODULES"@
    } else if t == MEMMAP_FRAMEBUFFER {
        "FRAMEBUFFER"@
    } else if t == MEMMAP_MAPPED_RESERVED {
        "MAPPED_RESERVED"@
    } else {
        "UNKNOWN"@
    }
}

/// The name of memory-map entry type `t`: `UNKNOWN` for a type without
/// one.
pub fn entry_type_name(t: u64) -> (r: &'static str)
    ensures
        r@ == entry_type_label(t),
{
    match t {
        MEMMAP_USABLE => "USABLE",
        MEMMAP_RESERVED => "RESERVED",
        MEMMAP_ACPI_RECLAIMABLE => "ACPI_RECLAIMABLE",
        MEMMAP_ACPI_NVS => "ACPI_NVS",
        MEMMAP_BAD_MEMORY => "BAD_MEMORY",
        MEMMAP_BOOTLOADER_RECLAIMABLE => "BOOTLOADER_RECLAIMABLE",
        MEMMAP_EXECUTABLE_AND_MODULES => "EXECUTABLE_AND_MODULES",
        MEMMAP_FRAMEBUFFER => "FRAMEBUFFER",
        MEMMAP_MAPPED_RESERVED => "MAPPED_RESERVED",
        _ => "UNKNOWN",
    }
}

/// Free frames never exceed the frames a pool covers.
pub proof fn lemma_free_count_le(s: Seq<bool>)
    ensures
        free_count(s) <= s.len(),
    decreases s.len(),
{
    if s.len() > 0 {
        lemma_free_count_le(s.drop_last());
    }
}

/// Current frame counts of the general pool.
pub fn stats(pmm: &Pmm) -> (r: PmmStats)
    requires
        pmm.wf(),
    ensures
        r.total == pmm.general().len(),
        r.free == free_count(pmm.general()),
        r.used == r.total - r.free,
        r.low_reserved == pmm.spec_low_reserved(),
{
    let total = pmm.bitmap.frame_count();
    let free = pmm.bitmap.count_free();
    proof {
        lemma_free_count_le(pmm.bitmap@);
    }
    PmmStats { total, used: total - free, free, low_reserved: pmm.low_reserved }
}

/// `f` is the lowest free frame of pool `s`.
pub open spec fn lowest_free(s: Seq<bool>, f: int) -> bool {
    &&& 0 <= f < s.len()
    &&& !s[f]
    &&& forall|g: int| 0 <= g < f ==> s[g]
}

/// `[start, start + n)` is the lowest free run of `s` whose start is a
/// multiple of `align`.
pub open spec fn lowest_free_run(s: Seq<bool>, start: int, n: int, align: int) -> bool {
    &&& run_fits(s, start, n, align)
    &&& forall|g: int| 0 <= g < start ==> !run_fits(s, g, n, align)
}

/// `[start, start + n)` is free, inside `s`, and starts at a multiple of `align`.
pub open spec fn run_fits(s: Seq<bool>, start: int, n: int, align: int) -> bool {
    &&& 0 <= start
    &&& start + n <= s.len()
    &&& start % align == 0
    &&& forall|k: int| start <= k < start + n ==> !#[trigger] s[k]
}

/// `s` with every frame in `[start, start + n)` set to `v`.
pub open spec fn set_range(s: Seq<bool>, start: int, n: int, v: bool) -> Seq<bool> {
    Seq::new(s.len(), |k: int| if start <= k < start + n { v } else { s[k] })
}

/// The frame number of address `a`.
pub open spec fn frame_of(a: u64) -> int {
    a as int / 4096
}

/// `s` with every frame in `[start, start + n)` at or above `from` set free.
pub open spec fn set_range_above(s: Seq<bool>, start: int, n: int, from: int) -> Seq<bool> {
    Seq::new(s.len(), |k: int| if start <= k < start + n && k >= from { false } else { s[k] })
}

/// Allocates one free 4 KiB frame (the lowest free one), or `None` if the
/// general pool is exhausted.
pub fn alloc_frame(pmm: &mut Pmm) -> (r: Option<PhysAddr>)
    requires
        old(pmm).wf(),
    ensures
        final(pmm).wf(),
        final(pmm).low() == old(pmm).low(),
        final(pmm).regions() == old(pmm).regions(),
        final(pmm).store() == old(pmm).store(),
        final(pmm).spec_low_reserved() == old(pmm).spec_low_reserved(),
        match r {
            Some(p) => {
                &&& p.0 % 4096 == 0
                &&& lowest_free(old(pmm).general(), frame_of(p.0))
                &&& final(pmm).general() == old(pmm).general().update(frame_of(p.0), true)
                &&& frame_of(p.0) != 0
                &&& frame_of(p.0) >= old(pmm).low().len()
                &&& !(old(pmm).store().0 <= p.0 < old(pmm).store().0 + old(pmm).store().1)
            },
            None => {
                &&& forall|f: int| 0 <= f < old(pmm).general().len() ==> old(pmm).general()[f]
                &&& final(pmm).general() == old(pmm).general()
            },
        },
{
    match pmm.bitmap.find_free_run(1, 1) {
        None => {
            proof {
                assert forall|f: int| 0 <= f < old(pmm).general().len() implies old(pmm).general()[f] by {
                    assert(!pmm.bitmap.candidate(f, 1, 1));
                }
            }
            None
        },
        Some(frame) => {
            pmm.bitmap.set_used(frame);
            proof {
                assert forall|g: int| 0 <= g < frame implies old(pmm).general()[g] by {
                    assert(!old(pmm).bitmap.candidate(g, 1, 1));
                }
                assert(!old(pmm).general()[frame as int]);
            }
            Some(PhysAddr::new(frame * 4096))
        },
    }
}

/// Allocates `n_frames` contiguous frames whose first frame number is a
/// multiple of `align_frames` (the lowest such run), or `None` if no such
/// run exists or `n_frames` is zero.
pub fn alloc_contiguous(pmm: &mut Pmm, n_frames: usize, align_frames: u64) -> (r: Option<PhysAddr>)
    requires
        old(pmm).wf(),
        align_frames > 0,
    ensures
        final(pmm).wf(),
        final(pmm).low() == old(pmm).low(),
        final(pmm).regions() == old(pmm).regions(),
        final(pmm).store() == old(pmm).store(),
        final(pmm).spec_low_reserved() == old(pmm).spec_low_reserved(),
        match r {
            Some(p) => {
                &&& n_frames > 0
                &&& p.0 % 4096 == 0
                &&& lowest_free_run(old(pmm).general(), frame_of(p.0), n_frames as int, align_frames as int)
                &&& final(pmm).general() == set_range(old(pmm).general(), frame_of(p.0), n_frames as int, true)
            },
            None => {
                &&& n_frames == 0 || forall|g: int| !run_fits(old(pmm).general(), g, n_frames as int, align_frames as int)
                &&& final(pmm).general() == old(pmm).general()
            },
        },
{
    if n_frames == 0 {
        return None;
    }
    match pmm.bitmap.find_free_run(n_frames, align_frames) {
        None => {
            proof {
                assert forall|g: int| !run_fits(old(pmm).general(), g, n_frames as int, align_frames as int) by {
                    assert(!old(pmm).bitmap.candidate(g, n_frames as int, align_frames as int));
                }
            }
            None
        },
        Some(start) => {
            proof {
                assert forall|g: int| 0 <= g < start implies !run_fits(old(pmm).general(), g, n_frames as int, align_frames as int) by {
                    assert(!old(pmm).bitmap.candidate(g, n_frames as int, align_frames as int));
                }
            }
            let mut frame = start;
            while frame < start + n_frames as u64
                invariant
                    pmm.wf(),
                    pmm.bitmap.spec_base() == 0,
                    old(pmm).wf(),
                    start <= frame <= start + n_frames,
                    start + n_frames <= pmm.general().len(),
                    pmm.low() == old(pmm).low(),
                    pmm.regions() == old(pmm).regions(),
                    pmm.store() == old(pmm).store(),
                    pmm.spec_low_reserved() == old(pmm).spec_low_reserved(),
                    pmm.general() == set_range(old(pmm).general(), start as int, frame - start, true),
                decreases start + n_frames - frame,
            {
                pmm.bitmap.set_used(frame);
                proof {
                    assert(pmm.general() =~= set_range(old(pmm).general(), start as int, frame + 1 - start, true));
                }
                frame += 1;
            }
            Some(PhysAddr::new(start * 4096))
        },
    }
}

/// Allocates one free frame from the below-1-MiB pool (the lowest free
/// one), or `None` if that pool is exhausted.
pub fn alloc_frame_low(pmm: &mut Pmm) -> (r: Option<PhysAddr>)
    requires
        old(pmm).wf(),
    ensures
        final(pmm).wf(),
        final(pmm).general() == old(pmm).general(),
        final(pmm).regions() == old(pmm).regions(),
        final(pmm).store() == old(pmm).store(),
        final(pmm).spec_low_reserved() == old(pmm).spec_low_reserved(),
        match r {
            Some(p) => {
                &&& p.0 % 4096 == 0
                &&& lowest_free(old(pmm).low(), frame_of(p.0))
                &&& final(pmm).low() == old(pmm).low().update(frame_of(p.0), true)
            },
            None => {
                &&& forall|f: int| 0 <= f < old(pmm).low().len() ==> old(pmm).low()[f]
                &&& final(pmm).low() == old(pmm).low()
            },
        },
{
    match pmm.low_bitmap.find_free_run(1, 1) {
        None => {
            proof {
                assert forall|f: int| 0 <= f < old(pmm).low().len() implies old(pmm).low()[f] by {
                    assert(!pmm.low_bitmap.candidate(f, 1, 1));
                }
            }
            None
        },
        Some(frame) => {
            pmm.low_bitmap.set_used(frame);
            proof {
                assert forall|g: int| 0 <= g < frame implies old(pmm).low()[g] by {
                    assert(!old(pmm).low_bitmap.candidate(g, 1, 1));
                }
            }
            Some(PhysAddr::new(frame * 4096))
        },
    }
}

/// What `free_frame` accepts: a frame-aligned, nonzero, usable frame that
/// is currently marked used in the pool that owns it.
pub open spec fn freeable(pmm: &Pmm, phys: u64) -> bool {
    &&& phys % 4096 == 0
    &&& frame_of(phys) != 0
    &&& pmm.usable_frame(frame_of(phys))
    &&& pmm.pool_of(frame_of(phys))[frame_of(phys)]
}

/// Frees one frame previously handed out by the PMM.
pub fn free_frame(pmm: &mut Pmm, phys: PhysAddr)
    requires
        old(pmm).wf(),
        freeable(old(pmm), phys.0),
    ensures
        final(pmm).wf(),
        final(pmm).regions() == old(pmm).regions(),
        final(pmm).store() == old(pmm).store(),
        final(pmm).spec_low_reserved() == old(pmm).spec_low_reserved(),
        frame_of(phys.0) < old(pmm).low().len() ==> {
            &&& final(pmm).low() == old(pmm).low().update(frame_of(phys.0), false)
            &&& final(pmm).general() == old(pmm).general()
        },
        frame_of(phys.0) >= old(pmm).low().len() ==> {
            &&& final(pmm).general() == old(pmm).general().update(frame_of(phys.0), false)
            &&& final(pmm).low() == old(pmm).low()
        },
{
    let frame = phys.frame_index();
    proof {
        let k = choose|k: int| 0 <= k < pmm.regions().len()
            && pmm.regions()[k].0 <= frame * 4096
            && frame * 4096 + 4096 <= pmm.regions()[k].0 + pmm.regions()[k].1;
        assert(frame < pmm.bitmap.spec_count()) by (nonlinear_arith)
            requires frame * 4096 + 4096 <= pmm.bitmap.spec_count() * 4096;
    }
    if frame < pmm.low_bitmap.frame_count() as u64 {
        pmm.low_bitmap.set_free(frame);
    } else {
        pmm.bitmap.set_free(frame);
    }
}

/// Frees `n_frames` contiguous frames starting at `phys` (the counterpart
/// to `alloc_contiguous`), one `free_frame` at a time.
pub fn free_contiguous(pmm: &mut Pmm, phys: PhysAddr, n_frames: usize)
    requires
        old(pmm).wf(),
        phys.0 % 4096 == 0,
        phys.0 + n_frames * 4096 <= u64::MAX,
        forall|i: int| 0 <= i < n_frames ==> #[trigger] freeable(old(pmm), (phys.0 + i * 4096) as u64),
    ensures
        final(pmm).wf(),
        final(pmm).regions() == old(pmm).regions(),
        final(pmm).store() == old(pmm).store(),
        final(pmm).spec_low_reserved() == old(pmm).spec_low_reserved(),
        final(pmm).low() == set_range(old(pmm).low(), frame_of(phys.0), n_frames as int, false),
        final(pmm).general() == set_range_above(old(pmm).general(), frame_of(phys.0), n_frames as int, old(pmm).low().len() as int),
{
    let base_frame = phys.frame_index();
    let mut i: u64 = 0;
    while i < n_frames as u64
        invariant
            pmm.wf(),
            old(pmm).wf(),
            0 <= i <= n_frames,
            base_frame == frame_of(phys.0),
            phys.0 % 4096 == 0,
            phys.0 + n_frames * 4096 <= u64::MAX,
            pmm.regions() == old(pmm).regions(),
            pmm.store() == old(pmm).store(),
            pmm.spec_low_reserved() == old(pmm).spec_low_reserved(),
            pmm.low().len() == old(pmm).low().len(),
            pmm.general().len() == old(pmm).general().len(),
            pmm.low() == set_range(old(pmm).low(), base_frame as int, i as int, false),
            pmm.general() == set_range_above(old(pmm).general(), base_frame as int, i as int, old(pmm).low().len() as int),
            forall|j: int| 0 <= j < n_frames ==> #[trigger] freeable(old(pmm), (phys.0 + j * 4096) as u64),
        decreases n_frames - i,
    {
        let ghost f = base_frame + i;
        proof {
            assert(freeable(old(pmm), (phys.0 + i * 4096) as u64));
            assert((phys.0 + i * 4096) / 4096 == f) by (nonlinear_arith)
                requires phys.0 % 4096 == 0, base_frame == frame_of(phys.0), f == base_frame + i;
            assert(freeable(pmm, (phys.0 + i * 4096) as u64));
        }
        free_frame(pmm, PhysAddr::new((base_frame + i) * 4096));
        proof {
            assert(pmm.low() =~= set_range(old(pmm).low(), base_frame as int, i + 1, false));
            assert(pmm.general() =~= set_range_above(old(pmm).general(), base_frame as int, i + 1, old(pmm).low().len() as int));
        }
        i += 1;
    }
}

/// Every USABLE region the memory map reported at `init` time, as
/// `(base, length_bytes)` pairs (at most `MAX_USABLE_REGIONS` of them).
pub fn for_each_usable_region(pmm: &Pmm) -> (r: Vec<(PhysAddr, u64)>)
    requires
        pmm.wf(),
    ensures
        r@.len() == pmm.regions().len(),
        forall|k: int| 0 <= k < r@.len() ==> r@[k].0.0 == pmm.regions()[k].0 && r@[k].1 == pmm.regions()[k].1,
{
    let mut out: Vec<(PhysAddr, u64)> = Vec::new();
    let mut k: usize = 0;
    while k < pmm.usable_regions.len()
        invariant
            0 <= k <= pmm.usable_regions@.len(),
            out@.len() == k,
            forall|m: int| 0 <= m < k ==> out@[m].0.0 == pmm.regions()[m].0 && out@[m].1 == pmm.regions()[m].1,
        decreases pmm.usable_regions@.len() - k,
    {
        let (base, len) = pmm.usable_regions[k];
        out.push((PhysAddr::new(base), len));
        k += 1;
    }
    out
}

/// Whether `phys`'s frame is currently marked used, in whichever pool owns it.
pub fn is_frame_used(pmm: &Pmm, phys: PhysAddr) -> (r: bool)
    requires
        pmm.wf(),
        frame_of(phys.0) < pmm.general().len(),
    ensures
        r == pmm.pool_of(frame_of(phys.0))[frame_of(phys.0)],
{
    let frame = phys.frame_index();
    if frame < pmm.low_bitmap.frame_count() as u64 {
        pmm.low_bitmap.is_used(frame)
    } else {
        pmm.bitmap.is_used(frame)
    }
}

/// The physical range `[base, base + bytes)` the bitmap's own storage occupies.
pub fn bitmap_region(pmm: &Pmm) -> (r: (PhysAddr, usize))
    ensures
        r.0.0 == pmm.store().0,
        r.1 == pmm.store().1,
{
    (pmm.bitmap_base, pmm.bitmap_bytes)
}

/// Every USABLE entry ends at or before the highest usable end.
proof fn lemma_highest_end_bound(entries: Seq<MemmapEntry>, j: int, n: int)
    requires
        0 <= j < n <= entries.len(),
        is_usable(entries[j]),
    ensures
        entries[j].base + entries[j].length <= highest_end(entries, n),
    decreases n,
{
    if j < n - 1 {
        lemma_highest_end_bound(entries, j, n - 1);
    }
}

/// The highest usable end is page aligned.
proof fn lemma_highest_aligned(entries: Seq<MemmapEntry>, n: int)
    requires
        0 <= n <= entries.len(),
        forall|j: int| 0 <= j < entries.len() && is_usable(entries[j]) ==> entries[j].base % 4096 == 0 && entries[j].length % 4096 == 0,
    ensures
        highest_end(entries, n) % 4096 == 0,
        highest_end(entries, n) >= 0,
    decreases n,
{
    if n > 0 {
        lemma_highest_aligned(entries, n - 1);
    }
}

proof fn lemma_usable_pairs_len(entries: Seq<MemmapEntry>)
    ensures
        usable_pairs(entries).len() <= entries.len(),
    decreases entries.len(),
{
    if entries.len() > 0 {
        lemma_usable_pairs_len(entries.drop_last());
    }
}

/// Once 64 USABLE regions are collected, later entries don't change the
/// first 64.
proof fn lemma_usable_pairs_prefix_stable(entries: Seq<MemmapEntry>, i: int)
    requires
        0 <= i <= entries.len(),
    ensures
        usable_pairs(entries.subrange(0, i)).len() <= usable_pairs(entries).len(),
        usable_pairs(entries) .subrange(0, usable_pairs(entries.subrange(0, i)).len() as int)
            == usable_pairs(entries.subrange(0, i)),
    decreases entries.len() - i,
{
    if i < entries.len() {
        lemma_usable_pairs_prefix_stable(entries, i + 1);
        assert(entries.subrange(0, i + 1).drop_last() =~= entries.subrange(0, i));
        let a = usable_pairs(entries.subrange(0, i));
        let b = usable_pairs(entries.subrange(0, i + 1));
        assert(b.subrange(0, a.len() as int) =~= a);
        assert(usable_pairs(entries).subrange(0, a.len() as int) =~= b.subrange(0, a.len() as int));
    } else {
        assert(entries.subrange(0, i) =~= entries);
        assert(usable_pairs(entries).subrange(0, usable_pairs(entries).len() as int) =~= usable_pairs(entries));
    }
}

/// Every free frame of the general pool can be handed out and freed back:
/// it lies in a remembered USABLE region, outside the bitmap's storage,
/// and above the low pool.
pub open spec fn free_frames_usable(pmm: &Pmm) -> bool {
    forall|f: int| 0 <= f < pmm.general().len() && !#[trigger] pmm.general()[f]
        ==> pmm.usable_frame(f) && f >= pmm.low().len() && f != 0
}

/// A PMM that only marked more frames used keeps its free frames usable.
pub proof fn lemma_usable_after_alloc(p0: &Pmm, p1: &Pmm)
    requires
        free_frames_usable(p0),
        p1.general().len() == p0.general().len(),
        p1.low() == p0.low(),
        p1.regions() == p0.regions(),
        p1.store() == p0.store(),
        forall|f: int| 0 <= f < p0.general().len() && p0.general()[f] ==> #[trigger] p1.general()[f],
    ensures
        free_frames_usable(p1),
{
    assert forall|f: int| 0 <= f < p1.general().len() && !#[trigger] p1.general()[f]
        implies p1.usable_frame(f) && f >= p1.low().len() && f != 0 by {
        assert(!p0.general()[f]);
    }
}

/// Freeing a freeable frame keeps free frames usable.
pub proof fn lemma_usable_after_free(p0: &Pmm, p1: &Pmm, phys: u64)
    requires
        free_frames_usable(p0),
        p0.wf(),
        freeable(p0, phys),
        p1.regions() == p0.regions(),
        p1.store() == p0.store(),
        frame_of(phys) < p0.low().len() ==> p1.low() == p0.low().update(frame_of(phys), false) && p1.general() == p0.general(),
        frame_of(phys) >= p0.low().len() ==> p1.general() == p0.general().update(frame_of(phys), false) && p1.low() == p0.low(),
    ensures
        free_frames_usable(p1),
{
    assert forall|f: int| 0 <= f < p1.general().len() && !#[trigger] p1.general()[f]
        implies p1.usable_frame(f) && f >= p1.low().len() && f != 0 by {
        if f != frame_of(phys) || frame_of(phys) < p0.low().len() {
            assert(!p0.general()[f]);
        }
    }
}

/// Freeing a run of freeable frames keeps free frames usable.
pub proof fn lemma_usable_after_free_run(p0: &Pmm, p1: &Pmm, phys: u64, n: int)
    requires
        free_frames_usable(p0),
        p0.wf(),
        phys % 4096 == 0,
        forall|i: int| 0 <= i < n ==> #[trigger] freeable(p0, (phys + i * 4096) as u64),
        p1.regions() == p0.regions(),
        p1.store() == p0.store(),
        p1.low().len() == p0.low().len(),
        p1.general() == set_range_above(p0.general(), frame_of(phys), n, p0.low().len() as int),
    ensures
        free_frames_usable(p1),
{
    assert forall|f: int| 0 <= f < p1.general().len() && !#[trigger] p1.general()[f]
        implies p1.usable_frame(f) && f >= p1.low().len() && f != 0 by {
        if frame_of(phys) <= f < frame_of(phys) + n && f >= p0.low().len() {
            let i = f - frame_of(phys);
            assert(freeable(p0, (phys + i * 4096) as u64));
            assert(frame_of((phys + i * 4096) as u64) == f);
        } else {
            assert(!p0.general()[f]);
        }
    }
}

/// Freeing the frame `alloc_frame` just handed out restores both pools:
/// the allocated frame always lies above the low-memory pool, so it goes
/// back to the general pool it came from.
pub proof fn law_alloc_then_free_restores(p0: &Pmm, p1: &Pmm, p2: &Pmm, phys: u64)
    requires
        p0.wf(),
        lowest_free(p0.general(), frame_of(phys)),
        p1.general() == p0.general().update(frame_of(phys), true),
        p1.low() == p0.low(),
        frame_of(phys) < p1.low().len() ==> p2.low() == p1.low().update(frame_of(phys), false) && p2.general() == p1.general(),
        frame_of(phys) >= p1.low().len() ==> p2.general() == p1.general().update(frame_of(phys), false) && p2.low() == p1.low(),
    ensures
        frame_of(phys) >= p0.low().len(),
        p2.general() == p0.general(),
        p2.low() == p0.low(),
{
    p0.lemma_wf_facts();
    assert(p2.general() =~= p0.general());
}

/// A pool whose first `k` frames are used has at most `len - k` free.
proof fn lemma_free_count_prefix_used(s: Seq<bool>, k: int)
    requires
        0 <= k <= s.len(),
        forall|f: int| 0 <= f < k ==> #[trigger] s[f],
    ensures
        free_count(s) + k <= s.len(),
    decreases s.len(),
{
    if s.len() > 0 {
        if s.len() > k {
            lemma_free_count_prefix_used(s.drop_last(), k);
        } else {
            assert(s[s.len() - 1]);
            lemma_free_count_prefix_used(s.drop_last(), k - 1);
        }
    }
}

/// What `stats` reports is consistent in every state of a sound PMM:
/// used and free frames add up to the total, and every frame below the
/// low pool's end counts as used in the general pool.
pub proof fn law_stats_consistent(pmm: &Pmm)
    requires
        pmm.wf(),
    ensures
        free_count(pmm.general()) <= pmm.general().len(),
        pmm.low().len() <= pmm.general().len() - free_count(pmm.general()),
{
    pmm.lemma_wf_facts();
    lemma_free_count_prefix_used(pmm.general(), pmm.low().len() as int);
}

/// Freeing the frame `alloc_frame` handed out undoes the allocation: the
/// general pool, the low pool and the free count are as before.
pub proof fn law_alloc_then_free_count(p0: &Pmm, p1: &Pmm, p2: &Pmm, phys: u64)
    requires
        p0.wf(),
        lowest_free(p0.general(), frame_of(phys)),
        p1.general() == p0.general().update(frame_of(phys), true),
        p1.low() == p0.low(),
        frame_of(phys) < p1.low().len() ==> p2.low() == p1.low().update(frame_of(phys), false) && p2.general() == p1.general(),
        frame_of(phys) >= p1.low().len() ==> p2.general() == p1.general().update(frame_of(phys), false) && p2.low() == p1.low(),
    ensures
        p2.general() == p0.general(),
        p2.low() == p0.low(),
        free_count(p2.general()) == free_count(p0.general()),
        !p2.general()[frame_of(phys)],
{
    law_alloc_then_free_restores(p0, p1, p2, phys);
}

} // verus!
