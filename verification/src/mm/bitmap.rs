//! `FrameBitmap`: one bit per 4 KiB physical frame, over caller-supplied
//! storage. Bit convention: `1` = used/unavailable, `0` = free.
use vstd::prelude::*;

verus! {

/// Whether bit `b` of word `w` is set.
pub open spec fn bit_set(w: u64, b: int) -> bool {
    (w >> (b as u64)) & 1 == 1
}

/// Setting bit `b` with `|` sets exactly that bit.
pub proof fn lemma_or_bit(x: u64, b: u64, c: u64)
    requires
        b < 64,
        c < 64,
    ensures
        bit_set(x | (1u64 << b), c as int) == (c == b || bit_set(x, c as int)),
{
    assert(((x | (1u64 << b)) >> c) & 1 == 1 <==> (c == b || (x >> c) & 1 == 1)) by (bit_vector)
        requires b < 64, c < 64;
}

/// Clearing bit `b` with `& !` clears exactly that bit.
pub proof fn lemma_and_not_bit(x: u64, b: u64, c: u64)
    requires
        b < 64,
        c < 64,
    ensures
        bit_set(x & !(1u64 << b), c as int) == (c != b && bit_set(x, c as int)),
{
    assert(((x & !(1u64 << b)) >> c) & 1 == 1 <==> (c != b && (x >> c) & 1 == 1)) by (bit_vector)
        requires b < 64, c < 64;
}

/// Testing bit `b` with `&`.
pub proof fn lemma_test_bit(x: u64, b: u64)
    requires
        b < 64,
    ensures
        (x & (1u64 << b) != 0) == bit_set(x, b as int),
{
    assert((x & (1u64 << b) != 0) <==> (x >> b) & 1 == 1) by (bit_vector)
        requires b < 64;
}

/// A window of `t` bits starting at bit `b` of `w`.
pub proof fn lemma_mask_window(w: u64, b: u64, t: u64, j: u64)
    requires
        0 < t < 64,
        b + t <= 64,
        j < 64,
    ensures
        bit_set(w & (((1u64 << t) - 1) as u64) << b, j as int) == (b <= j < b + t && bit_set(w, j as int)),
{
    assert((((w & ((((1u64 << t) - 1) as u64) << b)) >> j) & 1 == 1) <==> (b <= j && j < b + t && (w >> j) & 1 == 1))
        by (bit_vector)
        requires 0 < t < 64, b + t <= 64, j < 64;
}

/// All-ones and all-zeros words.
pub proof fn lemma_full_empty(c: u64)
    requires
        c < 64,
    ensures
        bit_set(u64::MAX, c as int),
        !bit_set(0u64, c as int),
{
    assert((u64::MAX >> c) & 1 == 1 && (0u64 >> c) & 1 == 0) by (bit_vector) requires c < 64;
}

/// Number of `false` (free) entries in `s`.
pub open spec fn free_count(s: Seq<bool>) -> nat
    decreases s.len(),
{
    if s.len() == 0 {
        0
    } else {
        free_count(s.drop_last()) + if s.last() { 0nat } else { 1nat }
    }
}

/// A pool with every frame free counts every frame free.
pub proof fn law_all_free_counts_all(s: Seq<bool>)
    requires
        forall|i: int| 0 <= i < s.len() ==> !#[trigger] s[i],
    ensures
        free_count(s) == s.len(),
    decreases s.len(),
{
    if s.len() > 0 {
        assert(!s[s.len() - 1]);
        law_all_free_counts_all(s.drop_last());
    }
}

/// Every frame in `[start, start + n)` is free.
pub open spec fn run_free(s: Seq<bool>, start: int, n: int) -> bool {
    forall|k: int| start <= k < start + n ==> !#[trigger] s[k]
}

/// The view of a bitmap has one entry per frame it covers.
pub broadcast proof fn lemma_view_len(b: &FrameBitmap)
    ensures
        #[trigger] b@.len() == b.spec_count(),
{
}

/// A bitmap over frames `[base_frame, base_frame + frame_count)`, backed by
/// `words` (which hold at least `frame_count` bits).
pub struct FrameBitmap {
    words: Vec<u64>,
    base_frame: u64,
    frame_count: usize,
}

impl FrameBitmap {
    /// The backing words hold every frame's bit, and absolute frame
    /// numbers never overflow.
    pub closed spec fn wf(&self) -> bool {
        &&& self.frame_count <= self.words@.len() * 64
        &&& self.base_frame + self.frame_count <= u64::MAX
    }

    /// Bit of relative frame `rel`.
    pub closed spec fn used(&self, rel: int) -> bool {
        bit_set(self.words@[rel / 64], rel % 64)
    }

    /// The used/free state of every frame, indexed relative to `base_frame`.
    pub closed spec fn view(&self) -> Seq<bool> {
        Seq::new(self.frame_count as nat, |i: int| self.used(i))
    }

    pub closed spec fn spec_base(&self) -> u64 {
        self.base_frame
    }

    pub closed spec fn spec_count(&self) -> nat {
        self.frame_count as nat
    }

    /// Number of backing words.
    pub closed spec fn word_count(&self) -> nat {
        self.words@.len()
    }

    /// Whether `rel` lies in `[start, start + n)` and starts a run that is
    /// a candidate answer for `find_free_run(n, align)`.
    pub open spec fn candidate(&self, rel: int, n: int, align: int) -> bool {
        &&& 0 <= rel
        &&& rel + n <= self.spec_count()
        &&& (self.spec_base() + rel) % align == 0
        &&& run_free(self@, rel, n)
    }

    /// Wraps `words` as a bitmap for `frame_count` frames starting at
    /// `base_frame`. Bits are left exactly as `words` already held.
    pub fn new(words: Vec<u64>, base_frame: u64, frame_count: usize) -> (r: Self)
        requires
            frame_count <= words@.len() * 64,
            base_frame + frame_count <= u64::MAX,
        ensures
            r.wf(),
            r.spec_base() == base_frame,
            r.spec_count() == frame_count,
            r.word_count() == words@.len(),
            forall|i: int| 0 <= i < frame_count ==> r@[i] == bit_set(words@[i / 64], i % 64),
    {
        FrameBitmap { words, base_frame, frame_count }
    }

    pub fn base_frame(&self) -> (r: u64)
        ensures
            r == self.spec_base(),
    {
        self.base_frame
    }

    pub fn frame_count(&self) -> (r: usize)
        ensures
            r == self.spec_count(),
    {
        self.frame_count
    }

    /// Marks every frame in range used.
    pub fn fill_used(&mut self)
        requires
            old(self).wf(),
        ensures
            final(self).wf(),
            final(self).spec_base() == old(self).spec_base(),
            final(self).spec_count() == old(self).spec_count(),
            final(self).word_count() == old(self).word_count(),
            forall|i: int| 0 <= i < final(self).spec_count() ==> #[trigger] final(self)@[i],
    {
        self.fill_with(u64::MAX);
        proof {
            assert forall|i: int| 0 <= i < self.spec_count() implies #[trigger] self@[i] by {
                lemma_full_empty((i % 64) as u64);
            }
        }
    }

    /// Marks every frame in range free.
    pub fn fill_free(&mut self)
        requires
            old(self).wf(),
        ensures
            final(self).wf(),
            final(self).spec_base() == old(self).spec_base(),
            final(self).spec_count() == old(self).spec_count(),
            final(self).word_count() == old(self).word_count(),
            forall|i: int| 0 <= i < final(self).spec_count() ==> !#[trigger] final(self)@[i],
    {
        self.fill_with(0);
        proof {
            assert forall|i: int| 0 <= i < self.spec_count() implies !#[trigger] self@[i] by {
                lemma_full_empty((i % 64) as u64);
            }
        }
    }

    fn fill_with(&mut self, value: u64)
        requires
            old(self).wf(),
        ensures
            final(self).wf(),
            final(self).spec_base() == old(self).spec_base(),
            final(self).spec_count() == old(self).spec_count(),
            final(self).words@ == Seq::new(old(self).words@.len(), |i: int| value),
    {
        let n = self.words.len();
        let mut i: usize = 0;
        while i < n
            invariant
                n == self.words@.len(),
                n == old(self).words@.len(),
                self.base_frame == old(self).base_frame,
                self.frame_count == old(self).frame_count,
                0 <= i <= n,
                forall|j: int| 0 <= j < i ==> self.words@[j] == value,
            decreases n - i,
        {
            self.words.set(i, value);
            i += 1;
        }
        proof {
            assert(self.words@ =~= Seq::new(old(self).words@.len(), |i: int| value));
        }
    }

    /// Converts an absolute frame number to a `(word index, bit index)`
    /// pair into the backing words.
    fn word_and_bit(&self, frame: u64) -> (r: (usize, u32))
        requires
            self.wf(),
            self.spec_base() <= frame < self.spec_base() + self.spec_count(),
        ensures
            r.0 == (frame - self.spec_base()) / 64,
            r.1 == (frame - self.spec_base()) % 64,
            r.0 < self.word_count(),
    {
        let rel = (frame - self.base_frame) as usize;
        proof {
            assert(rel / 64 < self.words@.len()) by (nonlinear_arith)
                requires rel < self.frame_count, self.frame_count <= self.words@.len() * 64;
        }
        (rel / 64, (rel % 64) as u32)
    }

    /// Marks `frame` used.
    pub fn set_used(&mut self, frame: u64)
        requires
            old(self).wf(),
            old(self).spec_base() <= frame < old(self).spec_base() + old(self).spec_count(),
        ensures
            final(self).wf(),
            final(self).spec_base() == old(self).spec_base(),
            final(self).spec_count() == old(self).spec_count(),
            final(self).word_count() == old(self).word_count(),
            final(self)@ == old(self)@.update(frame - old(self).spec_base(), true),
    {
        let (word, bit) = self.word_and_bit(frame);
        let ghost before = self@;
        let w = self.words[word];
        self.words.set(word, w | (1u64 << bit));
        proof {
            let rel = frame - self.base_frame;
            assert forall|i: int| 0 <= i < self.frame_count implies #[trigger] self@[i] == before.update(rel, true)[i] by {
                if i / 64 == word as int {
                    lemma_or_bit(w, bit as u64, (i % 64) as u64);
                }
            }
            assert(self@ =~= before.update(rel, true));
        }
    }

    /// Marks `frame` free.
    pub fn set_free(&mut self, frame: u64)
        requires
            old(self).wf(),
            old(self).spec_base() <= frame < old(self).spec_base() + old(self).spec_count(),
        ensures
            final(self).wf(),
            final(self).spec_base() == old(self).spec_base(),
            final(self).spec_count() == old(self).spec_count(),
            final(self).word_count() == old(self).word_count(),
            final(self)@ == old(self)@.update(frame - old(self).spec_base(), false),
    {
        let (word, bit) = self.word_and_bit(frame);
        let ghost before = self@;
        let w = self.words[word];
        self.words.set(word, w & !(1u64 << bit));
        proof {
            let rel = frame - self.base_frame;
            assert forall|i: int| 0 <= i < self.frame_count implies #[trigger] self@[i] == before.update(rel, false)[i] by {
                if i / 64 == word as int {
                    lemma_and_not_bit(w, bit as u64, (i % 64) as u64);
                }
            }
            assert(self@ =~= before.update(rel, false));
        }
    }

    /// Whether `frame` is currently marked used.
    pub fn is_used(&self, frame: u64) -> (r: bool)
        requires
            self.wf(),
            self.spec_base() <= frame < self.spec_base() + self.spec_count(),
        ensures
            r == self@[frame - self.spec_base()],
    {
        let (word, bit) = self.word_and_bit(frame);
        proof {
            lemma_test_bit(self.words@[word as int], bit as u64);
        }
        self.words[word] & (1u64 << bit) != 0
    }

    /// Number of free frames in `[base_frame, base_frame + frame_count)`.
    /// Padding bits in the final word are never counted either way.
    pub fn count_free(&self) -> (r: usize)
        requires
            self.wf(),
        ensures
            r == free_count(self@),
    {
        let mut free: usize = 0;
        let mut i: usize = 0;
        while i < self.frame_count
            invariant
                0 <= i <= self.frame_count,
                self.frame_count <= self.words@.len() * 64,
                free == free_count(self@.subrange(0, i as int)),
                free <= i,
            decreases self.frame_count - i,
        {
            proof {
                assert(i / 64 < self.words@.len()) by (nonlinear_arith)
                    requires i < self.frame_count, self.frame_count <= self.words@.len() * 64;
                lemma_test_bit(self.words@[(i / 64) as int], (i % 64) as u64);
                assert(self@.subrange(0, i + 1).drop_last() =~= self@.subrange(0, i as int));
            }
            if self.words[i / 64] & (1u64 << ((i % 64) as u64)) == 0 {
                free += 1;
            }
            i += 1;
        }
        proof {
            assert(self@.subrange(0, self.frame_count as int) =~= self@);
        }
        free
    }

    /// Scans relative frames `[start, start + len)`, skipping a whole
    /// word's worth of bits at once whenever they are all free; returns the
    /// relative index of the first used frame in that range, or `None` if
    /// every frame in it is free.
    fn first_used_rel(&self, start: usize, len: usize) -> (r: Option<usize>)
        requires
            self.wf(),
            start + len <= self.spec_count(),
        ensures
            match r {
                Some(u) => start <= u < start + len && self@[u as int] && run_free(self@, start as int, u - start),
                None => run_free(self@, start as int, len as int),
            },
    {
        let end = start + len;
        let mut i = start;
        while i < end
            invariant
                start <= i <= end,
                end == start + len,
                end <= self.frame_count,
                self.frame_count <= self.words@.len() * 64,
                run_free(self@, start as int, i - start),
            decreases end - i,
        {
            let word = i / 64;
            let bit = i % 64;
            let take = if 64 - bit < end - i { 64 - bit } else { end - i };
            proof {
                let t = take as u64;
                assert(0 < t < 64 ==> (1u64 << t) >= 1) by (bit_vector);
            }
            let mask = if take == 64 { u64::MAX } else { ((1u64 << (take as u64)) - 1) << (bit as u64) };
            proof {
                assert(word < self.words@.len()) by (nonlinear_arith)
                    requires word == i / 64, i < self.frame_count, self.frame_count <= self.words@.len() * 64;
            }
            let w = self.words[word];
            let hit = w & mask;
            proof {
                // Bit j of `hit` is bit j of `w` exactly when j lies in the window.
                assert forall|j: u64| j < 64 implies bit_set(hit, j as int) == (bit <= j < bit + take && bit_set(w, j as int)) by {
                    if take == 64 {
                        assert(bit == 0);
                        assert(((w & u64::MAX) >> j) & 1 == (w >> j) & 1) by (bit_vector);
                    } else {
                        lemma_mask_window(w, bit as u64, take as u64, j);
                    }
                }
            }
            if hit != 0 {
                let tz = hit.trailing_zeros();
                proof {
                    vstd::std_specs::bits::axiom_u64_trailing_zeros(hit);
                    assert(bit_set(hit, tz as int));
                    assert(bit <= tz < bit + take);
                    let u = word * 64 + tz;
                    assert(u == i + (tz - bit));
                    assert(self@[u as int]) by {
                        assert(u / 64 == word && u % 64 == tz);
                    }
                    assert forall|k: int| start <= k < u implies !#[trigger] self@[k] by {
                        if k >= i {
                            let jj = (k % 64) as u64;
                            assert(k / 64 == word && k % 64 == bit + (k - i));
                            assert(jj < tz);
                            assert((hit >> jj) & 1 == 0);
                            assert(!bit_set(hit, jj as int));
                        }
                    }
                }
                return Some(word * 64 + tz as usize);
            }
            proof {
                assert forall|k: int| start <= k < i + take implies !#[trigger] self@[k] by {
                    if k >= i {
                        let jj = (k % 64) as u64;
                        assert(k / 64 == word && k % 64 == bit + (k - i));
                        assert((0u64 >> jj) & 1 == 0) by (bit_vector) requires jj < 64;
                        assert(!bit_set(hit, jj as int));
                    }
                }
            }
            i += take;
        }
        None
    }

    /// Finds `n` consecutive free frames whose starting absolute frame
    /// number is a multiple of `align_frames`. Returns the absolute frame
    /// number of the lowest such run's first frame, or `None` if no such
    /// run exists.
    pub fn find_free_run(&self, n: usize, align_frames: u64) -> (r: Option<u64>)
        requires
            self.wf(),
            n > 0,
            align_frames > 0,
        ensures
            match r {
                Some(abs) => {
                    &&& abs >= self.spec_base()
                    &&& self.candidate(abs - self.spec_base(), n as int, align_frames as int)
                    &&& forall|rel: int| 0 <= rel < abs - self.spec_base() ==> !self.candidate(rel, n as int, align_frames as int)
                },
                None => forall|rel: int| !self.candidate(rel, n as int, align_frames as int),
            },
    {
        let mut start_rel: usize = 0;
        while start_rel <= self.frame_count && n <= self.frame_count - start_rel
            invariant
                self.wf(),
                n > 0,
                align_frames > 0,
                self.base_frame + self.frame_count <= u64::MAX,
                forall|rel: int| 0 <= rel < start_rel ==> !self.candidate(rel, n as int, align_frames as int),
            decreases self.frame_count - start_rel,
        {
            let abs = self.base_frame + start_rel as u64;
            let rem = abs % align_frames;
            if rem != 0 {
                let gap = align_frames - rem;
                if gap as u128 + start_rel as u128 + n as u128 > self.frame_count as u128 {
                    proof {
                        assert forall|rel: int| start_rel <= rel implies !self.candidate(rel, n as int, align_frames as int) by {
                            if rel < start_rel + gap {
                                lemma_no_multiple_between(abs as int, rel - start_rel + abs, align_frames as int);
                            }
                        }
                    }
                    return None;
                }
                proof {
                    assert forall|rel: int| start_rel <= rel < start_rel + gap implies !self.candidate(rel, n as int, align_frames as int) by {
                        lemma_no_multiple_between(abs as int, rel - start_rel + abs, align_frames as int);
                    }
                }
                start_rel = start_rel + gap as usize;
                continue;
            }
            match self.first_used_rel(start_rel, n) {
                None => {
                    return Some(abs);
                },
                Some(used_rel) => {
                    proof {
                        assert forall|rel: int| start_rel <= rel <= used_rel implies !self.candidate(rel, n as int, align_frames as int) by {
                            if rel + n <= self.frame_count {
                                assert(rel <= used_rel < rel + n);
                                assert(self@[used_rel as int]);
                            }
                        }
                    }
                    start_rel = used_rel + 1;
                },
            }
        }
        None
    }
}

/// Between `x` (not a multiple of `a`) and the next multiple of `a`, no
/// value is a multiple of `a`.
pub proof fn lemma_no_multiple_between(x: int, y: int, a: int)
    requires
        a > 0,
        x >= 0,
        x % a != 0,
        x <= y < x + (a - x % a),
    ensures
        y % a != 0,
{
    let q = x / a;
    let r = x % a;
    assert(x == a * q + r) by (nonlinear_arith) requires a > 0, q == x / a, r == x % a;
    assert(y == a * q + (r + (y - x)));
    assert(0 < r + (y - x) < a);
    assert(y % a == r + (y - x)) by (nonlinear_arith)
        requires y == a * q + (r + (y - x)), 0 < r + (y - x) < a, a > 0;
}

} // verus!
