//! Entropy bookkeeping: folding a timing delta into a sample byte, the
//! 256-slot ring interrupt handlers drop jitter samples into, and the
//! statistics report. The generator itself runs outside this library.
use vstd::prelude::*;

verus! {

/// What the entropy subsystem reports.
#[derive(Clone, Copy, Debug, PartialEq, Eq, Structural)]
pub struct RandomStats {
    pub rdseed: bool,
    pub rdrand: bool,
    pub rdseed_samples: u64,
    pub rdrand_samples: u64,
    pub jitter_samples: u64,
    pub healthy_sources: usize,
    pub reseeds: u64,
}

/// The report from the CPU's features, the sample counters, and the
/// generator's `(healthy sources, reseeds)` once it exists (zeros before).
pub fn stats(rdseed: bool, rdrand: bool, rdseed_samples: u64, rdrand_samples: u64, jitter_samples: u64,
    generator: Option<(usize, u64)>) -> (r: RandomStats)
    ensures
        r == (RandomStats {
            rdseed, rdrand, rdseed_samples, rdrand_samples, jitter_samples,
            healthy_sources: match generator { Some(g) => g.0, None => 0 },
            reseeds: match generator { Some(g) => g.1, None => 0 },
        }),
{
    let (healthy_sources, reseeds) = match generator {
        Some(g) => g,
        None => (0, 0),
    };
    RandomStats { rdseed, rdrand, rdseed_samples, rdrand_samples, jitter_samples, healthy_sources, reseeds }
}

/// Byte `k` (0..8) of `v`.
pub open spec fn byte_of(v: u64, k: int) -> u8 {
    ((v >> (8 * k) as u64) & 0xff) as u8
}

/// A timing delta folded into one sample byte: the xor of its eight
/// bytes.
pub fn fold_delta(delta: u64) -> (r: u8)
    ensures
        r == byte_of(delta, 0) ^ byte_of(delta, 1) ^ byte_of(delta, 2) ^ byte_of(delta, 3)
            ^ byte_of(delta, 4) ^ byte_of(delta, 5) ^ byte_of(delta, 6) ^ byte_of(delta, 7),
{
    let r = (delta & 0xff) as u8 ^ ((delta >> 8u64) & 0xff) as u8 ^ ((delta >> 16u64) & 0xff) as u8
        ^ ((delta >> 24u64) & 0xff) as u8 ^ ((delta >> 32u64) & 0xff) as u8 ^ ((delta >> 40u64) & 0xff) as u8
        ^ ((delta >> 48u64) & 0xff) as u8 ^ ((delta >> 56u64) & 0xff) as u8;
    proof {
        assert(delta & 0xff == (delta >> 0u64) & 0xff) by (bit_vector);
    }
    r
}

/// The jitter ring: 256 sample slots, where the next sample goes, and
/// where the next unread one is.
pub struct JitterRing {
    slots: Vec<u8>,
    write_idx: usize,
    read_idx: usize,
}

impl JitterRing {
    pub closed spec fn slots_spec(&self) -> Seq<u8> {
        self.slots@
    }

    pub closed spec fn write_spec(&self) -> int {
        self.write_idx as int
    }

    pub closed spec fn read_spec(&self) -> int {
        self.read_idx as int
    }

    /// 256 slots, both indices within them.
    pub open spec fn wf(&self) -> bool {
        &&& self.slots_spec().len() == 256
        &&& 0 <= self.write_spec() < 256
        &&& 0 <= self.read_spec() < 256
    }

    /// The unread samples, oldest first.
    pub open spec fn pending(&self) -> Seq<u8> {
        let n = (self.write_spec() - self.read_spec() + 256) % 256;
        Seq::new(n as nat, |k: int| self.slots_spec()[(self.read_spec() + k) % 256])
    }

    /// An empty ring.
    pub fn new() -> (r: Self)
        ensures
            r.wf(),
            r.pending().len() == 0,
            r.write_spec() == 0,
            r.read_spec() == 0,
    {
        let mut slots: Vec<u8> = Vec::new();
        let mut i: usize = 0;
        while i < 256
            invariant
                i <= 256,
                slots@.len() == i,
            decreases 256 - i,
        {
            slots.push(0);
            i = i + 1;
        }
        JitterRing { slots, write_idx: 0, read_idx: 0 }
    }

    /// Drops sample `byte` into the ring (overwriting the oldest unread
    /// one when the ring is full).
    pub fn add_jitter_sample(&mut self, byte: u8)
        requires
            old(self).wf(),
        ensures
            final(self).wf(),
            final(self).slots_spec() == old(self).slots_spec().update(old(self).write_spec(), byte),
            final(self).write_spec() == (old(self).write_spec() + 1) % 256,
            final(self).read_spec() == old(self).read_spec(),
            old(self).pending().len() < 255 ==> final(self).pending() == old(self).pending().push(byte),
    {
        let w = self.write_idx;
        self.slots.set(w, byte);
        self.write_idx = (w + 1) & 0xff;
        proof {
            let w1 = (w + 1) as usize;
            assert(w1 & 0xff == w1 % 256) by (bit_vector);
            let rd = self.read_idx as int;
            let n0 = old(self).pending().len() as int;
            if n0 < 255 {
                assert(n0 == (w - rd + 256) % 256);
                if w >= rd {
                    vstd::arithmetic::div_mod::lemma_small_mod((w - rd) as nat, 256);
                    vstd::arithmetic::div_mod::lemma_mod_add_multiples_vanish((w - rd) as int, 256);
                } else {
                    vstd::arithmetic::div_mod::lemma_small_mod((w - rd + 256) as nat, 256);
                }
                assert(n0 + 1 < 256);
                assert(self.pending().len() == n0 + 1) by {
                    if w + 1 < 256 {
                        if w + 1 >= rd {
                            vstd::arithmetic::div_mod::lemma_small_mod((w + 1 - rd) as nat, 256);
                            vstd::arithmetic::div_mod::lemma_mod_add_multiples_vanish((w + 1 - rd) as int, 256);
                        } else {
                            vstd::arithmetic::div_mod::lemma_small_mod((w + 1 - rd + 256) as nat, 256);
                        }
                    } else {
                        vstd::arithmetic::div_mod::lemma_small_mod((256 - rd) as nat, 256);
                    }
                }
                assert forall|k: int| 0 <= k < n0 + 1 implies #[trigger] self.pending()[k] == old(self).pending().push(byte)[k] by {
                    let idx = (rd + k) % 256;
                    if rd + k < 256 {
                        vstd::arithmetic::div_mod::lemma_small_mod((rd + k) as nat, 256);
                    } else {
                        vstd::arithmetic::div_mod::lemma_mod_sub_multiples_vanish((rd + k) as int, 256);
                        vstd::arithmetic::div_mod::lemma_small_mod((rd + k - 256) as nat, 256);
                    }
                    if k < n0 {
                        assert(idx != w);
                    } else {
                        assert(idx == w);
                    }
                }
                assert(self.pending() =~= old(self).pending().push(byte));
            }
        }
    }

    /// Takes every unread sample, oldest first.
    pub fn drain(&mut self) -> (r: Vec<u8>)
        requires
            old(self).wf(),
        ensures
            final(self).wf(),
            r@ == old(self).pending(),
            final(self).pending().len() == 0,
            final(self).slots_spec() == old(self).slots_spec(),
            final(self).write_spec() == old(self).write_spec(),
    {
        let ghost p = self.pending();
        let mut out: Vec<u8> = Vec::new();
        while self.read_idx != self.write_idx
            invariant
                self.wf(),
                self.slots_spec() == old(self).slots_spec(),
                self.write_spec() == old(self).write_spec(),
                p == old(self).pending(),
                out@.len() + self.pending().len() == p.len(),
                out@ + self.pending() == p,
            decreases self.pending().len(),
        {
            let r = self.read_idx;
            out.push(self.slots[r]);
            self.read_idx = (r + 1) & 0xff;
            proof {
                let r1 = (r + 1) as usize;
                assert(r1 & 0xff == r1 % 256) by (bit_vector);
                let before = Seq::new(((self.write_spec() - r + 256) % 256) as nat, |k: int| self.slots_spec()[(r + k) % 256]);
                assert(before.len() > 0);
                assert(self.pending() =~= before.drop_first()) by {
                    assert forall|k: int| 0 <= k < self.pending().len() implies self.pending()[k] == before[k + 1] by {
                        vstd::arithmetic::div_mod::lemma_add_mod_noop(r + 1, k, 256);
                        vstd::arithmetic::div_mod::lemma_small_mod(k as nat, 256);
                        vstd::arithmetic::div_mod::lemma_small_mod((r + 1) as nat % 256, 256);
                    }
                }
                assert(out@ + self.pending() =~= p);
            }
        }
        proof {
            assert(self.pending().len() == 0);
            assert(out@ =~= p);
        }
        out
    }
}

} // verus!
