//! Physical/virtual address newtypes shared by every `mm` submodule. Both
//! wrap a bare `u64`, stay distinct types, and offer the same alignment
//! helpers.
use vstd::prelude::*;
use vstd::arithmetic::power2::pow2;
use vstd::bits::low_bits_mask;

verus! {

/// Size in bytes of one physical page frame -- the unit the whole `mm`
/// subsystem hands out and reclaims memory in.
pub const FRAME_SIZE: usize = 4096;

/// Whether `a` is a power of two that fits in 64 bits.
pub open spec fn is_pow2(a: u64) -> bool {
    exists|n: nat| n < 64 && a as nat == pow2(n)
}

/// `x` rounded down to a multiple of `a`.
pub open spec fn round_down(x: int, a: int) -> int {
    x - x % a
}

/// `x` rounded up to a multiple of `a`.
pub open spec fn round_up(x: int, a: int) -> int {
    if x % a == 0 { x } else { x - x % a + a }
}

/// For a power-of-two `a`, masking with `!(a - 1)` rounds down and masking
/// with `a - 1` is the remainder.
pub proof fn lemma_pow2_mask(x: u64, a: u64)
    requires
        is_pow2(a),
    ensures
        a >= 1,
        x & !((a - 1) as u64) == x - x % a,
        x & ((a - 1) as u64) == x % a,
{
    let n = choose|n: nat| n < 64 && a as nat == pow2(n);
    vstd::bits::lemma_u64_pow2_no_overflow(n);
    vstd::bits::lemma_u64_low_bits_mask_is_mod(x, n);
    let m = (a - 1) as u64;
    assert(low_bits_mask(n) as u64 == m);
    assert(x & !m == x - (x & m)) by (bit_vector);
}

/// `(x + a - 1)` rounded down is `x` rounded up.
pub proof fn lemma_round_up(x: int, a: int)
    requires
        a > 0,
        x >= 0,
    ensures
        (x + a - 1) - (x + a - 1) % a == round_up(x, a),
{
    let q = x / a;
    let r = x % a;
    assert(x == a * q + r && 0 <= r < a) by (nonlinear_arith)
        requires a > 0, q == x / a, r == x % a;
    if r == 0 {
        assert((x + a - 1) % a == a - 1 && (x + a - 1) / a == q) by (nonlinear_arith)
            requires x == a * q, a > 0;
    } else {
        assert((x + a - 1) % a == r - 1) by (nonlinear_arith)
            requires x == a * q + r, 0 < r < a, a > 0;
    }
}

/// A physical memory address. Not directly dereferenceable.
#[derive(Clone, Copy, PartialEq, Eq, Structural, Debug)]
pub struct PhysAddr(pub u64);

/// A virtual (CPU-visible) memory address.
#[derive(Clone, Copy, PartialEq, Eq, Structural, Debug)]
pub struct VirtAddr(pub u64);

impl PhysAddr {
    /// Wraps a raw address. No validation.
    pub fn new(addr: u64) -> (r: Self)
        ensures
            r.0 == addr,
    {
        PhysAddr(addr)
    }

    pub fn as_u64(self) -> (r: u64)
        ensures
            r == self.0,
    {
        self.0
    }

    /// Rounds down to the previous multiple of `align` (a power of two).
    pub fn align_down(self, align: u64) -> (r: Self)
        requires
            is_pow2(align),
        ensures
            r.0 == round_down(self.0 as int, align as int),
    {
        proof {
            lemma_pow2_mask(self.0, align);
        }
        PhysAddr(self.0 & !(align - 1))
    }

    /// Rounds up to the next multiple of `align` (a power of two); an
    /// already-aligned address is returned unchanged.
    pub fn align_up(self, align: u64) -> (r: Self)
        requires
            is_pow2(align),
            self.0 + align - 1 <= u64::MAX,
        ensures
            r.0 == round_up(self.0 as int, align as int),
    {
        proof {
            lemma_pow2_mask(self.0, align);
        }
        let y = self.0 + (align - 1);
        proof {
            lemma_pow2_mask(y, align);
            lemma_round_up(self.0 as int, align as int);
        }
        PhysAddr(y & !(align - 1))
    }

    /// Whether this address is already a multiple of `align` (a power of two).
    pub fn is_aligned(self, align: u64) -> (r: bool)
        requires
            is_pow2(align),
        ensures
            r == (self.0 % align == 0),
    {
        proof {
            lemma_pow2_mask(self.0, align);
        }
        self.0 & (align - 1) == 0
    }

    /// This address's 4 KiB frame number.
    pub fn frame_index(self) -> (r: u64)
        ensures
            r == self.0 / 4096,
    {
        self.0 / 4096
    }
}

impl VirtAddr {
    /// Wraps a raw address. No validation.
    pub fn new(addr: u64) -> (r: Self)
        ensures
            r.0 == addr,
    {
        VirtAddr(addr)
    }

    pub fn as_u64(self) -> (r: u64)
        ensures
            r == self.0,
    {
        self.0
    }

    /// Rounds down to the previous multiple of `align` (a power of two).
    pub fn align_down(self, align: u64) -> (r: Self)
        requires
            is_pow2(align),
        ensures
            r.0 == round_down(self.0 as int, align as int),
    {
        proof {
            lemma_pow2_mask(self.0, align);
        }
        VirtAddr(self.0 & !(align - 1))
    }

    /// Whether this address is already a multiple of `align` (a power of two).
    pub fn is_aligned(self, align: u64) -> (r: bool)
        requires
            is_pow2(align),
        ensures
            r == (self.0 % align == 0),
    {
        proof {
            lemma_pow2_mask(self.0, align);
        }
        self.0 & (align - 1) == 0
    }

    /// This address's 4 KiB frame number.
    pub fn frame_index(self) -> (r: u64)
        ensures
            r == self.0 / 4096,
    {
        self.0 / 4096
    }
}

} // verus!
