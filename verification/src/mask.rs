//! The per-frame query pattern.
//!
//! A mask is an RGBA pixel buffer whose first two channels carry the
//! pattern's intensity/gradient signal; the third carries the synthesis
//! weight used as the blue bonus channel.  Cross-frame pruning asks whether
//! two masks are highly similar, by cosine similarity over the two signal
//! channels; the comparison against a rational threshold is made exactly on
//! integers (squaring both sides), with no rounding anywhere.

use vstd::prelude::*;

verus! {

/// Masks are small (a down-scaled video frame); this bound keeps every sum
/// in range on any machine.
pub const MASK_MAX_DIM: u32 = 4096;

pub struct Mask {
    pub width: u32,
    pub height: u32,
    /// RGBA bytes, row-major, 4 per pixel.
    pub data: Vec<u8>,
}

impl Mask {
    pub open spec fn well_formed(self) -> bool {
        &&& self.width >= 1
        &&& self.height >= 1
        &&& self.width <= MASK_MAX_DIM
        &&& self.height <= MASK_MAX_DIM
        &&& self.data@.len() == 4 * self.width * self.height
    }

    /// Number of pixels.
    pub open spec fn pixels(self) -> int {
        self.width * self.height
    }

    /// Channel `c` of the `i`-th pixel in row-major order.
    pub open spec fn chan(self, i: int, c: int) -> u8 {
        self.data@[4 * i + c]
    }

    pub fn new(width: u32, height: u32, data: Vec<u8>) -> (r: Mask)
        requires
            1 <= width <= MASK_MAX_DIM,
            1 <= height <= MASK_MAX_DIM,
            data@.len() == 4 * width * height,
        ensures
            r.well_formed(),
            r.width == width,
            r.height == height,
            r.data@ == data@,
    {
        Mask { width, height, data }
    }
}

/// Sum over the first `n` pixels of the two-channel products of `a` and
/// `b`: with `a == b` this is a squared norm.
pub open spec fn dot_pre(a: Mask, b: Mask, n: int) -> int
    decreases n,
{
    if n <= 0 {
        0
    } else {
        dot_pre(a, b, n - 1) + a.chan(n - 1, 0) * b.chan(n - 1, 0) + a.chan(n - 1, 1) * b.chan(
            n - 1,
            1,
        )
    }
}

/// The full two-channel dot product of two same-sized masks.
pub open spec fn dot_full(a: Mask, b: Mask) -> int {
    dot_pre(a, b, a.pixels())
}

proof fn lemma_dot_pre_bound(a: Mask, b: Mask, n: int)
    requires
        a.well_formed(),
        b.well_formed(),
        a.width == b.width,
        a.height == b.height,
        0 <= n <= a.pixels(),
    ensures
        0 <= dot_pre(a, b, n) <= 130050 * n,
    decreases n,
{
    if n > 0 {
        lemma_dot_pre_bound(a, b, n - 1);
        assert(a.chan(n - 1, 0) * b.chan(n - 1, 0) <= 65025) by (nonlinear_arith)
            requires a.chan(n - 1, 0) <= 255, b.chan(n - 1, 0) <= 255,
        ;
        assert(a.chan(n - 1, 1) * b.chan(n - 1, 1) <= 65025) by (nonlinear_arith)
            requires a.chan(n - 1, 1) <= 255, b.chan(n - 1, 1) <= 255,
        ;
        assert(a.chan(n - 1, 0) * b.chan(n - 1, 0) >= 0) by (nonlinear_arith)
            requires a.chan(n - 1, 0) >= 0, b.chan(n - 1, 0) >= 0,
        ;
        assert(a.chan(n - 1, 1) * b.chan(n - 1, 1) >= 0) by (nonlinear_arith)
            requires a.chan(n - 1, 1) >= 0, b.chan(n - 1, 1) >= 0,
        ;
    }
}

/// The exact dot product and the two squared norms of two same-sized masks.
pub fn dot_parts(a: &Mask, b: &Mask) -> (r: (u64, u64, u64))
    requires
        a.well_formed(),
        b.well_formed(),
        a.width == b.width,
        a.height == b.height,
    ensures
        r.0 == dot_full(*a, *b),
        r.1 == dot_full(*a, *a),
        r.2 == dot_full(*b, *b),
{
    proof {
        assert((a.width as int) * (a.height as int) <= 0x100_0000) by (nonlinear_arith)
            requires 1 <= a.width <= MASK_MAX_DIM, 1 <= a.height <= MASK_MAX_DIM,
        ;
        assert(4 * (a.width as int) * (a.height as int) == 4 * ((a.width as int) * (a.height
            as int))) by (nonlinear_arith);
    }
    let n: usize = (a.width as usize) * (a.height as usize);
    let mut sum: u64 = 0;
    let mut norm1: u64 = 0;
    let mut norm2: u64 = 0;
    let mut i: usize = 0;
    while i < n
        invariant
            i <= n,
            n == a.pixels(),
            n <= 0x100_0000,
            a.well_formed(),
            b.well_formed(),
            a.width == b.width,
            a.height == b.height,
            a.data@.len() == 4 * n,
            b.data@.len() == 4 * n,
            sum == dot_pre(*a, *b, i as int),
            norm1 == dot_pre(*a, *a, i as int),
            norm2 == dot_pre(*b, *b, i as int),
        decreases n - i,
    {
        proof {
            lemma_dot_pre_bound(*a, *b, i as int);
            lemma_dot_pre_bound(*a, *a, i as int);
            lemma_dot_pre_bound(*b, *b, i as int);
            lemma_dot_pre_bound(*a, *b, i + 1);
            lemma_dot_pre_bound(*a, *a, i + 1);
            lemma_dot_pre_bound(*b, *b, i + 1);
            assert(130050 * (i + 1) <= 130050 * 0x100_0000) by (nonlinear_arith)
                requires i + 1 <= 0x100_0000,
            ;
        }
        let a0 = a.data[4 * i] as u64;
        let a1 = a.data[4 * i + 1] as u64;
        let b0 = b.data[4 * i] as u64;
        let b1 = b.data[4 * i + 1] as u64;
        sum = sum + a0 * b0 + a1 * b1;
        norm1 = norm1 + a0 * a0 + a1 * a1;
        norm2 = norm2 + b0 * b0 + b1 * b1;
        i = i + 1;
    }
    (sum, norm1, norm2)
}

/// Cosine similarity of `a` and `b` is at least `num / den`, decided
/// exactly: `dot / (|a| |b|) >= num / den` iff
/// `den^2 dot^2 >= num^2 |a|^2 |b|^2` (all quantities non-negative).
/// A mask with an all-zero signal counts as similar to everything, as the
/// comparison degenerates to `0 >= 0`.
pub open spec fn similar_at_least_spec(a: Mask, b: Mask, num: int, den: int) -> bool {
    den * den * (dot_full(a, b) * dot_full(a, b)) >= num * num * (dot_full(a, a) * dot_full(
        b,
        b,
    ))
}

/// Decide the similarity threshold exactly.
pub fn similar_at_least(a: &Mask, b: &Mask, num: u32, den: u32) -> (r: bool)
    requires
        a.well_formed(),
        b.well_formed(),
        a.width == b.width,
        a.height == b.height,
        1 <= den <= 1000,
        num <= 1000,
    ensures
        r == similar_at_least_spec(*a, *b, num as int, den as int),
{
    let (sum, norm1, norm2) = dot_parts(a, b);
    proof {
        lemma_dot_pre_bound(*a, *b, a.pixels());
        lemma_dot_pre_bound(*a, *a, a.pixels());
        lemma_dot_pre_bound(*b, *b, b.pixels());
        assert((a.width as int) * (a.height as int) <= 0x100_0000) by (nonlinear_arith)
            requires 1 <= a.width <= MASK_MAX_DIM, 1 <= a.height <= MASK_MAX_DIM,
        ;
        assert(130050 * ((a.width as int) * (a.height as int)) <= 0x2000_0000_0000int)
            by (nonlinear_arith)
            requires (a.width as int) * (a.height as int) <= 0x100_0000,
        ;
        assert(sum <= 0x2000_0000_0000u64 && norm1 <= 0x2000_0000_0000u64 && norm2
            <= 0x2000_0000_0000u64);
        assert((sum as int) * (sum as int) <= 0x4_0000_0000_0000_0000_0000_0000int)
            by (nonlinear_arith)
            requires 0 <= sum <= 0x2000_0000_0000u64,
        ;
        assert((norm1 as int) * (norm2 as int) <= 0x4_0000_0000_0000_0000_0000_0000int)
            by (nonlinear_arith)
            requires 0 <= norm1 <= 0x2000_0000_0000u64, 0 <= norm2 <= 0x2000_0000_0000u64,
        ;
        assert((den as int) * (den as int) <= 1000000) by (nonlinear_arith)
            requires 1 <= den <= 1000,
        ;
        assert((num as int) * (num as int) <= 1000000) by (nonlinear_arith)
            requires num <= 1000,
        ;
        assert((den as int) * (den as int) * ((sum as int) * (sum as int)) <= 1000000
            * 0x4_0000_0000_0000_0000_0000_0000int) by (nonlinear_arith)
            requires
                (den as int) * (den as int) <= 1000000,
                0 <= (sum as int) * (sum as int) <= 0x4_0000_0000_0000_0000_0000_0000int,
        ;
        assert((num as int) * (num as int) * ((norm1 as int) * (norm2 as int)) <= 1000000
            * 0x4_0000_0000_0000_0000_0000_0000int) by (nonlinear_arith)
            requires
                (num as int) * (num as int) <= 1000000,
                0 <= (norm1 as int) * (norm2 as int) <= 0x4_0000_0000_0000_0000_0000_0000int,
        ;
    }
    let lhs: u128 = (den as u128) * (den as u128) * ((sum as u128) * (sum as u128));
    let rhs: u128 = (num as u128) * (num as u128) * ((norm1 as u128) * (norm2 as u128));
    lhs >= rhs
}

} // verus!
