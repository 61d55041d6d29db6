//! The score domain.
//!
//! The scoring pass writes one packed `u32` per scan offset: the low half
//! is the match score and the high half the best zoom step, both as IEEE
//! half-precision bit patterns.  Ranking decisions must be exact and
//! reproducible, so the bits are decoded into a fixed-point `i64` at scale
//! `2^24` (the smallest positive half-precision value maps to `1`), which
//! preserves the numeric order of every finite half-precision value.
//! A NaN score decodes to the sentinel [`SCORE_NEG_INF`], which no real
//! candidate scores below, so it is never selected — matching a
//! floating-point comparison, which a NaN never wins.

use vstd::prelude::*;

verus! {

use vstd::arithmetic::power2::{pow2, lemma_pow2_strictly_increases, lemma2_to64};
use crate::num::pow2_u64;

/// Sentinel score of the empty / "no candidate" result; far below every
/// decoded value, and safe to offset without overflow.
pub const SCORE_NEG_INF: i64 = -0x1000_0000_0000_0000;

/// Magnitude assigned to a half-precision infinity: just above the largest
/// finite magnitude (`2047 * 2^29 < 2^40`).
pub const SCORE_INF: i64 = 0x100_0000_0000;

/// The fixed-point value (scale `2^24`) of a half-precision bit pattern.
pub open spec fn f16_fixed(bits: u16) -> int {
    let s = bits / 32768;
    let e = (bits / 1024) % 32;
    let m = bits % 1024;
    if e == 31 && m != 0 {
        SCORE_NEG_INF as int
    } else {
        let mag: int = if e == 0 {
            m as int
        } else if e == 31 {
            SCORE_INF as int
        } else {
            (1024 + m) * pow2((e - 1) as nat)
        };
        if s == 1 {
            -mag
        } else {
            mag
        }
    }
}

/// A score is the sentinel or a value a half-precision pattern can decode to.
pub open spec fn valid_score(s: int) -> bool {
    s == SCORE_NEG_INF || -(SCORE_INF as int) <= s <= SCORE_INF as int
}

pub proof fn lemma_f16_fixed_valid(bits: u16)
    ensures
        valid_score(f16_fixed(bits)),
{
    let e = ((bits / 1024) % 32) as nat;
    let m = (bits % 1024) as int;
    if 1 <= e <= 30 {
        if e < 30 {
            lemma_pow2_strictly_increases((e - 1) as nat, 29);
        }
        lemma2_to64();
        assert((1024 + m) * pow2((e - 1) as nat) <= 2047 * 0x2000_0000) by (nonlinear_arith)
            requires
                0 <= m < 1024,
                0 < pow2((e - 1) as nat) <= 0x2000_0000,
        ;
    }
}

/// Decode a half-precision score to its fixed-point value.
pub fn score_from_bits(bits: u16) -> (r: i64)
    ensures
        r == f16_fixed(bits),
        valid_score(r as int),
{
    proof {
        lemma_f16_fixed_valid(bits);
    }
    let s: u16 = bits / 32768;
    let e: u16 = (bits / 1024) % 32;
    let m: u16 = bits % 1024;
    if e == 31 && m != 0 {
        SCORE_NEG_INF
    } else {
        let mag: i64 = if e == 0 {
            m as i64
        } else if e == 31 {
            SCORE_INF
        } else {
            proof {
                if e < 30 {
                    lemma_pow2_strictly_increases((e - 1) as nat, 29);
                }
                lemma2_to64();
                assert((1024 + m) * pow2((e - 1) as nat) <= 2047 * 0x2000_0000)
                    by (nonlinear_arith)
                    requires
                        0 <= m < 1024,
                        0 < pow2((e - 1) as nat) <= 0x2000_0000,
                ;
            }
            (1024 + m as i64) * (pow2_u64((e - 1) as u32) as i64)
        };
        if s == 1 {
            -mag
        } else {
            mag
        }
    }
}

/// The score half of a packed score/zoom word.
pub open spec fn packed_score_bits(p: u32) -> u16 {
    (p % 65536) as u16
}

/// The zoom half of a packed score/zoom word.
pub open spec fn packed_zoom_bits(p: u32) -> u16 {
    (p / 65536) as u16
}

/// The decoded fixed-point score of a packed word.
pub open spec fn packed_score(p: u32) -> int {
    f16_fixed(packed_score_bits(p))
}

/// Split a packed score/zoom word into its two half-precision patterns.
pub fn unpack(p: u32) -> (r: (u16, u16))
    ensures
        r.0 == packed_score_bits(p),
        r.1 == packed_zoom_bits(p),
{
    ((p % 65536) as u16, (p / 65536) as u16)
}

/// `v` scaled by a non-negative zoom factor, rounded down:
/// `floor(v * zoom)` with `zoom` the decoded half-precision value,
/// saturating at `u32::MAX`.
pub fn zoom_scale(v: u32, zoom_bits: u16) -> (r: u32)
    requires
        f16_fixed(zoom_bits) >= 0,
    ensures
        ({
            let q = ((v as int) * f16_fixed(zoom_bits)) / 0x100_0000;
            r == if q > u32::MAX { u32::MAX as int } else { q }
        }),
{
    proof {
        lemma_f16_fixed_valid(zoom_bits);
    }
    let z: i64 = score_from_bits(zoom_bits);
    proof {
        assert((v as int) * (z as int) <= 0xFFFF_FFFF * (SCORE_INF as int)) by (nonlinear_arith)
            requires
                v <= 0xFFFF_FFFFu32,
                0 <= z <= SCORE_INF,
        ;
    }
    let prod: u128 = (v as u128) * (z as u128);
    let q: u128 = prod / 0x100_0000;
    if q > 0xFFFF_FFFF {
        0xFFFF_FFFF
    } else {
        q as u32
    }
}

} // verus!
