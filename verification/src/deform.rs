//! Projection deformation.
//!
//! Tiles near the poles cover less horizontal ground than tiles near the
//! equator, so before scanning, each tile is resized to
//! `width * cos(latitude)`.  The cosine is evaluated in exact Q16 fixed
//! point through a rational approximation of `sin(pi * t)` (with
//! `t = y / pole_span`): `16 t (1 - t) / (5 - 4 t (1 - t))`, which is `1`
//! exactly at the equator and `0` at the poles, and cleared of fractions
//! becomes `2^20 * a / (5 n^2 - 4 a)` with `a = y (n - y)`.

use vstd::prelude::*;

verus! {

use vstd::arithmetic::power2::{pow2, lemma_pow2_strictly_increases, lemma2_to64};
use vstd::arithmetic::div_mod::{
    lemma_div_is_ordered, lemma_div_by_multiple, lemma_fundamental_div_mod,
    lemma_fundamental_div_mod_converse_div, lemma_multiply_divide_le,
};
use vstd::math::abs;
use crate::num::pow2_u64;

/// Number of tile rows from the north pole to the south pole at pyramid
/// level `z`.
pub open spec fn pole_span(z: u32) -> int
    recommends
        1 <= z,
{
    pow2((z - 1) as nat) as int
}

/// `y * (n - y)`: zero at either pole, maximal at the equator row.
pub open spec fn arc(y: u32, z: u32) -> int {
    y * (pole_span(z) - y)
}

/// The compression factor `cos(latitude(y, z))` in Q16 fixed point:
/// `0` at the poles, `65536` (that is, `1.0`) at the equator.
pub open spec fn deformation_q16(y: u32, z: u32) -> int {
    let n = pole_span(z);
    let a = arc(y, z);
    (1048576 * a) / (5 * n * n - 4 * a)
}

/// The deformed (compressed) width of a tile row: `width * cos(latitude)`,
/// rounded up.
pub open spec fn deform_width_spec(width: u32, y: u32, z: u32) -> int {
    (width * deformation_q16(y, z) + 65535) / 65536
}

/// Distance of row `y` from the equator row, proportional to
/// `|latitude(y, z)|`.
pub open spec fn lat_dist(y: u32, z: u32) -> int {
    abs(pole_span(z) - 2 * y) as int
}

proof fn lemma_pole_span_bound(z: u32)
    requires
        1 <= z <= 31,
    ensures
        1 <= pole_span(z) <= 0x4000_0000,
{
    lemma2_to64();
    if z < 31 {
        lemma_pow2_strictly_increases((z - 1) as nat, 30);
    }
}

/// `4 a <= n^2`, so the deformation never exceeds 1.
proof fn lemma_arc_bound(y: u32, z: u32)
    requires
        1 <= z,
        y <= pole_span(z),
    ensures
        0 <= 4 * arc(y, z) <= pole_span(z) * pole_span(z),
{
    let n = pole_span(z);
    assert(0 <= 4 * (y * (n - y)) <= n * n) by (nonlinear_arith)
        requires 0 <= y <= n,
    ;
}

/// The deformation factor, computed exactly.
pub fn deformation_fixed(y: u32, z: u32) -> (q: u32)
    requires
        1 <= z <= 31,
        y <= pole_span(z),
    ensures
        q == deformation_q16(y, z),
        q <= 65536,
{
    proof {
        lemma_pole_span_bound(z);
        lemma_arc_bound(y, z);
    }
    let n: u64 = pow2_u64(z - 1);
    proof {
        assert((y as int) * ((n as int) - y) <= (n as int) * (n as int)) by (nonlinear_arith)
            requires 0 <= y <= n as int,
        ;
        assert((n as int) * (n as int) <= 0x1000_0000_0000_0000) by (nonlinear_arith)
            requires n <= 0x4000_0000u64,
        ;
    }
    let a: u64 = (y as u64) * (n - (y as u64));
    proof {
        assert(5 * ((n as int) * (n as int)) == 5 * (n as int) * (n as int)) by (nonlinear_arith);
        assert(a == arc(y, z));
    }
    let den: u64 = 5 * n * n - 4 * a;
    proof {
        assert(den >= 1) by (nonlinear_arith)
            requires
                den == 5 * (n as int) * (n as int) - 4 * (a as int),
                4 * (a as int) <= (n as int) * (n as int),
                n >= 1,
        ;
    }
    let num: u128 = 1048576u128 * (a as u128);
    let q: u128 = num / (den as u128);
    proof {
        assert(den == 5 * pole_span(z) * pole_span(z) - 4 * arc(y, z));
        assert(num <= 65536 * (den as int)) by (nonlinear_arith)
            requires
                num == 1048576 * (a as int),
                den == 5 * (n as int) * (n as int) - 4 * (a as int),
                4 * (a as int) <= (n as int) * (n as int),
        ;
        lemma_multiply_divide_le(num as int, den as int, 65536);
    }
    q as u32
}

/// The deformed width of a tile at row `y`, level `z`.
pub fn deform_width(width: u32, y: u32, z: u32) -> (r: u32)
    requires
        1 <= z <= 31,
        y <= pole_span(z),
    ensures
        r == deform_width_spec(width, y, z),
        r <= width,
{
    let q = deformation_fixed(y, z);
    proof {
        assert((width as int) * (q as int) <= 0xFFFF_FFFF * 65536) by (nonlinear_arith)
            requires width <= 0xFFFF_FFFFu32, q <= 65536u32,
        ;
    }
    let r64: u64 = ((width as u64) * (q as u64) + 65535) / 65536;
    proof {
        assert((width as int) * (q as int) + 65535 <= 65536 * ((width as int) + 1) - 1)
            by (nonlinear_arith)
            requires q <= 65536,
        ;
        lemma_multiply_divide_le((width as int) * (q as int) + 65535, 65536, width as int + 1);
        assert(r64 <= width);
    }
    r64 as u32
}

/// Ordering of two non-negative fractions from cross-multiplied numerators.
proof fn lemma_div_cross(n1: int, d1: int, n2: int, d2: int)
    requires
        0 <= n1,
        0 <= n2,
        0 < d1,
        0 < d2,
        n2 * d1 <= n1 * d2,
    ensures
        n2 / d2 <= n1 / d1,
{
    let q2 = n2 / d2;
    lemma_fundamental_div_mod(n2, d2);
    assert(q2 * d2 <= n2);
    assert(q2 * d1 * d2 <= n1 * d2) by (nonlinear_arith)
        requires q2 * d2 <= n2, n2 * d1 <= n1 * d2, 0 < d1, 0 < d2,
    ;
    assert(q2 * d1 <= n1) by (nonlinear_arith)
        requires q2 * d1 * d2 <= n1 * d2, 0 < d2,
    ;
    assert(q2 >= 0) by {
        vstd::arithmetic::div_mod::lemma_div_pos_is_pos(n2, d2);
    }
    lemma_div_by_multiple(q2, d1);
    lemma_div_is_ordered(q2 * d1, n1, d1);
}

/// LAW: the deformation factor does not increase as the row moves away
/// from the equator.
pub proof fn lemma_deformation_monotone(y1: u32, y2: u32, z: u32)
    requires
        1 <= z <= 31,
        y1 <= pole_span(z),
        y2 <= pole_span(z),
        lat_dist(y1, z) <= lat_dist(y2, z),
    ensures
        deformation_q16(y1, z) >= deformation_q16(y2, z),
{
    let n = pole_span(z);
    let a1 = arc(y1, z);
    let a2 = arc(y2, z);
    let d1 = n - 2 * y1;
    let d2 = n - 2 * y2;
    assert(abs(d1) <= abs(d2));
    assert(4 * a1 == n * n - d1 * d1) by (nonlinear_arith)
        requires a1 == y1 * (n - y1), d1 == n - 2 * y1,
    ;
    assert(4 * a2 == n * n - d2 * d2) by (nonlinear_arith)
        requires a2 == y2 * (n - y2), d2 == n - 2 * y2,
    ;
    assert(d1 * d1 <= d2 * d2) by (nonlinear_arith)
        requires abs(d1) <= abs(d2),
    ;
    assert(a2 <= a1);
    lemma_arc_bound(y1, z);
    lemma_arc_bound(y2, z);
    lemma_pole_span_bound(z);
    let num1 = 1048576 * a1;
    let num2 = 1048576 * a2;
    let den1 = 5 * n * n - 4 * a1;
    let den2 = 5 * n * n - 4 * a2;
    assert(den1 > 0 && den2 > 0) by (nonlinear_arith)
        requires
            0 <= 4 * a1 <= n * n,
            0 <= 4 * a2 <= n * n,
            n >= 1,
            den1 == 5 * n * n - 4 * a1,
            den2 == 5 * n * n - 4 * a2,
    ;
    assert(num2 * den1 <= num1 * den2) by (nonlinear_arith)
        requires
            a2 <= a1,
            0 <= a2,
            n >= 1,
            num1 == 1048576 * a1,
            num2 == 1048576 * a2,
            den1 == 5 * n * n - 4 * a1,
            den2 == 5 * n * n - 4 * a2,
    ;
    lemma_div_cross(num1, den1, num2, den2);
}

/// LAW: `deform_width` is monotonically non-increasing in the distance
/// from the equator.
pub proof fn lemma_deform_width_monotone(width: u32, y1: u32, y2: u32, z: u32)
    requires
        1 <= z <= 31,
        y1 <= pole_span(z),
        y2 <= pole_span(z),
        lat_dist(y1, z) <= lat_dist(y2, z),
    ensures
        deform_width_spec(width, y1, z) >= deform_width_spec(width, y2, z),
{
    lemma_deformation_monotone(y1, y2, z);
    let q1 = deformation_q16(y1, z);
    let q2 = deformation_q16(y2, z);
    assert(width * q2 + 65535 <= width * q1 + 65535) by (nonlinear_arith)
        requires q2 <= q1,
    ;
    lemma_div_is_ordered(width * q2 + 65535, width * q1 + 65535, 65536);
}

/// LAW: at the equator row the deformation is exactly 1, and the deformed
/// width is exactly the original width.
pub proof fn lemma_deform_width_equator(width: u32, y: u32, z: u32)
    requires
        2 <= z <= 31,
        2 * y == pole_span(z),
    ensures
        deformation_q16(y, z) == 65536,
        deform_width_spec(width, y, z) == width,
{
    let n = pole_span(z);
    let a = arc(y, z);
    lemma_pole_span_bound(z);
    assert(y >= 1);
    assert(a == y * y && 5 * n * n - 4 * a == 16 * (y * y)) by (nonlinear_arith)
        requires a == y * (n - y), n == 2 * y,
    ;
    assert(1048576 * a == 65536 * (16 * (y * y))) by (nonlinear_arith)
        requires a == y * y,
    ;
    assert(16 * (y * y) > 0) by (nonlinear_arith)
        requires y >= 1,
    ;
    lemma_div_by_multiple(65536, 16 * (y * y));
    assert(deformation_q16(y, z) == 65536);
    lemma_fundamental_div_mod_converse_div(
        width * 65536 + 65535,
        65536,
        width as int,
        65535,
    );
}

} // verus!
