//! The accumulated error map.
//!
//! Each frame, the map of per-pixel mismatch decays by half, the residual
//! of the previously chosen tile against the current mask is added in, and
//! the next query mask is reweighted so regions the engine has consistently
//! missed are emphasised.  Values are Q16 fixed point (`65536` is `1.0`),
//! capped so the reweighting factor stays bounded; every formula is exact
//! integer arithmetic.

use vstd::prelude::*;

verus! {

use vstd::arithmetic::div_mod::lemma_div_is_ordered;
use crate::mask::Mask;
use crate::num::{sqrt_floor, isqrt_u64};
use crate::score::f16_fixed;
use crate::tiles::TileImage;

/// Fixed-point scale: `1.0`.
pub const ERR_ONE: u32 = 65536;

/// Cap on an accumulated error value (`4.0`).
pub const ERR_CAP: u32 = 262144;

/// Initial error (`0.5`), biasing early queries mildly.
pub const ERR_INIT: u32 = 32768;

/// `2 * 255^4`, the denominator that normalises the squared residual.
pub const RESIDUAL_DEN: u64 = 8456501250;

pub struct ErrorMap {
    pub width: u32,
    pub height: u32,
    pub values: Vec<u32>,
}

/// The squared residual of one pixel pair, scaled by `2 * 255^4`:
/// missing brightness in either signal channel, plus the synthesis-weight
/// penalty for detail present where the mask wants blankness.
pub open spec fn residual_sq_num(mr: u8, mg: u8, mb: u8, pr: u8, pg: u8) -> int {
    let d0: int = if mr > pr { mr - pr } else { 0 };
    let d1: int = if mg > pg { mg - pg } else { 0 };
    let t: int = pr * pr + pg * pg;
    2 * 65025 * (d0 * d0 + d1 * d1) + 255 * mb * t
}

/// The residual in Q16: `sqrt` of the normalised squared residual.
pub open spec fn residual_q16(mr: u8, mg: u8, mb: u8, pr: u8, pg: u8) -> int {
    sqrt_floor(((residual_sq_num(mr, mg, mb, pr, pg) * 0x1_0000_0000) / (RESIDUAL_DEN as int))
        as nat) as int
}

proof fn lemma_residual_sq_num_bound(mr: u8, mg: u8, mb: u8, pr: u8, pg: u8)
    ensures
        0 <= residual_sq_num(mr, mg, mb, pr, pg) <= 0x8_0000_0000,
{
    let d0: int = if mr > pr { mr - pr } else { 0 };
    let d1: int = if mg > pg { mg - pg } else { 0 };
    let t: int = pr * pr + pg * pg;
    assert(0 <= d0 * d0 <= 65025 && 0 <= d1 * d1 <= 65025) by (nonlinear_arith)
        requires 0 <= d0 <= 255, 0 <= d1 <= 255,
    ;
    assert(0 <= t <= 130050) by (nonlinear_arith)
        requires t == pr * pr + pg * pg, 0 <= pr <= 255, 0 <= pg <= 255,
    ;
    assert(0 <= 255 * (mb as int) * t <= 65025 * 130050) by (nonlinear_arith)
        requires 0 <= mb <= 255, 0 <= t <= 130050,
    ;
    assert(residual_sq_num(mr, mg, mb, pr, pg) == 2 * 65025 * (d0 * d0 + d1 * d1) + 255 * mb
        * t);
    assert(0 <= 2 * 65025 * (d0 * d0 + d1 * d1) + 255 * (mb as int) * t <= 0x8_0000_0000)
        by (nonlinear_arith)
        requires
            0 <= d0 <= 255,
            0 <= d1 <= 255,
            0 <= t <= 130050,
            0 <= mb <= 255,
    ;
}

/// Compute the Q16 residual of one pixel pair exactly.
pub fn residual_at(mr: u8, mg: u8, mb: u8, pr: u8, pg: u8) -> (r: u32)
    ensures
        r == residual_q16(mr, mg, mb, pr, pg),
{
    proof {
        lemma_residual_sq_num_bound(mr, mg, mb, pr, pg);
    }
    let d0: u64 = if mr > pr { (mr - pr) as u64 } else { 0 };
    let d1: u64 = if mg > pg { (mg - pg) as u64 } else { 0 };
    proof {
        assert((pr as int) * (pr as int) <= 65025 && (pg as int) * (pg as int) <= 65025)
            by (nonlinear_arith)
            requires pr <= 255, pg <= 255,
        ;
    }
    let t: u64 = (pr as u64) * (pr as u64) + (pg as u64) * (pg as u64);
    proof {
        assert(d0 * d0 <= 65025 && d1 * d1 <= 65025) by (nonlinear_arith)
            requires d0 <= 255, d1 <= 255,
        ;
        assert(255 * (mb as int) * (t as int) <= 65025 * 130050) by (nonlinear_arith)
            requires mb <= 255, t <= 130050,
        ;
        assert(255 * (mb as int) * (t as int) >= 0) by (nonlinear_arith)
            requires mb >= 0, t >= 0,
        ;
        assert(255 * (mb as int) * (t as int) == 255 * ((mb as int) * (t as int)))
            by (nonlinear_arith);
        assert((mb as int) * (t as int) <= 255 * 130050) by (nonlinear_arith)
            requires mb <= 255, t <= 130050,
        ;
    }
    let num: u64 = 2 * 65025 * (d0 * d0 + d1 * d1) + 255 * ((mb as u64) * t);
    proof {
        assert(num == residual_sq_num(mr, mg, mb, pr, pg));
        assert((num as int) * 0x1_0000_0000 <= 0x8_0000_0000int * 0x1_0000_0000)
            by (nonlinear_arith)
            requires num <= 0x8_0000_0000u64,
        ;
    }
    let scaled: u128 = (num as u128) * 0x1_0000_0000;
    let q: u128 = scaled / (RESIDUAL_DEN as u128);
    proof {
        lemma_div_is_ordered(
            (num as int) * 0x1_0000_0000,
            0x8_0000_0000int * 0x1_0000_0000,
            RESIDUAL_DEN as int,
        );
        assert(0x8_0000_0000int * 0x1_0000_0000 / (RESIDUAL_DEN as int) < 0x8_0000_0000int);
        assert(q <= 0x8_0000_0000u128);
    }
    let r = isqrt_u64(q as u64);
    proof {
        assert(q as int == (residual_sq_num(mr, mg, mb, pr, pg) * 0x1_0000_0000) / (
        RESIDUAL_DEN as int));
        assert(r as int == residual_q16(mr, mg, mb, pr, pg));
        crate::num::lemma_sqrt_floor_bounds((q as u64) as nat);
        assert(r * r <= q);
        assert(r <= 0x8_0000) by (nonlinear_arith)
            requires (r as int) * (r as int) <= 0x8_0000_0000int,
        ;
    }
    r as u32
}

/// Where the residual samples the tile: the chosen offset plus the
/// zoom-scaled mask coordinate, clamped to the tile's edge.
pub open spec fn sample_coord(base: u32, zoom: u16, v: int, limit: u32) -> int {
    let s = base + (v * f16_fixed(zoom)) / 0x100_0000;
    if s < limit - 1 {
        s
    } else {
        limit - 1
    }
}

/// One exec step of `sample_coord`.
pub fn sample_point(base: u32, zoom: u16, v: u32, limit: u32) -> (r: u32)
    requires
        f16_fixed(zoom) >= 0,
        limit >= 1,
    ensures
        r == sample_coord(base, zoom, v as int, limit),
        r < limit,
{
    let scaled = crate::score::zoom_scale(v, zoom);
    let s: u64 = (base as u64) + (scaled as u64);
    if s < (limit - 1) as u64 {
        s as u32
    } else {
        limit - 1
    }
}

impl ErrorMap {
    pub open spec fn well_formed(self) -> bool {
        &&& 1 <= self.width <= 4096
        &&& 1 <= self.height <= 4096
        &&& self.values@.len() == self.width * self.height
        &&& forall|i: int| 0 <= i < self.values@.len() ==> self.values@[i] <= ERR_CAP
    }

    pub open spec fn at(self, x: int, y: int) -> u32 {
        self.values@[y * self.width + x]
    }

    /// A fresh map, every pixel at the initial bias.
    pub fn new(width: u32, height: u32) -> (r: ErrorMap)
        requires
            1 <= width <= 4096,
            1 <= height <= 4096,
        ensures
            r.well_formed(),
            r.width == width,
            r.height == height,
            forall|i: int| 0 <= i < r.values@.len() ==> r.values@[i] == ERR_INIT,
    {
        proof {
            assert((width as int) * (height as int) <= 0x100_0000) by (nonlinear_arith)
                requires 1 <= width <= 4096, 1 <= height <= 4096,
            ;
        }
        let n: usize = (width as usize) * (height as usize);
        let mut values: Vec<u32> = Vec::new();
        let mut i: usize = 0;
        while i < n
            invariant
                i <= n,
                values@.len() == i,
                forall|j: int| 0 <= j < i ==> values@[j] == ERR_INIT,
            decreases n - i,
        {
            values.push(ERR_INIT);
            i = i + 1;
        }
        ErrorMap { width, height, values }
    }

    /// Halve every accumulated error (the per-frame decay).
    pub fn decay(&mut self)
        requires
            old(self).well_formed(),
        ensures
            final(self).well_formed(),
            final(self).width == old(self).width,
            final(self).height == old(self).height,
            final(self).values@.len() == old(self).values@.len(),
            forall|i: int|
                0 <= i < old(self).values@.len() ==> final(self).values@[i] == old(
                    self,
                ).values@[i] / 2,
    {
        let n = self.values.len();
        let mut i: usize = 0;
        while i < n
            invariant
                i <= n,
                n == self.values@.len(),
                self.width == old(self).width,
                self.height == old(self).height,
                old(self).well_formed(),
                forall|j: int| 0 <= j < i ==> self.values@[j] == old(self).values@[j] / 2,
                forall|j: int| i <= j < n ==> self.values@[j] == old(self).values@[j],
            decreases n - i,
        {
            let v = self.values[i];
            self.values.set(i, v / 2);
            i = i + 1;
        }
        proof {
            assert forall|i: int|
                0 <= i < self.values@.len() implies self.values@[i] <= ERR_CAP by {
                assert(self.values@[i] == old(self).values@[i] / 2);
            }
        }
    }

    /// Add the residual of the chosen tile against the mask into the map,
    /// capping each value.  `(ox, oy)` and `zoom` locate the chosen match
    /// inside the tile; `accum_cell` gives the exact per-pixel formula.
    pub fn accumulate(&mut self, m: &Mask, t: &TileImage, ox: u32, oy: u32, zoom: u16)
        requires
            old(self).well_formed(),
            m.well_formed(),
            t.well_formed(),
            m.width == old(self).width,
            m.height == old(self).height,
            f16_fixed(zoom) >= 0,
        ensures
            final(self).well_formed(),
            final(self).width == old(self).width,
            final(self).height == old(self).height,
            final(self).values@.len() == old(self).values@.len(),
            forall|k: int|
                0 <= k < old(self).values@.len() ==> final(self).values@[k] == accum_cell(
                    old(self).values@,
                    *m,
                    *t,
                    ox,
                    oy,
                    zoom,
                    k,
                ),
    {
        let w = self.width;
        let ghost v0 = self.values@;
        proof {
            assert((w as int) * (self.height as int) <= 0x100_0000) by (nonlinear_arith)
                requires 1 <= w <= 4096, 1 <= self.height <= 4096,
            ;
            assert(4 * (m.width as int) * (m.height as int) == 4 * ((m.width as int) * (m.height
                as int))) by (nonlinear_arith);
            assert(4 * (t.width as int) * (t.height as int) == 4 * ((t.width as int) * (t.height
                as int))) by (nonlinear_arith);
        }
        let n: usize = self.values.len();
        let mut out: Vec<u32> = Vec::new();
        let mut k: usize = 0;
        while k < n
            invariant
                k <= n,
                n == v0.len(),
                n <= 0x100_0000,
                v0 == old(self).values@,
                self.values@ == v0,
                self.width == w,
                self.height == old(self).height,
                m.well_formed(),
                t.well_formed(),
                m.width == w,
                m.height == self.height,
                f16_fixed(zoom) >= 0,
                n == (w as int) * (self.height as int),
                m.data@.len() == 4 * ((w as int) * (self.height as int)),
                t.data@.len() == 4 * ((t.width as int) * (t.height as int)),
                forall|i: int| 0 <= i < n ==> v0[i] <= ERR_CAP,
                out@.len() == k,
                forall|j: int|
                    0 <= j < k ==> out@[j] == accum_cell(v0, *m, *t, ox, oy, zoom, j),
                forall|j: int| 0 <= j < k ==> out@[j] <= ERR_CAP,
            decreases n - k,
        {
            proof {
                vstd::arithmetic::div_mod::lemma_multiply_divide_lt(
                    k as int,
                    w as int,
                    self.height as int,
                );
                vstd::arithmetic::div_mod::lemma_mod_division_less_than_divisor(
                    k as int,
                    w as int,
                );
            }
            let cx: u32 = (k % (w as usize)) as u32;
            let cy: u32 = (k / (w as usize)) as u32;
            let tx = sample_point(ox, zoom, cx, t.width);
            let ty = sample_point(oy, zoom, cy, t.height);
            proof {
                assert((ty as int) * (t.width as int) + tx < (t.height as int) * (t.width
                    as int) && (ty as int) * (t.width as int) >= 0) by (nonlinear_arith)
                    requires 0 <= ty < t.height, 0 <= tx < t.width, t.width >= 1,
                ;
                assert((t.height as int) * (t.width as int) <= 0x100_0000) by (nonlinear_arith)
                    requires 1 <= t.height <= 4096, 1 <= t.width <= 4096,
                ;
                assert((t.height as int) * (t.width as int) == (t.width as int) * (t.height
                    as int)) by (nonlinear_arith);
            }
            let ti: usize = (ty as usize) * (t.width as usize) + (tx as usize);
            let res = residual_at(
                m.data[4 * k],
                m.data[4 * k + 1],
                m.data[4 * k + 2],
                t.data[4 * ti],
                t.data[4 * ti + 1],
            );
            let v = self.values[k];
            let add: u64 = (v as u64) + (res as u64);
            let capped: u32 = if add > ERR_CAP as u64 {
                ERR_CAP
            } else {
                add as u32
            };
            out.push(capped);
            proof {
                assert(out@[k as int] == accum_cell(v0, *m, *t, ox, oy, zoom, k as int));
            }
            k = k + 1;
        }
        self.values = out;
    }

    /// Reweight a mask's two signal channels by the accumulated error:
    /// `p * (7/10 + err * 3/10)`, exactly, saturating at 255.
    pub fn reweight(&self, m: &mut Mask)
        requires
            self.well_formed(),
            old(m).well_formed(),
            old(m).width == self.width,
            old(m).height == self.height,
        ensures
            final(m).well_formed(),
            final(m).width == old(m).width,
            final(m).height == old(m).height,
            final(m).data@.len() == old(m).data@.len(),
            forall|k: int|
                0 <= k < old(m).data@.len() ==> final(m).data@[k] == reweight_byte(
                    old(m).data@,
                    self.values@,
                    k,
                ),
    {
        proof {
            assert((self.width as int) * (self.height as int) <= 0x100_0000)
                by (nonlinear_arith)
                requires 1 <= self.width <= 4096, 1 <= self.height <= 4096,
            ;
            assert(4 * (self.width as int) * (self.height as int) == 4 * ((self.width as int)
                * (self.height as int))) by (nonlinear_arith);
        }
        let ghost d0 = m.data@;
        let nb: usize = m.data.len();
        let mut out: Vec<u8> = Vec::new();
        let mut k: usize = 0;
        while k < nb
            invariant
                k <= nb,
                nb == d0.len(),
                nb <= 0x400_0000,
                d0 == old(m).data@,
                m.data@ == d0,
                self.well_formed(),
                m.width == self.width,
                m.height == self.height,
                nb == 4 * ((self.width as int) * (self.height as int)),
                self.values@.len() == (self.width as int) * (self.height as int),
                out@.len() == k,
                forall|j: int| 0 <= j < k ==> out@[j] == reweight_byte(d0, self.values@, j),
            decreases nb - k,
        {
            proof {
                vstd::arithmetic::div_mod::lemma_multiply_divide_lt(
                    k as int,
                    4,
                    (self.width as int) * (self.height as int),
                );
                vstd::arithmetic::div_mod::lemma_mod_division_less_than_divisor(k as int, 4);
            }
            let c: usize = k % 4;
            let p: usize = k / 4;
            let b = m.data[k];
            let v: u8 = if c < 2 {
                Self::apply_weight(b, self.values[p])
            } else {
                b
            };
            out.push(v);
            proof {
                assert(out@[k as int] == reweight_byte(d0, self.values@, k as int));
            }
            k = k + 1;
        }
        proof {
            assert(m.data@ == d0);
        }
        m.data = out;
    }

    /// One channel's reweighting step.
    fn apply_weight(p: u8, e: u32) -> (r: u8)
        requires
            e <= ERR_CAP,
        ensures
            r == reweighted(p, e),
    {
        let factor: u64 = 7 * 65536 + 3 * (e as u64);
        proof {
            assert((p as int) * (factor as int) <= 255 * 1245184) by (nonlinear_arith)
                requires p <= 255, factor <= 1245184u64,
            ;
            assert((p as int) * (factor as int) >= 0) by (nonlinear_arith)
                requires p >= 0, factor >= 0,
            ;
        }
        let scaled: u64 = (p as u64) * factor / 655360;
        if scaled > 255 {
            255
        } else {
            scaled as u8
        }
    }
}

/// The per-pixel error accumulation: the residual of the sampled tile
/// pixel against the mask pixel, added onto the decayed value and capped.
pub open spec fn accum_cell(
    v0: Seq<u32>,
    m: Mask,
    t: TileImage,
    ox: u32,
    oy: u32,
    zoom: u16,
    k: int,
) -> int {
    let cx = k % (m.width as int);
    let cy = k / (m.width as int);
    let tx = sample_coord(ox, zoom, cx, t.width);
    let ty = sample_coord(oy, zoom, cy, t.height);
    let add = v0[k] + residual_q16(
        m.chan(k, 0),
        m.chan(k, 1),
        m.chan(k, 2),
        t.chan(tx, ty, 0),
        t.chan(tx, ty, 1),
    );
    if add > ERR_CAP {
        ERR_CAP as int
    } else {
        add
    }
}

/// The reweighted value of one signal byte under error `e` (Q16):
/// `floor(p * (7 * 65536 + 3 e) / 655360)`, saturated to a byte.
pub open spec fn reweighted(p: u8, e: u32) -> u8 {
    let v = p * (7 * 65536 + 3 * e) / 655360;
    if v > 255 {
        255
    } else {
        v as u8
    }
}

/// One byte of a reweighted mask buffer: the two signal channels of each
/// pixel are reweighted, the rest pass through.
pub open spec fn reweight_byte(d: Seq<u8>, vals: Seq<u32>, k: int) -> u8 {
    if k % 4 < 2 {
        reweighted(d[k], vals[k / 4])
    } else {
        d[k]
    }
}

} // verus!
