//! Reference scoring search.
//!
//! The device kernel is a swappable policy; this module is the concrete
//! reference policy the engine's contracts are stated against: the score of
//! placing a mask at a scan offset is the exact integer dot product of the
//! mask's two signal channels with the tile's, and a search returns the
//! first offset, in scan order, attaining the maximum score.  It also
//! carries the pruning law: removing candidate tiles can never raise the
//! best attainable score.

use vstd::prelude::*;

verus! {

use vstd::arithmetic::div_mod::lemma_multiply_divide_lt;
use crate::mask::Mask;
use crate::score::SCORE_NEG_INF;
use crate::tiles::TileImage;
use crate::topk::{PosResult, ZOOM_ONE_BITS};

/// Partial placement score: the contribution of the first `n` mask pixels
/// (row-major) with the mask's corner at `(ox, oy)` in the tile.
pub open spec fn place_pre(m: Mask, t: TileImage, ox: int, oy: int, n: int) -> int
    decreases n,
{
    if n <= 0 {
        0
    } else {
        let i = n - 1;
        let px = i % (m.width as int);
        let py = i / (m.width as int);
        place_pre(m, t, ox, oy, i) + m.chan(i, 0) * t.chan(ox + px, oy + py, 0) + m.chan(i, 1)
            * t.chan(ox + px, oy + py, 1)
    }
}

/// The score of placing `m` at `(ox, oy)` in `t`.
pub open spec fn place_score(m: Mask, t: TileImage, ox: int, oy: int) -> int {
    place_pre(m, t, ox, oy, m.pixels())
}

/// The candidate a scan offset denotes.
pub open spec fn place_at(m: Mask, t: TileImage, ox: int, oy: int) -> PosResult {
    PosResult {
        tile_x: t.pos.0,
        tile_y: t.pos.1,
        tile_z: t.pos.2,
        x: ox as u32,
        y: oy as u32,
        score: place_score(m, t, ox, oy) as i64,
        zoom: ZOOM_ONE_BITS,
    }
}

/// The offsets a search scans: strictly inside the tile.
pub open spec fn offset_in_range(m: Mask, t: TileImage, ox: int, oy: int) -> bool {
    0 <= ox < t.width - m.width && 0 <= oy < t.height - m.height
}

/// `r` scores at least every scanned offset of every tile.
pub open spec fn covers(m: Mask, tiles: Seq<TileImage>, r: PosResult) -> bool {
    forall|i: int, ox: int, oy: int|
        0 <= i < tiles.len() && offset_in_range(m, tiles[i], ox, oy) ==> #[trigger] place_score(
            m,
            tiles[i],
            ox,
            oy,
        ) <= r.score
}

/// `r` is the sentinel or is really attained somewhere in the tile list.
pub open spec fn attained(m: Mask, tiles: Seq<TileImage>, r: PosResult) -> bool {
    r == PosResult::empty_spec() || exists|i: int, ox: int, oy: int|
        0 <= i < tiles.len() && offset_in_range(m, tiles[i], ox, oy) && r == #[trigger] place_at(
            m,
            tiles[i],
            ox,
            oy,
        )
}

/// One offset of one tile, named as the first-in-scan-order witness for a
/// search result `r`: every offset of an earlier tile, and every earlier
/// offset of the same tile, scores strictly less.
pub open spec fn first_witness(
    m: Mask,
    tiles: Seq<TileImage>,
    r: PosResult,
    i: int,
    ox: int,
    oy: int,
) -> bool {
    &&& 0 <= i < tiles.len()
    &&& offset_in_range(m, tiles[i], ox, oy)
    &&& r == place_at(m, tiles[i], ox, oy)
    &&& forall|j: int, cx: int, cy: int|
        0 <= j < i && offset_in_range(m, tiles[j], cx, cy) ==> #[trigger] place_score(
            m,
            tiles[j],
            cx,
            cy,
        ) < r.score
    &&& forall|cx: int, cy: int|
        offset_in_range(m, tiles[i], cx, cy) && (cy < oy || (cy == oy && cx < ox))
            ==> #[trigger] place_score(m, tiles[i], cx, cy) < r.score
}

/// `r` is the sentinel or the candidate of the first offset — scanning
/// tiles in list order and each tile in row-major order — attaining the
/// maximum placement score.
pub open spec fn first_attained(m: Mask, tiles: Seq<TileImage>, r: PosResult) -> bool {
    r == PosResult::empty_spec() || exists|i: int, ox: int, oy: int|
        #[trigger] first_witness(m, tiles, r, i, ox, oy)
}

proof fn lemma_place_pre_bound(m: Mask, t: TileImage, ox: int, oy: int, n: int)
    requires
        0 <= n,
    ensures
        0 <= place_pre(m, t, ox, oy, n) <= 130050 * n,
    decreases n,
{
    if n > 0 {
        lemma_place_pre_bound(m, t, ox, oy, n - 1);
        let i = n - 1;
        let px = i % (m.width as int);
        let py = i / (m.width as int);
        let a0 = m.chan(i, 0);
        let b0 = t.chan(ox + px, oy + py, 0);
        let a1 = m.chan(i, 1);
        let b1 = t.chan(ox + px, oy + py, 1);
        assert(0 <= a0 * b0 <= 65025 && 0 <= a1 * b1 <= 65025) by (nonlinear_arith)
            requires 0 <= a0 <= 255, 0 <= b0 <= 255, 0 <= a1 <= 255, 0 <= b1 <= 255,
        ;
    }
}

/// The exact placement score of one scan offset.
pub fn score_offset(m: &Mask, t: &TileImage, ox: u32, oy: u32) -> (r: i64)
    requires
        m.well_formed(),
        t.well_formed(),
        ox + m.width <= t.width,
        oy + m.height <= t.height,
    ensures
        r == place_score(*m, *t, ox as int, oy as int),
        0 <= r <= 130050 * m.pixels(),
{
    proof {
        assert((m.width as int) * (m.height as int) <= 0x100_0000) by (nonlinear_arith)
            requires 1 <= m.width <= 4096, 1 <= m.height <= 4096,
        ;
        assert(4 * (m.width as int) * (m.height as int) == 4 * ((m.width as int) * (m.height
            as int))) by (nonlinear_arith);
        lemma_place_pre_bound(*m, *t, ox as int, oy as int, m.pixels());
    }
    let n: usize = (m.width as usize) * (m.height as usize);
    let mw = m.width as usize;
    let tw = t.width as usize;
    proof {
        assert(m.data@.len() == 4 * n);
        assert(t.data@.len() == 4 * ((t.width as int) * (t.height as int))) by (nonlinear_arith)
            requires t.data@.len() == 4 * t.width * t.height,
        ;
    }
    let mut acc: u64 = 0;
    let mut i: usize = 0;
    while i < n
        invariant
            i <= n,
            n == m.pixels(),
            n <= 0x100_0000,
            m.data@.len() == 4 * n,
            t.data@.len() == 4 * ((t.width as int) * (t.height as int)),
            mw == m.width,
            tw == t.width,
            m.well_formed(),
            t.well_formed(),
            ox + m.width <= t.width,
            oy + m.height <= t.height,
            acc == place_pre(*m, *t, ox as int, oy as int, i as int),
        decreases n - i,
    {
        proof {
            lemma_place_pre_bound(*m, *t, ox as int, oy as int, i as int);
            lemma_place_pre_bound(*m, *t, ox as int, oy as int, i + 1);
            assert(130050 * (i + 1) <= 130050 * 0x100_0000) by (nonlinear_arith)
                requires i + 1 <= 0x100_0000,
            ;
            assert((m.width as int) * (m.height as int) == n);
            lemma_multiply_divide_lt(i as int, m.width as int, m.height as int);
            assert((i as int) % (m.width as int) < m.width) by {
                vstd::arithmetic::div_mod::lemma_mod_division_less_than_divisor(
                    i as int,
                    m.width as int,
                );
            }
        }
        let px = i % mw;
        let py = i / mw;
        proof {
            let tx = ox + px;
            let ty = oy + py;
            assert(tx < t.width && ty < t.height);
            assert((ty as int) * (t.width as int) + tx < (t.height as int) * (t.width as int))
                by (nonlinear_arith)
                requires ty < t.height, 0 <= tx < t.width, t.width >= 1, ty >= 0,
            ;
            assert((ty as int) * (t.width as int) >= 0) by (nonlinear_arith)
                requires ty >= 0, t.width >= 0,
            ;
            assert(4 * ((t.height as int) * (t.width as int)) == 4 * (t.width as int)
                * (t.height as int)) by (nonlinear_arith);
            assert((t.height as int) * (t.width as int) <= 0x100_0000) by (nonlinear_arith)
                requires 1 <= t.height <= 4096, 1 <= t.width <= 4096,
            ;
        }
        let tidx: usize = ((oy as usize) + py) * tw + (ox as usize) + px;
        let a0 = m.data[4 * i] as u64;
        let a1 = m.data[4 * i + 1] as u64;
        let b0 = t.data[4 * tidx] as u64;
        let b1 = t.data[4 * tidx + 1] as u64;
        acc = acc + a0 * b0 + a1 * b1;
        i = i + 1;
    }
    proof {
        lemma_place_pre_bound(*m, *t, ox as int, oy as int, n as int);
    }
    acc as i64
}

/// Scan one tile and return the first offset, in row-major scan order,
/// attaining the maximum placement score.
pub fn search_tile(m: &Mask, t: &TileImage) -> (r: PosResult)
    requires
        m.well_formed(),
        t.well_formed(),
        m.width < t.width,
        m.height < t.height,
    ensures
        forall|ox: int, oy: int|
            offset_in_range(*m, *t, ox, oy) ==> #[trigger] place_score(*m, *t, ox, oy) <= r.score,
        exists|ox: int, oy: int|
            {
                &&& offset_in_range(*m, *t, ox, oy)
                &&& r == #[trigger] place_at(*m, *t, ox, oy)
                &&& forall|cx: int, cy: int|
                    offset_in_range(*m, *t, cx, cy) && (cy < oy || (cy == oy && cx < ox))
                        ==> #[trigger] place_score(*m, *t, cx, cy) < r.score
            },
        r.score >= 0,
{
    let w: u32 = t.width - m.width;
    let h: u32 = t.height - m.height;
    let mut best = PosResult::empty();
    let ghost mut wx: int = 0;
    let ghost mut wy: int = 0;
    let mut oy: u32 = 0;
    while oy < h
        invariant
            m.well_formed(),
            t.well_formed(),
            m.width < t.width,
            m.height < t.height,
            w == t.width - m.width,
            h == t.height - m.height,
            oy <= h,
            forall|cx: int, cy: int|
                offset_in_range(*m, *t, cx, cy) && cy < oy ==> #[trigger] place_score(
                    *m,
                    *t,
                    cx,
                    cy,
                ) <= best.score,
            oy > 0 ==> {
                &&& offset_in_range(*m, *t, wx, wy)
                &&& best == place_at(*m, *t, wx, wy)
                &&& best.score >= 0
                &&& forall|cx: int, cy: int|
                    offset_in_range(*m, *t, cx, cy) && (cy < wy || (cy == wy && cx < wx))
                        ==> #[trigger] place_score(*m, *t, cx, cy) < best.score
            },
            oy == 0 ==> best == PosResult::empty_spec(),
        decreases h - oy,
    {
        let mut ox: u32 = 0;
        while ox < w
            invariant
                m.well_formed(),
                t.well_formed(),
                m.width < t.width,
                m.height < t.height,
                w == t.width - m.width,
                h == t.height - m.height,
                oy < h,
                ox <= w,
                forall|cx: int, cy: int|
                    offset_in_range(*m, *t, cx, cy) && (cy < oy || (cy == oy && cx < ox))
                        ==> #[trigger] place_score(*m, *t, cx, cy) <= best.score,
                ox > 0 || oy > 0 ==> {
                    &&& offset_in_range(*m, *t, wx, wy)
                    &&& best == place_at(*m, *t, wx, wy)
                    &&& best.score >= 0
                    &&& forall|cx: int, cy: int|
                        offset_in_range(*m, *t, cx, cy) && (cy < wy || (cy == wy && cx < wx))
                            ==> #[trigger] place_score(*m, *t, cx, cy) < best.score
                },
                ox == 0 && oy == 0 ==> best == PosResult::empty_spec(),
            decreases w - ox,
        {
            let s = score_offset(m, t, ox, oy);
            if s > best.score {
                best =
                PosResult {
                    tile_x: t.pos.0,
                    tile_y: t.pos.1,
                    tile_z: t.pos.2,
                    x: ox,
                    y: oy,
                    score: s,
                    zoom: ZOOM_ONE_BITS,
                };
                proof {
                    wx = ox as int;
                    wy = oy as int;
                    assert(best == place_at(*m, *t, ox as int, oy as int));
                }
            } else {
                proof {
                    if ox == 0 && oy == 0 {
                        assert(s > SCORE_NEG_INF);
                        assert(false);
                    }
                }
            }
            ox = ox + 1;
        }
        oy = oy + 1;
    }
    best
}

/// Search every tile of the batch list and return the best candidate: the
/// first, in scan order, attaining the maximum score (the sentinel only
/// for an empty list).
pub fn search_tiles(m: &Mask, tiles: &Vec<TileImage>) -> (r: PosResult)
    requires
        m.well_formed(),
        forall|i: int|
            0 <= i < tiles@.len() ==> (#[trigger] tiles@[i]).well_formed() && m.width
                < tiles@[i].width && m.height < tiles@[i].height,
    ensures
        covers(*m, tiles@, r),
        attained(*m, tiles@, r),
        first_attained(*m, tiles@, r),
        r.score >= PosResult::empty_spec().score,
{
    let mut best = PosResult::empty();
    let ghost mut wi: int = 0;
    let ghost mut wox: int = 0;
    let ghost mut woy: int = 0;
    let mut i: usize = 0;
    while i < tiles.len()
        invariant
            m.well_formed(),
            forall|j: int|
                0 <= j < tiles@.len() ==> (#[trigger] tiles@[j]).well_formed() && m.width
                    < tiles@[j].width && m.height < tiles@[j].height,
            i <= tiles@.len(),
            forall|j: int, ox: int, oy: int|
                0 <= j < i && offset_in_range(*m, tiles@[j], ox, oy) ==> #[trigger] place_score(
                    *m,
                    tiles@[j],
                    ox,
                    oy,
                ) <= best.score,
            best == PosResult::empty_spec() || {
                &&& 0 <= wi < i
                &&& offset_in_range(*m, tiles@[wi], wox, woy)
                &&& best == place_at(*m, tiles@[wi], wox, woy)
                &&& forall|j: int, cx: int, cy: int|
                    0 <= j < wi && offset_in_range(*m, tiles@[j], cx, cy)
                        ==> #[trigger] place_score(*m, tiles@[j], cx, cy) < best.score
                &&& forall|cx: int, cy: int|
                    offset_in_range(*m, tiles@[wi], cx, cy) && (cy < woy || (cy == woy && cx
                        < wox)) ==> #[trigger] place_score(*m, tiles@[wi], cx, cy) < best.score
            },
            attained(*m, tiles@, best),
            best.score >= PosResult::empty_spec().score,
        decreases tiles@.len() - i,
    {
        let cand = search_tile(m, &tiles[i]);
        if cand.score > best.score {
            proof {
                let (cx, cy) = choose|cx: int, cy: int|
                    {
                        &&& offset_in_range(*m, tiles@[i as int], cx, cy)
                        &&& cand == place_at(*m, tiles@[i as int], cx, cy)
                        &&& forall|dx: int, dy: int|
                            offset_in_range(*m, tiles@[i as int], dx, dy) && (dy < cy || (dy
                                == cy && dx < cx)) ==> #[trigger] place_score(
                                *m,
                                tiles@[i as int],
                                dx,
                                dy,
                            ) < cand.score
                    };
                wi = i as int;
                wox = cx;
                woy = cy;
                assert(0 <= i < tiles@.len() && offset_in_range(*m, tiles@[i as int], cx, cy)
                    && cand == place_at(*m, tiles@[i as int], cx, cy));
            }
            best = cand;
        }
        i = i + 1;
    }
    proof {
        if best != PosResult::empty_spec() {
            assert(first_witness(*m, tiles@, best, wi, wox, woy));
        }
    }
    best
}

/// LAW (deterministic selection): the search contract pins its result
/// completely.  Any two results that each cover every scanned offset and
/// are each first-attained coincide, so repeated searches over the same
/// mask and tile list return the identical winner, however they are
/// scheduled.
pub proof fn lemma_search_deterministic(
    m: Mask,
    tiles: Seq<TileImage>,
    r1: PosResult,
    r2: PosResult,
)
    requires
        m.well_formed(),
        covers(m, tiles, r1),
        first_attained(m, tiles, r1),
        covers(m, tiles, r2),
        first_attained(m, tiles, r2),
    ensures
        r1 == r2,
{
    let empty = PosResult::empty_spec();
    if r1 == empty && r2 == empty {
    } else if r1 == empty || r2 == empty {
        let (re, ra) = if r1 == empty { (r1, r2) } else { (r2, r1) };
        let (i, ox, oy) = choose|i: int, ox: int, oy: int| first_witness(m, tiles, ra, i, ox, oy);
        lemma_place_score_fits(m, tiles[i], ox, oy);
        assert(place_score(m, tiles[i], ox, oy) <= re.score);
        assert(false);
    } else {
        let (i1, x1, y1) = choose|i: int, ox: int, oy: int| first_witness(m, tiles, r1, i, ox, oy);
        let (i2, x2, y2) = choose|i: int, ox: int, oy: int| first_witness(m, tiles, r2, i, ox, oy);
        lemma_place_score_fits(m, tiles[i1], x1, y1);
        lemma_place_score_fits(m, tiles[i2], x2, y2);
        assert(r1.score == place_score(m, tiles[i1], x1, y1));
        assert(r2.score == place_score(m, tiles[i2], x2, y2));
        assert(r1.score == r2.score) by {
            assert(place_score(m, tiles[i1], x1, y1) <= r2.score);
            assert(place_score(m, tiles[i2], x2, y2) <= r1.score);
        }
        if i1 < i2 {
            assert(place_score(m, tiles[i1], x1, y1) < r2.score);
            assert(false);
        } else if i2 < i1 {
            assert(place_score(m, tiles[i2], x2, y2) < r1.score);
            assert(false);
        } else if y1 < y2 || (y1 == y2 && x1 < x2) {
            assert(place_score(m, tiles[i1], x1, y1) < r2.score);
            assert(false);
        } else if y2 < y1 || (y1 == y2 && x2 < x1) {
            assert(place_score(m, tiles[i2], x2, y2) < r1.score);
            assert(false);
        } else {
            assert(r1 == place_at(m, tiles[i1], x1, y1));
            assert(r2 == place_at(m, tiles[i1], x1, y1));
        }
    }
}

/// A placement score survives the cast into the result's score field.
proof fn lemma_place_score_fits(m: Mask, t: TileImage, ox: int, oy: int)
    requires
        m.well_formed(),
    ensures
        place_at(m, t, ox, oy).score == place_score(m, t, ox, oy),
        place_score(m, t, ox, oy) >= 0,
{
    lemma_place_pre_bound(m, t, ox, oy, m.pixels());
    assert(0 <= m.pixels() <= 0x100_0000) by (nonlinear_arith)
        requires 1 <= m.width <= 4096, 1 <= m.height <= 4096,
    ;
    assert(130050 * m.pixels() <= 0x7C8_6000_0000) by (nonlinear_arith)
        requires 0 <= m.pixels() <= 0x100_0000,
    ;
}

/// LAW (pruning never improves on the unpruned search): if every tile of
/// the pruned list also stands in the full list, the best score found over
/// the pruned list cannot exceed the best score found over the full list.
/// Pruning only removes candidates; it never adds any.
pub proof fn lemma_pruning_no_gain(
    m: Mask,
    all: Seq<TileImage>,
    kept: Seq<TileImage>,
    r_pruned: PosResult,
    r_full: PosResult,
)
    requires
        m.well_formed(),
        forall|j: int|
            0 <= j < kept.len() ==> exists|i: int|
                0 <= i < all.len() && #[trigger] kept[j] == #[trigger] all[i],
        attained(m, kept, r_pruned),
        covers(m, all, r_full),
        r_full.score >= PosResult::empty_spec().score,
    ensures
        r_pruned.score <= r_full.score,
{
    if r_pruned == PosResult::empty_spec() {
    } else {
        let (j, ox, oy) = choose|j: int, ox: int, oy: int|
            0 <= j < kept.len() && offset_in_range(m, kept[j], ox, oy) && r_pruned == #[trigger] place_at(
                m,
                kept[j],
                ox,
                oy,
            );
        let i = choose|i: int| 0 <= i < all.len() && kept[j] == all[i];
        assert(place_score(m, all[i], ox, oy) <= r_full.score);
        lemma_place_pre_bound(m, kept[j], ox, oy, m.pixels());
        assert(0 <= m.pixels() <= 0x100_0000) by (nonlinear_arith)
            requires 1 <= m.width <= 4096, 1 <= m.height <= 4096,
        ;
        assert(130050 * m.pixels() <= 0x7C8_6000_0000) by (nonlinear_arith)
            requires 0 <= m.pixels() <= 0x100_0000,
        ;
        assert(r_pruned.score == place_score(m, kept[j], ox, oy));
    }
}

} // verus!
