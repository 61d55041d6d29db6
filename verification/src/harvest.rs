//! The result harvester.
//!
//! Once a staging buffer's copy completes, its packed score/zoom words are
//! decoded and the best-scoring scan offset of the batch is located: each
//! offset belongs to one cell of the atlas grid, hence to one tile of the
//! batch table, and offsets past a tile's deformed width are rejected.  The
//! winner is merged into the mask's top-K list and into the frame's
//! best-score-per-tile table.

use vstd::prelude::*;

verus! {

use crate::score::{f16_fixed, packed_score_bits, packed_zoom_bits, unpack, score_from_bits, SCORE_NEG_INF};
use crate::tiles::TilePos;
use crate::topk::{PosResult, PosResults};

/// How a batch's score output is laid out: `res_w x res_h` scan offsets,
/// stored in rows padded to `tex_w` words; each `cell_w x cell_h` block of
/// offsets belongs to one tile cell of the `chunk`-wide atlas grid.
pub struct BatchLayout {
    pub tex_w: u32,
    pub res_w: u32,
    pub res_h: u32,
    pub cell_w: u32,
    pub cell_h: u32,
    pub chunk: u32,
}

impl BatchLayout {
    pub open spec fn well_formed(self) -> bool {
        &&& self.cell_w >= 1
        &&& self.cell_h >= 1
        &&& self.chunk >= 1
        &&& self.res_w <= self.tex_w
    }
}

/// The batch-grid cell an offset falls in.
pub open spec fn cell_index(l: BatchLayout, x: int, y: int) -> int {
    x / (l.cell_w as int) + (y / (l.cell_h as int)) * l.chunk
}

/// The offset of a scan position within its tile.
pub open spec fn local_x(l: BatchLayout, x: int) -> int {
    x % (l.cell_w as int)
}

pub open spec fn local_y(l: BatchLayout, y: int) -> int {
    y % (l.cell_h as int)
}

/// An offset that scores a real tile: inside the output raster, its cell is
/// backed by a tile of this batch, and its column lies within that tile's
/// valid (deformed) width.
pub open spec fn valid_offset(
    l: BatchLayout,
    tiles: Seq<(TilePos, u32)>,
    x: int,
    y: int,
) -> bool {
    &&& 0 <= x < l.res_w
    &&& 0 <= y < l.res_h
    &&& cell_index(l, x, y) < tiles.len()
    &&& local_x(l, x) < tiles[cell_index(l, x, y)].1
}

/// The packed score/zoom word of an offset.
pub open spec fn word_at(l: BatchLayout, data: Seq<u32>, x: int, y: int) -> u32 {
    data[y * l.tex_w + x]
}

/// The decoded fixed-point score of an offset.
pub open spec fn score_at(l: BatchLayout, data: Seq<u32>, x: int, y: int) -> int {
    f16_fixed(packed_score_bits(word_at(l, data, x, y)))
}

/// The candidate a valid offset denotes.
pub open spec fn candidate_at(
    l: BatchLayout,
    tiles: Seq<(TilePos, u32)>,
    data: Seq<u32>,
    x: int,
    y: int,
) -> PosResult {
    let pos = tiles[cell_index(l, x, y)].0;
    PosResult {
        tile_x: pos.0,
        tile_y: pos.1,
        tile_z: pos.2,
        x: local_x(l, x) as u32,
        y: local_y(l, y) as u32,
        score: score_at(l, data, x, y) as i64,
        zoom: packed_zoom_bits(word_at(l, data, x, y)),
    }
}

/// One offset named as the first-in-scan-order witness for a harvest
/// result `r`: every valid offset scanned earlier (row-major) scores
/// strictly less.
pub open spec fn harvest_witness(
    l: BatchLayout,
    tiles: Seq<(TilePos, u32)>,
    data: Seq<u32>,
    r: PosResult,
    x: int,
    y: int,
) -> bool {
    &&& valid_offset(l, tiles, x, y)
    &&& r == candidate_at(l, tiles, data, x, y)
    &&& forall|cx: int, cy: int|
        valid_offset(l, tiles, cx, cy) && (cy < y || (cy == y && cx < x))
            ==> #[trigger] score_at(l, data, cx, cy) < r.score
}

/// `r` is the sentinel or the candidate of the first offset, in row-major
/// scan order, attaining the maximum score.
pub open spec fn harvest_first(
    l: BatchLayout,
    tiles: Seq<(TilePos, u32)>,
    data: Seq<u32>,
    r: PosResult,
) -> bool {
    r == PosResult::empty_spec() || exists|x: int, y: int|
        #[trigger] harvest_witness(l, tiles, data, r, x, y)
}

/// Find the best-scoring valid offset of one batch output.  The result is
/// the sentinel when no valid offset beats it (an empty batch, or nothing
/// but NaN scores); otherwise it is the candidate of the first offset, in
/// row-major scan order, that attains the maximum score.
pub fn harvest_batch(l: &BatchLayout, tiles: &Vec<(TilePos, u32)>, data: &Vec<u32>) -> (r:
    PosResult)
    requires
        l.well_formed(),
        data@.len() == (l.res_h as int) * (l.tex_w as int),
    ensures
        forall|x: int, y: int|
            valid_offset(*l, tiles@, x, y) ==> score_at(*l, data@, x, y) <= r.score,
        harvest_first(*l, tiles@, data@, r),
        r != PosResult::empty_spec() ==> r.score > SCORE_NEG_INF,
{
    let mut best = PosResult::empty();
    let ghost mut wx: int = 0;
    let ghost mut wy: int = 0;
    let dlen: usize = data.len();
    let mut y: u32 = 0;
    while y < l.res_h
        invariant
            l.well_formed(),
            data@.len() == (l.res_h as int) * (l.tex_w as int),
            dlen == data@.len(),
            y <= l.res_h,
            forall|cx: int, cy: int|
                valid_offset(*l, tiles@, cx, cy) && cy < y ==> score_at(*l, data@, cx, cy)
                    <= best.score,
            best == PosResult::empty_spec() || (best.score > SCORE_NEG_INF && harvest_witness(
                *l,
                tiles@,
                data@,
                best,
                wx,
                wy,
            )),
        decreases l.res_h - y,
    {
        let mut x: u32 = 0;
        while x < l.res_w
            invariant
                l.well_formed(),
                data@.len() == (l.res_h as int) * (l.tex_w as int),
                dlen == data@.len(),
                y < l.res_h,
                x <= l.res_w,
                forall|cx: int, cy: int|
                    valid_offset(*l, tiles@, cx, cy) && (cy < y || (cy == y && cx < x))
                        ==> score_at(*l, data@, cx, cy) <= best.score,
                best == PosResult::empty_spec() || (best.score > SCORE_NEG_INF
                    && harvest_witness(*l, tiles@, data@, best, wx, wy)),
            decreases l.res_w - x,
        {
            proof {
                assert((y as int) * (l.tex_w as int) + x < (l.res_h as int) * (l.tex_w as int))
                    by (nonlinear_arith)
                    requires
                        y < l.res_h,
                        x < l.tex_w,
                        (l.tex_w as int) >= 1,
                ;
                assert((y as int) * (l.tex_w as int) >= 0) by (nonlinear_arith)
                    requires y >= 0, l.tex_w >= 0,
                ;
            }
            let idx: usize = (y as usize) * (l.tex_w as usize) + (x as usize);
            let word = data[idx];
            let (score_bits, zoom_bits) = unpack(word);
            let score = score_from_bits(score_bits);
            if score > best.score {
                // Only a beating offset pays for the cell lookup, as the
                // winning offsets are sparse.
                proof {
                    assert(((y / l.cell_h) as int) * (l.chunk as int) + ((x / l.cell_w) as int)
                        <= 0xFFFF_FFFF_0000_0000) by (nonlinear_arith)
                        requires
                            0 <= ((y / l.cell_h) as int) < 0x1_0000_0000,
                            0 <= l.chunk < 0x1_0000_0000,
                            0 <= ((x / l.cell_w) as int) < 0x1_0000_0000,
                    ;
                }
                let cell: u64 = (x / l.cell_w) as u64 + ((y / l.cell_h) as u64) * (l.chunk
                    as u64);
                let lx = x % l.cell_w;
                let ly = y % l.cell_h;
                if cell < (tiles.len() as u64) {
                    let (pos, width) = tiles[cell as usize];
                    if lx < width {
                        best =
                        PosResult {
                            tile_x: pos.0,
                            tile_y: pos.1,
                            tile_z: pos.2,
                            x: lx,
                            y: ly,
                            score,
                            zoom: zoom_bits,
                        };
                        proof {
                            wx = x as int;
                            wy = y as int;
                            assert(valid_offset(*l, tiles@, x as int, y as int));
                            assert(best == candidate_at(*l, tiles@, data@, x as int, y as int));
                        }
                    }
                }
            }
            proof {
                if valid_offset(*l, tiles@, x as int, y as int) {
                    assert(score_at(*l, data@, x as int, y as int) == f16_fixed(
                        packed_score_bits(word),
                    ));
                }
                assert forall|cx: int, cy: int|
                    valid_offset(*l, tiles@, cx, cy) && (cy < y || (cy == y && cx < x + 1))
                        implies score_at(*l, data@, cx, cy) <= best.score by {
                    if cy == y && cx == x {
                    }
                }
            }
            x = x + 1;
        }
        y = y + 1;
    }
    best
}

/// LAW (deterministic harvest): the harvest contract pins its result
/// completely — any two results that each cover every valid offset, are
/// each first-attained, and each carry a real score coincide, however the
/// completion callbacks are scheduled.
pub proof fn lemma_harvest_deterministic(
    l: BatchLayout,
    tiles: Seq<(TilePos, u32)>,
    data: Seq<u32>,
    r1: PosResult,
    r2: PosResult,
)
    requires
        forall|x: int, y: int|
            valid_offset(l, tiles, x, y) ==> score_at(l, data, x, y) <= r1.score,
        harvest_first(l, tiles, data, r1),
        r1 != PosResult::empty_spec() ==> r1.score > SCORE_NEG_INF,
        forall|x: int, y: int|
            valid_offset(l, tiles, x, y) ==> score_at(l, data, x, y) <= r2.score,
        harvest_first(l, tiles, data, r2),
        r2 != PosResult::empty_spec() ==> r2.score > SCORE_NEG_INF,
    ensures
        r1 == r2,
{
    let empty = PosResult::empty_spec();
    if r1 == empty && r2 == empty {
    } else if r1 == empty || r2 == empty {
        let (re, ra) = if r1 == empty { (r1, r2) } else { (r2, r1) };
        let (x, y) = choose|x: int, y: int| harvest_witness(l, tiles, data, ra, x, y);
        lemma_candidate_score_fits(l, tiles, data, x, y);
        assert(score_at(l, data, x, y) <= re.score);
        assert(false);
    } else {
        let (x1, y1) = choose|x: int, y: int| harvest_witness(l, tiles, data, r1, x, y);
        let (x2, y2) = choose|x: int, y: int| harvest_witness(l, tiles, data, r2, x, y);
        lemma_candidate_score_fits(l, tiles, data, x1, y1);
        lemma_candidate_score_fits(l, tiles, data, x2, y2);
        assert(r1.score == r2.score) by {
            assert(score_at(l, data, x1, y1) <= r2.score);
            assert(score_at(l, data, x2, y2) <= r1.score);
        }
        if y1 < y2 || (y1 == y2 && x1 < x2) {
            assert(score_at(l, data, x1, y1) < r2.score);
            assert(false);
        } else if y2 < y1 || (y1 == y2 && x2 < x1) {
            assert(score_at(l, data, x2, y2) < r1.score);
            assert(false);
        } else {
            assert(r1 == candidate_at(l, tiles, data, x1, y1));
            assert(r2 == candidate_at(l, tiles, data, x1, y1));
        }
    }
}

/// A decoded cell score survives the cast into the candidate's score
/// field.
proof fn lemma_candidate_score_fits(
    l: BatchLayout,
    tiles: Seq<(TilePos, u32)>,
    data: Seq<u32>,
    x: int,
    y: int,
)
    ensures
        candidate_at(l, tiles, data, x, y).score == score_at(l, data, x, y),
{
    crate::score::lemma_f16_fixed_valid(packed_score_bits(word_at(l, data, x, y)));
}

/// A best-score-per-tile table for one frame: the greatest score any
/// harvest has recorded for each tile, used only for cross-frame pruning.
pub struct ScoreTable {
    pub entries: Vec<(u64, i64)>,
}

impl ScoreTable {
    /// Keys appear at most once.
    pub open spec fn well_formed(self) -> bool {
        forall|i: int, j: int|
            0 <= i < j < self.entries@.len() ==> self.entries@[i].0 != self.entries@[j].0
    }

    pub open spec fn has_key(self, key: u64) -> bool {
        exists|i: int| 0 <= i < self.entries@.len() && self.entries@[i].0 == key
    }

    pub fn new() -> (r: ScoreTable)
        ensures
            r.well_formed(),
            r.entries@ =~= Seq::<(u64, i64)>::empty(),
    {
        ScoreTable { entries: Vec::new() }
    }

    /// Forget everything, at the start of a frame.
    pub fn clear(&mut self)
        ensures
            final(self).well_formed(),
            final(self).entries@ =~= Seq::<(u64, i64)>::empty(),
    {
        self.entries.clear();
    }

    /// Record a harvested score: keep the maximum seen for the tile.
    pub fn record_max(&mut self, key: u64, score: i64)
        requires
            old(self).well_formed(),
        ensures
            final(self).well_formed(),
            ({
                let s0 = old(self).entries@;
                if exists|i: int| 0 <= i < s0.len() && s0[i].0 == key {
                    let i = choose|i: int| 0 <= i < s0.len() && s0[i].0 == key;
                    final(self).entries@ == s0.update(
                        i,
                        (key, if score > s0[i].1 { score } else { s0[i].1 }),
                    )
                } else {
                    final(self).entries@ == s0.push((key, score))
                }
            }),
    {
        let ghost s0 = self.entries@;
        let n = self.entries.len();
        let mut i: usize = 0;
        while i < n
            invariant
                s0 == old(self).entries@,
                forall|a: int, b: int| 0 <= a < b < s0.len() ==> s0[a].0 != s0[b].0,
                self.entries@ == s0,
                n == s0.len(),
                i <= n,
                forall|j: int| 0 <= j < i ==> s0[j].0 != key,
            decreases n - i,
        {
            let (k, v) = self.entries[i];
            if k == key {
                let updated = if score > v { score } else { v };
                self.entries.set(i, (key, updated));
                proof {
                    let w = choose|w: int| 0 <= w < s0.len() && s0[w].0 == key;
                    assert(w == i) by {
                        if w < i {
                            assert(s0[w].0 != key);
                        }
                        if w > i {
                            assert(s0[i as int].0 != s0[w].0);
                        }
                    }
                    assert forall|a: int, b: int|
                        0 <= a < b < self.entries@.len() implies self.entries@[a].0
                        != self.entries@[b].0 by {
                        assert(s0[a].0 != s0[b].0);
                    }
                }
                return ;
            }
            i = i + 1;
        }
        self.entries.push((key, score));
        proof {
            assert forall|a: int, b: int|
                0 <= a < b < self.entries@.len() implies self.entries@[a].0
                != self.entries@[b].0 by {
                if b < self.entries@.len() - 1 {
                    assert(s0[a].0 != s0[b].0);
                } else {
                    assert(s0[a].0 != key);
                }
            }
        }
    }

    /// The recorded entries, in first-seen order.
    pub fn entries_ref(&self) -> (r: &Vec<(u64, i64)>)
        ensures
            r@ == self.entries@,
    {
        &self.entries
    }
}

/// The shared per-mask result state one frame accumulates: the top-K
/// shortlist and the best-score-per-tile table.
pub struct AlgoResult {
    pub best_pos: PosResults,
    pub tile_max_scores: ScoreTable,
}

impl AlgoResult {
    pub open spec fn well_formed(self) -> bool {
        self.best_pos.well_formed() && self.tile_max_scores.well_formed()
    }

    pub fn new(top_k: usize) -> (r: AlgoResult)
        requires
            top_k >= 1,
        ensures
            r.well_formed(),
            r.best_pos.k() == top_k,
            r.best_pos.view_seq() =~= Seq::new(top_k as nat, |i: int| PosResult::empty_spec()),
            r.tile_max_scores.entries@ =~= Seq::<(u64, i64)>::empty(),
    {
        AlgoResult { best_pos: PosResults::new(top_k), tile_max_scores: ScoreTable::new() }
    }

    /// Merge one harvested batch winner into the frame's shared state:
    /// a real candidate joins the top-K shortlist and raises its tile's
    /// recorded best score; the sentinel (no candidate found) is dropped.
    /// The shortlist's head stays the running maximum of everything
    /// merged, so the frame's top score does not depend on the order in
    /// which completion callbacks run.
    pub fn merge(&mut self, best: PosResult)
        requires
            old(self).well_formed(),
        ensures
            final(self).well_formed(),
            final(self).best_pos.k() == old(self).best_pos.k(),
            final(self).best_pos.view_seq()[0].score == if best.score > SCORE_NEG_INF
                && best.score > old(self).best_pos.view_seq()[0].score {
                best.score
            } else {
                old(self).best_pos.view_seq()[0].score
            },
            best.score <= SCORE_NEG_INF ==> final(self).best_pos == old(self).best_pos
                && final(self).tile_max_scores.entries@ == old(self).tile_max_scores.entries@,
            best.score > SCORE_NEG_INF ==> ({
                let s = old(self).best_pos.view_seq();
                if best.score < s.last().score {
                    final(self).best_pos.view_seq() == s
                } else {
                    final(self).best_pos.view_seq() == s.drop_last().insert(
                        crate::topk::rank_of(s.drop_last(), best.score),
                        best,
                    )
                }
            }),
            best.score > SCORE_NEG_INF && crate::tiles::packable_pos(
                (best.tile_x, best.tile_y, best.tile_z),
            ) ==> ({
                let key = crate::tiles::pos_key_spec(
                    (best.tile_x, best.tile_y, best.tile_z),
                ) as u64;
                let t0 = old(self).tile_max_scores.entries@;
                if exists|i: int| 0 <= i < t0.len() && t0[i].0 == key {
                    let i = choose|i: int| 0 <= i < t0.len() && t0[i].0 == key;
                    final(self).tile_max_scores.entries@ == t0.update(
                        i,
                        (key, if best.score > t0[i].1 { best.score } else { t0[i].1 }),
                    )
                } else {
                    final(self).tile_max_scores.entries@ == t0.push((key, best.score))
                }
            }),
            best.score > SCORE_NEG_INF && !crate::tiles::packable_pos(
                (best.tile_x, best.tile_y, best.tile_z),
            ) ==> final(self).tile_max_scores.entries@ == old(self).tile_max_scores.entries@,
    {
        if best.score > SCORE_NEG_INF {
            self.best_pos.insert(best);
            if best.tile_x < 0x2000_0000 && best.tile_y < 0x2000_0000 && best.tile_z < 32 {
                let key = crate::tiles::pos_key((best.tile_x, best.tile_y, best.tile_z));
                self.tile_max_scores.record_max(key, best.score);
            }
        }
    }

    /// Reset for a new frame, keeping the shortlist capacity.
    pub fn clear(&mut self)
        requires
            old(self).well_formed(),
        ensures
            final(self).well_formed(),
            final(self).best_pos.k() == old(self).best_pos.k(),
            final(self).best_pos.view_seq() =~= Seq::new(
                old(self).best_pos.k() as nat,
                |i: int| PosResult::empty_spec(),
            ),
            final(self).tile_max_scores.entries@ =~= Seq::<(u64, i64)>::empty(),
    {
        self.best_pos.clear();
        self.tile_max_scores.clear();
    }
}

} // verus!
