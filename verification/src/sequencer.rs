//! The frame sequencer.
//!
//! One search per output frame: replay frames the result log already
//! holds, reweight the query by the accumulated error, build the forbidden
//! set (anti-repeat ring plus cross-frame pruning), and after the search
//! record the winner into the ring, the history and the result log.

use vstd::prelude::*;

verus! {

use crate::errmap::{ErrorMap, accum_cell};
use crate::harvest::AlgoResult;
use crate::harvest::ScoreTable;
use crate::logfile::{FrameRecord, frames_unique, find_frame};
use crate::mask::{Mask, similar_at_least, similar_at_least_spec};
use crate::ring::{ForbiddenRing, ring_step};
use crate::score::{SCORE_NEG_INF, f16_fixed, score_from_bits};
use crate::tiles::{TilePos, packable_pos, pos_key, pos_key_spec};
use crate::topk::PosResult;

/// Chosen tiles of this many recent frames are excluded outright.
pub const RING_CAPACITY: usize = 9;

/// How many recent frames' results are kept for cross-frame pruning.
pub const HISTORY_CAPACITY: usize = 100;

/// Masks at least this similar (4/5, by cosine similarity) share pruning
/// information.
pub const SIMILAR_NUM: u32 = 4;

pub const SIMILAR_DEN: u32 = 5;

/// How far (in score units, about 0.3) below a similar frame's winning
/// score a tile's recorded best must fall to be pruned.
pub const PRUNE_MARGIN: i64 = 5033165;

/// One remembered frame: its id, its unweighted mask, the
/// best-score-per-tile table of its search, and its winner.
pub struct HistoryEntry {
    pub mask_id: u32,
    pub mask: Mask,
    pub tile_scores: ScoreTable,
    pub chosen: PosResult,
}

pub struct Sequencer {
    pub ring: ForbiddenRing,
    pub errors: ErrorMap,
    pub history: Vec<HistoryEntry>,
    pub done: Vec<FrameRecord>,
}

/// Tiles whose recorded score falls more than the margin below the winning
/// score are confidently worse; never prune a tile that scored above zero.
pub open spec fn prune_threshold(s: int) -> int {
    if s - PRUNE_MARGIN < 0 {
        s - PRUNE_MARGIN
    } else {
        0
    }
}

impl Sequencer {
    pub open spec fn well_formed(self) -> bool {
        &&& self.ring.well_formed()
        &&& self.ring.capacity == RING_CAPACITY
        &&& self.errors.well_formed()
        &&& self.history@.len() <= HISTORY_CAPACITY
        &&& frames_unique(self.done@)
        &&& forall|h: int|
            0 <= h < self.history@.len() ==> {
                &&& (#[trigger] self.history@[h]).mask.well_formed()
                &&& self.history@[h].mask.width == self.errors.width
                &&& self.history@[h].mask.height == self.errors.height
                &&& self.history@[h].tile_scores.well_formed()
                &&& self.history@[h].chosen.score >= SCORE_NEG_INF
            }
    }

    /// The chosen tile of the ring's entry `i` forbids `key`.
    pub open spec fn ring_forbids(self, key: u64) -> bool {
        exists|i: int|
            0 <= i < self.ring.items@.len() && packable_pos(#[trigger] self.ring.items@[i])
                && pos_key_spec(self.ring.items@[i]) == key
    }

    /// Cross-frame pruning forbids `key` for the given query mask.
    pub open spec fn prune_forbids(self, mask: Mask, key: u64) -> bool {
        exists|h: int, e: int|
            {
                &&& 0 <= h < self.history@.len()
                &&& similar_at_least_spec(
                    mask,
                    (#[trigger] self.history@[h]).mask,
                    SIMILAR_NUM as int,
                    SIMILAR_DEN as int,
                )
                &&& 0 <= e < self.history@[h].tile_scores.entries@.len()
                &&& (#[trigger] self.history@[h].tile_scores.entries@[e]).1 < prune_threshold(
                    self.history@[h].chosen.score as int,
                )
                &&& self.history@[h].tile_scores.entries@[e].0 == key
            }
    }

    /// Start a run: an empty ring and history, the initial error bias, and
    /// the records already in the result log.
    pub fn new(mask_w: u32, mask_h: u32, done: Vec<FrameRecord>) -> (r: Sequencer)
        requires
            1 <= mask_w <= 4096,
            1 <= mask_h <= 4096,
            frames_unique(done@),
        ensures
            r.well_formed(),
            r.errors.width == mask_w,
            r.errors.height == mask_h,
            r.ring.items@ =~= Seq::<TilePos>::empty(),
            r.history@ =~= Seq::<HistoryEntry>::empty(),
            r.done@ == done@,
    {
        Sequencer {
            ring: ForbiddenRing::new(RING_CAPACITY),
            errors: ErrorMap::new(mask_w, mask_h),
            history: Vec::new(),
            done,
        }
    }

    /// LAW (resume idempotence): a frame already in the loaded log is
    /// replayed from its record; none of its work is dispatched again and
    /// nothing new is appended for it.  Running the sequencer a second time
    /// over the same frames with the same log therefore dispatches nothing
    /// and leaves the log unchanged.
    pub fn plan_frame(&self, frame: u32) -> (r: Option<FrameRecord>)
        ensures
            r matches Some(rec) ==> exists|i: int|
                0 <= i < self.done@.len() && self.done@[i] == rec && rec.frame == frame,
            r is None ==> forall|i: int| 0 <= i < self.done@.len() ==> self.done@[i].frame != frame,
    {
        match find_frame(&self.done, frame) {
            Some(i) => {
                let rec = self.done[i];
                proof {
                    assert(self.done@[i as int] == rec);
                }
                Some(rec)
            },
            None => None,
        }
    }

    /// Replay the state-machine side effects of an already-logged frame:
    /// remember its tile in the anti-repeat ring and fold its residual into
    /// the error map, without dispatching any work.
    pub fn apply_replay(&mut self, rec: FrameRecord, mask: &Mask, tile: &crate::tiles::TileImage)
        requires
            old(self).well_formed(),
            mask.well_formed(),
            tile.well_formed(),
            mask.width == old(self).errors.width,
            mask.height == old(self).errors.height,
        ensures
            final(self).well_formed(),
            final(self).errors.width == old(self).errors.width,
            final(self).errors.height == old(self).errors.height,
            final(self).ring.items@ == ring_step(
                RING_CAPACITY as int,
                old(self).ring.items@,
                (rec.tile_x, rec.tile_y, rec.tile_z),
            ),
            final(self).history@ == old(self).history@,
            final(self).done@ == old(self).done@,
            final(self).errors.values@.len() == old(self).errors.values@.len(),
            forall|k: int|
                0 <= k < old(self).errors.values@.len() ==> final(self).errors.values@[k]
                    == accum_cell(
                    old(self).errors.values@.map_values(|v: u32| v / 2),
                    *mask,
                    *tile,
                    rec.x,
                    rec.y,
                    effective_zoom(rec.zoom),
                    k,
                ),
    {
        self.ring.push((rec.tile_x, rec.tile_y, rec.tile_z));
        let ghost mid = self.errors.values@;
        self.errors.decay();
        proof {
            assert(self.errors.values@ =~= mid.map_values(|v: u32| v / 2));
        }
        let z = zoom_or_zero(rec.zoom);
        self.errors.accumulate(mask, tile, rec.x, rec.y, z);
    }

    /// Decay the error map and, where a previous frame chose a match, fold
    /// that match's residual against the current mask into the map.
    pub fn begin_frame(&mut self, mask: &Mask, prev_tile: Option<&crate::tiles::TileImage>)
        requires
            old(self).well_formed(),
            mask.well_formed(),
            mask.width == old(self).errors.width,
            mask.height == old(self).errors.height,
            prev_tile matches Some(t) ==> t.well_formed(),
        ensures
            final(self).well_formed(),
            final(self).errors.width == old(self).errors.width,
            final(self).errors.height == old(self).errors.height,
            final(self).ring.items@ == old(self).ring.items@,
            final(self).history@ == old(self).history@,
            final(self).done@ == old(self).done@,
            final(self).errors.values@.len() == old(self).errors.values@.len(),
            (old(self).history@.len() == 0 || prev_tile is None) ==> forall|k: int|
                0 <= k < old(self).errors.values@.len() ==> final(self).errors.values@[k] == old(
                    self,
                ).errors.values@[k] / 2,
            old(self).history@.len() > 0 ==> (prev_tile matches Some(t) ==> forall|k: int|
                0 <= k < old(self).errors.values@.len() ==> final(self).errors.values@[k]
                    == accum_cell(
                    old(self).errors.values@.map_values(|v: u32| v / 2),
                    *mask,
                    *t,
                    old(self).history@.last().chosen.x,
                    old(self).history@.last().chosen.y,
                    effective_zoom(old(self).history@.last().chosen.zoom),
                    k,
                )),
    {
        let ghost mid = self.errors.values@;
        self.errors.decay();
        proof {
            assert(self.errors.values@ =~= mid.map_values(|v: u32| v / 2));
        }
        if self.history.len() > 0 {
            match prev_tile {
                Some(t) => {
                    let n = self.history.len();
                    let chosen = self.history[n - 1].chosen;
                    proof {
                        assert(self.history@[n - 1] == self.history@.last());
                    }
                    let z = zoom_or_zero(chosen.zoom);
                    self.errors.accumulate(mask, t, chosen.x, chosen.y, z);
                },
                None => {},
            }
        }
    }

    /// Reweight the upcoming query mask by the accumulated error.
    pub fn reweight_mask(&self, mask: &mut Mask)
        requires
            self.well_formed(),
            old(mask).well_formed(),
            old(mask).width == self.errors.width,
            old(mask).height == self.errors.height,
        ensures
            final(mask).well_formed(),
            final(mask).width == old(mask).width,
            final(mask).height == old(mask).height,
            forall|k: int|
                0 <= k < old(mask).data@.len() ==> final(mask).data@[k]
                    == crate::errmap::reweight_byte(old(mask).data@, self.errors.values@, k),
    {
        self.errors.reweight(mask);
    }

    /// The forbidden set for this frame's search: every tile in the
    /// anti-repeat ring, and every tile that a sufficiently similar recent
    /// frame scored well below its own winner.
    pub fn forbidden_keys(&self, mask: &Mask) -> (r: Vec<u64>)
        requires
            self.well_formed(),
            mask.well_formed(),
            mask.width == self.errors.width,
            mask.height == self.errors.height,
        ensures
            forall|k: u64|
                r@.contains(k) ==> self.ring_forbids(k) || self.prune_forbids(*mask, k),
            forall|i: int|
                0 <= i < self.ring.items@.len() && packable_pos(#[trigger] self.ring.items@[i])
                    ==> r@.contains(pos_key_spec(self.ring.items@[i]) as u64),
            forall|h: int, e: int|
                0 <= h < self.history@.len() && similar_at_least_spec(
                    *mask,
                    (#[trigger] self.history@[h]).mask,
                    SIMILAR_NUM as int,
                    SIMILAR_DEN as int,
                ) && 0 <= e < self.history@[h].tile_scores.entries@.len() && (
                #[trigger] self.history@[h].tile_scores.entries@[e]).1 < prune_threshold(
                    self.history@[h].chosen.score as int,
                ) ==> r@.contains(self.history@[h].tile_scores.entries@[e].0),
    {
        let mut out: Vec<u64> = Vec::new();
        let mut i: usize = 0;
        while i < self.ring.items.len()
            invariant
                self.well_formed(),
                i <= self.ring.items@.len(),
                forall|k: u64| out@.contains(k) ==> self.ring_forbids(k),
                forall|j: int|
                    0 <= j < i && packable_pos(#[trigger] self.ring.items@[j]) ==> out@.contains(
                        pos_key_spec(self.ring.items@[j]) as u64,
                    ),
            decreases self.ring.items@.len() - i,
        {
            let p = self.ring.items[i];
            if p.0 < 0x2000_0000 && p.1 < 0x2000_0000 && p.2 < 32 {
                let ghost before = out@;
                out.push(pos_key(p));
                proof {
                    assert(out@ == before.push(pos_key_spec(p) as u64));
                    assert(out@[before.len() as int] == pos_key_spec(p) as u64);
                    assert forall|k: u64| out@.contains(k) implies self.ring_forbids(k) by {
                        let w = choose|w: int| 0 <= w < out@.len() && out@[w] == k;
                        if w < before.len() {
                            assert(before[w] == k);
                            assert(before.contains(k));
                        } else {
                            assert(k == pos_key_spec(self.ring.items@[i as int]));
                        }
                    }
                    assert forall|j: int|
                        0 <= j < i + 1 && packable_pos(
                            #[trigger] self.ring.items@[j],
                        ) implies out@.contains(pos_key_spec(self.ring.items@[j]) as u64) by {
                        if j < i {
                            let k = pos_key_spec(self.ring.items@[j]) as u64;
                            assert(before.contains(k));
                            let w = choose|w: int| 0 <= w < before.len() && before[w] == k;
                            assert(out@[w] == k);
                        }
                    }
                }
            }
            i = i + 1;
        }
        let ghost ring_done = out@;
        let mut h: usize = 0;
        while h < self.history.len()
            invariant
                self.well_formed(),
                mask.well_formed(),
                mask.width == self.errors.width,
                mask.height == self.errors.height,
                h <= self.history@.len(),
                forall|k: u64|
                    out@.contains(k) ==> self.ring_forbids(k) || self.prune_forbids(*mask, k),
                forall|j: int|
                    0 <= j < self.ring.items@.len() && packable_pos(
                        #[trigger] self.ring.items@[j],
                    ) ==> out@.contains(pos_key_spec(self.ring.items@[j]) as u64),
                forall|g: int, e: int|
                    0 <= g < h && similar_at_least_spec(
                        *mask,
                        (#[trigger] self.history@[g]).mask,
                        SIMILAR_NUM as int,
                        SIMILAR_DEN as int,
                    ) && 0 <= e < self.history@[g].tile_scores.entries@.len() && (
                    #[trigger] self.history@[g].tile_scores.entries@[e]).1 < prune_threshold(
                        self.history@[g].chosen.score as int,
                    ) ==> out@.contains(self.history@[g].tile_scores.entries@[e].0),
            decreases self.history@.len() - h,
        {
            let entry = &self.history[h];
            let sim = similar_at_least(mask, &entry.mask, SIMILAR_NUM, SIMILAR_DEN);
            if sim {
                let last_score = entry.chosen.score;
                let margin = last_score - PRUNE_MARGIN;
                let threshold: i64 = if margin < 0 {
                    margin
                } else {
                    0
                };
                let table = entry.tile_scores.entries_ref();
                let mut e: usize = 0;
                while e < table.len()
                    invariant
                        self.well_formed(),
                        mask.well_formed(),
                        mask.width == self.errors.width,
                        mask.height == self.errors.height,
                        h < self.history@.len(),
                        e <= table@.len(),
                        table@ == self.history@[h as int].tile_scores.entries@,
                        similar_at_least_spec(
                            *mask,
                            self.history@[h as int].mask,
                            SIMILAR_NUM as int,
                            SIMILAR_DEN as int,
                        ),
                        threshold == prune_threshold(self.history@[h as int].chosen.score as int),
                        forall|k: u64|
                            out@.contains(k) ==> self.ring_forbids(k) || self.prune_forbids(
                                *mask,
                                k,
                            ),
                        forall|j: int|
                            0 <= j < self.ring.items@.len() && packable_pos(
                                #[trigger] self.ring.items@[j],
                            ) ==> out@.contains(pos_key_spec(self.ring.items@[j]) as u64),
                        forall|g: int, e2: int|
                            0 <= g < h && similar_at_least_spec(
                                *mask,
                                (#[trigger] self.history@[g]).mask,
                                SIMILAR_NUM as int,
                                SIMILAR_DEN as int,
                            ) && 0 <= e2 < self.history@[g].tile_scores.entries@.len() && (
                            #[trigger] self.history@[g].tile_scores.entries@[e2]).1
                                < prune_threshold(self.history@[g].chosen.score as int)
                                ==> out@.contains(self.history@[g].tile_scores.entries@[e2].0),
                        forall|e2: int|
                            0 <= e2 < e && (#[trigger] table@[e2]).1 < prune_threshold(
                                self.history@[h as int].chosen.score as int,
                            ) ==> out@.contains(table@[e2].0),
                    decreases table@.len() - e,
                {
                    let (key, score) = table[e];
                    if score < threshold {
                        let ghost before = out@;
                        out.push(key);
                        proof {
                            assert(out@[before.len() as int] == key);
                            assert(self.prune_forbids(*mask, key));
                            assert forall|k: u64|
                                out@.contains(k) implies self.ring_forbids(k)
                                || self.prune_forbids(*mask, k) by {
                                let w = choose|w: int| 0 <= w < out@.len() && out@[w] == k;
                                if w < before.len() {
                                    assert(before[w] == k);
                                    assert(before.contains(k));
                                }
                            }
                            assert forall|j: int|
                                0 <= j < self.ring.items@.len() && packable_pos(
                                    #[trigger] self.ring.items@[j],
                                ) implies out@.contains(
                                pos_key_spec(self.ring.items@[j]) as u64,
                            ) by {
                                let k = pos_key_spec(self.ring.items@[j]) as u64;
                                let w = choose|w: int| 0 <= w < before.len() && before[w] == k;
                                assert(out@[w] == k);
                            }
                            assert forall|g: int, e2: int|
                                0 <= g < h && similar_at_least_spec(
                                    *mask,
                                    (#[trigger] self.history@[g]).mask,
                                    SIMILAR_NUM as int,
                                    SIMILAR_DEN as int,
                                ) && 0 <= e2 < self.history@[g].tile_scores.entries@.len() && (
                                #[trigger] self.history@[g].tile_scores.entries@[e2]).1
                                    < prune_threshold(self.history@[g].chosen.score as int) implies out@.contains(
                                self.history@[g].tile_scores.entries@[e2].0,
                            ) by {
                                let k = self.history@[g].tile_scores.entries@[e2].0;
                                let w = choose|w: int| 0 <= w < before.len() && before[w] == k;
                                assert(out@[w] == k);
                            }
                            assert forall|e2: int|
                                0 <= e2 < e + 1 && (#[trigger] table@[e2]).1 < prune_threshold(
                                    self.history@[h as int].chosen.score as int,
                                ) implies out@.contains(table@[e2].0) by {
                                if e2 < e {
                                    let k = table@[e2].0;
                                    let w = choose|w: int|
                                        0 <= w < before.len() && before[w] == k;
                                    assert(out@[w] == k);
                                }
                            }
                        }
                    }
                    e = e + 1;
                }
            }
            h = h + 1;
        }
        out
    }

    /// Take the frame's winner: remember its tile in the anti-repeat ring,
    /// append the frame to the recent-results history (dropping the oldest
    /// past capacity), and produce the row to persist.
    pub fn complete_frame(&mut self, mask_id: u32, clean_mask: Mask, algo: AlgoResult) -> (r:
        FrameRecord)
        requires
            old(self).well_formed(),
            algo.well_formed(),
            algo.best_pos.view_seq().len() >= 1,
            algo.best_pos.view_seq()[0].score >= SCORE_NEG_INF,
            clean_mask.well_formed(),
            clean_mask.width == old(self).errors.width,
            clean_mask.height == old(self).errors.height,
        ensures
            final(self).well_formed(),
            final(self).errors == old(self).errors,
            final(self).done@ == old(self).done@,
            ({
                let winner = algo.best_pos.view_seq()[0];
                &&& r == (FrameRecord {
                    frame: mask_id,
                    tile_x: winner.tile_x,
                    tile_y: winner.tile_y,
                    tile_z: winner.tile_z,
                    zoom: winner.zoom,
                    x: winner.x,
                    y: winner.y,
                    score: winner.score,
                })
                &&& r.score > i64::MIN
                &&& final(self).ring.items@ == ring_step(
                    RING_CAPACITY as int,
                    old(self).ring.items@,
                    (winner.tile_x, winner.tile_y, winner.tile_z),
                )
                &&& final(self).history@.len() >= 1
                &&& final(self).history@.last().mask_id == mask_id
                &&& final(self).history@.last().chosen == winner
                &&& final(self).history@ == if old(self).history@.len() < HISTORY_CAPACITY {
                    old(self).history@.push(final(self).history@.last())
                } else {
                    old(self).history@.drop_first().push(final(self).history@.last())
                }
            }),
    {
        let winner = algo.best_pos.results()[0];
        self.ring.push(winner.tile_pos());
        let entry = HistoryEntry {
            mask_id,
            mask: clean_mask,
            tile_scores: algo.tile_max_scores,
            chosen: winner,
        };
        self.history.push(entry);
        if self.history.len() > HISTORY_CAPACITY {
            self.history.remove(0);
            proof {
                assert(self.history@ =~= old(self).history@.drop_first().push(
                    self.history@.last(),
                ));
            }
        }
        FrameRecord {
            frame: mask_id,
            tile_x: winner.tile_x,
            tile_y: winner.tile_y,
            tile_z: winner.tile_z,
            zoom: winner.zoom,
            x: winner.x,
            y: winner.y,
            score: winner.score,
        }
    }
}

/// A zoom whose decoded value is negative or NaN contributes nothing: it
/// is replaced by the bit pattern of zero.
pub open spec fn effective_zoom(z: u16) -> u16 {
    if f16_fixed(z) >= 0 {
        z
    } else {
        0
    }
}

/// Exec counterpart of `effective_zoom`.
fn zoom_or_zero(z: u16) -> (r: u16)
    ensures
        r == effective_zoom(z),
        f16_fixed(r) >= 0,
{
    let v = score_from_bits(z);
    if v >= 0 {
        z
    } else {
        0
    }
}

} // verus!
