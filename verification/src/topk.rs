//! Match candidates and the fixed-capacity top-K shortlist.

use vstd::prelude::*;

verus! {

use crate::score::SCORE_NEG_INF;
use crate::tiles::TilePos;

/// One scored scan position: a tile, an offset inside it, the zoom step
/// that scored best there (half-precision bits), and the fixed-point score.
#[derive(Clone, Copy, Debug, PartialEq, Eq, Structural)]
pub struct PosResult {
    pub tile_x: u32,
    pub tile_y: u32,
    pub tile_z: u32,
    pub x: u32,
    pub y: u32,
    pub score: i64,
    pub zoom: u16,
}

/// Half-precision bit pattern of `1.0`, the neutral zoom.
pub const ZOOM_ONE_BITS: u16 = 0x3C00;

impl PosResult {
    /// The sentinel entry: an out-of-range tile id and a score below every
    /// real candidate, so any real match sorts above it.
    pub open spec fn empty_spec() -> PosResult {
        PosResult {
            tile_x: u32::MAX,
            tile_y: u32::MAX,
            tile_z: u32::MAX,
            x: 0,
            y: 0,
            score: SCORE_NEG_INF,
            zoom: ZOOM_ONE_BITS,
        }
    }

    pub fn empty() -> (r: PosResult)
        ensures
            r == PosResult::empty_spec(),
    {
        PosResult {
            tile_x: u32::MAX,
            tile_y: u32::MAX,
            tile_z: u32::MAX,
            x: 0,
            y: 0,
            score: SCORE_NEG_INF,
            zoom: ZOOM_ONE_BITS,
        }
    }

    pub fn tile_pos(&self) -> (r: TilePos)
        ensures
            r == (self.tile_x, self.tile_y, self.tile_z),
    {
        (self.tile_x, self.tile_y, self.tile_z)
    }
}

impl Default for PosResult {
    fn default() -> (r: Self)
        ensures
            r == PosResult::empty_spec(),
    {
        PosResult::empty()
    }
}

/// Sorted in descending score order.
pub open spec fn sorted_desc(s: Seq<PosResult>) -> bool {
    forall|i: int, j: int| 0 <= i <= j < s.len() ==> s[i].score >= s[j].score
}

/// The index at which a new entry of score `v` belongs in `s`: after every
/// held entry scoring at least `v`.
pub open spec fn rank_of(s: Seq<PosResult>, v: i64) -> int
    decreases s.len(),
{
    if s.len() == 0 {
        0
    } else if s[0].score >= v {
        1 + rank_of(s.drop_first(), v)
    } else {
        0
    }
}

proof fn lemma_rank_of_prefix(s: Seq<PosResult>, v: i64, i: int)
    requires
        sorted_desc(s),
        0 <= i <= s.len(),
        forall|j: int| 0 <= j < i ==> s[j].score >= v,
        i < s.len() ==> s[i].score < v,
    ensures
        rank_of(s, v) == i,
    decreases s.len(),
{
    if s.len() == 0 {
    } else if s[0].score >= v {
        let t = s.drop_first();
        assert(i >= 1);
        assert forall|j: int| 0 <= j < i - 1 implies t[j].score >= v by {
            assert(t[j] == s[j + 1]);
        }
        lemma_rank_of_prefix(t, v, i - 1);
    } else {
        assert(i == 0);
    }
}

/// The top-K shortlist for one mask within one frame's search: always
/// exactly K entries, descending by score, padded with sentinels.
///
/// LAW (top-K invariant): every constructor and method below keeps the list
/// sorted descending by score at exactly K entries, and `insert` is a no-op
/// when the new entry scores below the worst held entry of the full list;
/// this is stated by their contracts, so it holds over every sequence of
/// insertions.
pub struct PosResults {
    pub top_k: usize,
    pub top_results: Vec<PosResult>,
}

impl PosResults {
    /// Capacity K.
    pub open spec fn k(self) -> int {
        self.top_k as int
    }

    /// The held entries, best first.
    pub open spec fn view_seq(self) -> Seq<PosResult> {
        self.top_results@
    }

    pub open spec fn well_formed(self) -> bool {
        &&& self.top_k >= 1
        &&& self.top_results@.len() == self.top_k
        &&& sorted_desc(self.top_results@)
    }

    pub fn new(top_k: usize) -> (r: PosResults)
        requires
            top_k >= 1,
        ensures
            r.well_formed(),
            r.k() == top_k,
            r.view_seq() =~= Seq::new(top_k as nat, |i: int| PosResult::empty_spec()),
    {
        let mut v: Vec<PosResult> = Vec::new();
        let mut i: usize = 0;
        while i < top_k
            invariant
                i <= top_k,
                v@.len() == i,
                forall|j: int| 0 <= j < i ==> v@[j] == PosResult::empty_spec(),
            decreases top_k - i,
        {
            v.push(PosResult::empty());
            i = i + 1;
        }
        PosResults { top_k, top_results: v }
    }

    /// Reset every entry to the sentinel, keeping the capacity.
    pub fn clear(&mut self)
        requires
            old(self).well_formed(),
        ensures
            final(self).well_formed(),
            final(self).k() == old(self).k(),
            final(self).view_seq() =~= Seq::new(
                old(self).k() as nat,
                |i: int| PosResult::empty_spec(),
            ),
    {
        let k = self.top_k;
        self.top_results.clear();
        let mut i: usize = 0;
        while i < k
            invariant
                i <= k,
                self.top_results@.len() == i,
                self.top_k == k,
                forall|j: int| 0 <= j < i ==> self.top_results@[j] == PosResult::empty_spec(),
            decreases k - i,
        {
            self.top_results.push(PosResult::empty());
            i = i + 1;
        }
    }

    /// The current shortlist, best candidate first.
    pub fn results(&self) -> (r: &Vec<PosResult>)
        ensures
            r@ == self.view_seq(),
    {
        &self.top_results
    }

    /// Merge one candidate: a candidate scoring below the current worst
    /// entry is dropped; otherwise the worst entry is dropped and the
    /// candidate is placed at its rank.
    pub fn insert(&mut self, pos: PosResult)
        requires
            old(self).well_formed(),
        ensures
            final(self).well_formed(),
            final(self).k() == old(self).k(),
            pos.score < old(self).view_seq().last().score ==> final(self).view_seq()
                == old(self).view_seq(),
            pos.score >= old(self).view_seq().last().score ==> final(self).view_seq()
                == old(self).view_seq().drop_last().insert(
                    rank_of(old(self).view_seq().drop_last(), pos.score),
                    pos,
                ),
            final(self).view_seq()[0].score == if pos.score > old(self).view_seq()[0].score {
                pos.score
            } else {
                old(self).view_seq()[0].score
            },
    {
        let ghost s0 = self.top_results@;
        let k = self.top_k;
        let worst = self.top_results[k - 1].score;
        if pos.score < worst {
            return ;
        }
        let mut i: usize = 0;
        while i < k - 1 && self.top_results[i].score >= pos.score
            invariant
                self.top_results@ == s0,
                self.top_k == k,
                k >= 1,
                s0.len() == k,
                i <= k - 1,
                forall|j: int| 0 <= j < i ==> s0[j].score >= pos.score,
            decreases k - 1 - i,
        {
            i = i + 1;
        }
        proof {
            let d = s0.drop_last();
            assert forall|j: int| 0 <= j < i implies d[j].score >= pos.score by {
                assert(d[j] == s0[j]);
            }
            if i < k - 1 {
                assert(d[i as int] == s0[i as int]);
            }
            assert(sorted_desc(d)) by {
                assert forall|a: int, b: int| 0 <= a <= b < d.len() implies d[a].score
                    >= d[b].score by {
                    assert(d[a] == s0[a] && d[b] == s0[b]);
                }
            }
            lemma_rank_of_prefix(d, pos.score, i as int);
        }
        self.top_results.pop();
        proof {
            assert(self.top_results@ =~= s0.drop_last());
        }
        self.top_results.insert(i, pos);
        proof {
            let d = s0.drop_last();
            let f = self.top_results@;
            assert(f == d.insert(i as int, pos));
            assert forall|a: int, b: int| 0 <= a <= b < f.len() implies f[a].score
                >= f[b].score by {
                if a < i && b < i {
                    assert(f[a] == d[a] && f[b] == d[b]);
                } else if a < i && b == i {
                    assert(f[a] == d[a]);
                } else if a < i && b > i {
                    assert(f[a] == d[a] && f[b] == d[b - 1]);
                    assert(d[a].score >= pos.score);
                    if i < d.len() {
                        assert(d[b - 1].score <= d[i as int].score);
                    }
                } else if a == i && b > i {
                    assert(f[b] == d[b - 1]);
                    assert(d[b - 1].score <= pos.score) by {
                        assert(d[i as int].score < pos.score);
                        assert(d[b - 1].score <= d[i as int].score);
                    }
                } else if a == i && b == i {
                } else {
                    assert(f[a] == d[a - 1] && f[b] == d[b - 1]);
                }
            }
        }
    }
}

} // verus!
