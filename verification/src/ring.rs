//! The anti-repeat window: a bounded FIFO ring of recently chosen tiles.

use vstd::prelude::*;

verus! {

use crate::tiles::TilePos;

/// Tiles chosen for the most recent frames, excluded from the next search.
/// Pushing onto a full ring evicts the oldest entry.
pub struct ForbiddenRing {
    pub capacity: usize,
    pub items: Vec<TilePos>,
}

/// One push step: append, evicting the oldest entry if the ring is full.
pub open spec fn ring_step(cap: int, prev: Seq<TilePos>, p: TilePos) -> Seq<TilePos> {
    if prev.len() < cap {
        prev.push(p)
    } else {
        prev.drop_first().push(p)
    }
}

/// The ring contents after pushing the whole history `s` onto an empty ring.
pub open spec fn ring_fold(cap: int, s: Seq<TilePos>) -> Seq<TilePos>
    decreases s.len(),
{
    if s.len() == 0 {
        Seq::empty()
    } else {
        ring_step(cap, ring_fold(cap, s.drop_last()), s.last())
    }
}

/// LAW (forbidden-tile correctness): after pushing the chosen tiles of
/// frames `1..=N` onto an empty ring of capacity C, the ring holds exactly
/// the tiles of the last `min(N, C)` frames, in choice order, the oldest
/// entries having been evicted first.
pub proof fn lemma_ring_fold_is_suffix(cap: int, s: Seq<TilePos>)
    requires
        cap >= 1,
    ensures
        ring_fold(cap, s) =~= s.subrange(
            if s.len() <= cap { 0 } else { s.len() - cap },
            s.len() as int,
        ),
    decreases s.len(),
{
    if s.len() > 0 {
        lemma_ring_fold_is_suffix(cap, s.drop_last());
    }
}

impl ForbiddenRing {
    pub open spec fn well_formed(self) -> bool {
        &&& self.capacity >= 1
        &&& self.items@.len() <= self.capacity
    }

    pub fn new(capacity: usize) -> (r: ForbiddenRing)
        requires
            capacity >= 1,
        ensures
            r.well_formed(),
            r.capacity == capacity,
            r.items@ =~= Seq::<TilePos>::empty(),
    {
        ForbiddenRing { capacity, items: Vec::new() }
    }

    /// Remember a chosen tile, evicting the oldest if the window is full.
    pub fn push(&mut self, p: TilePos)
        requires
            old(self).well_formed(),
        ensures
            final(self).well_formed(),
            final(self).capacity == old(self).capacity,
            final(self).items@ == ring_step(
                old(self).capacity as int,
                old(self).items@,
                p,
            ),
    {
        let ghost s0 = self.items@;
        if self.items.len() >= self.capacity {
            self.items.remove(0);
            proof {
                assert(self.items@ =~= s0.drop_first());
            }
        }
        self.items.push(p);
        proof {
            if s0.len() >= old(self).capacity {
                assert(self.items@ =~= s0.drop_first().push(p));
            }
        }
    }

    /// Whether `p` is inside the anti-repeat window.
    pub fn contains(&self, p: TilePos) -> (r: bool)
        ensures
            r == self.items@.contains(p),
    {
        let mut i: usize = 0;
        while i < self.items.len()
            invariant
                i <= self.items@.len(),
                forall|j: int| 0 <= j < i ==> self.items@[j] != p,
            decreases self.items@.len() - i,
        {
            let q = self.items[i];
            if q.0 == p.0 && q.1 == p.1 && q.2 == p.2 {
                proof {
                    assert(self.items@[i as int] == p);
                }
                return true;
            }
            i = i + 1;
        }
        false
    }
}

} // verus!
