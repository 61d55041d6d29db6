//! The staging-buffer pool and the bounded in-flight window.
//!
//! Score outputs are copied device-to-host through a fixed set of staging
//! buffers, identified here by index.  A buffer leaves the free list when a
//! batch is dispatched and returns exactly once, when its harvest
//! completes.  The window bounds how many batches may be in flight at once,
//! so demand on the pool stays below the provisioned supply; an exhausted
//! pool is a mis-tuned configuration and is reported as a fatal error
//! rather than over-allocating.

use vstd::prelude::*;

verus! {

/// Demand exceeded the provisioned buffers: a fatal configuration error.
#[derive(Clone, Copy, Debug, PartialEq, Eq, Structural)]
pub struct PoolExhausted;

/// The pool of pre-allocated staging buffers, tracked by index.
pub struct BufferPool {
    pub capacity: usize,
    pub free: Vec<usize>,
}

impl BufferPool {
    pub open spec fn well_formed(self) -> bool {
        &&& self.free@.len() <= self.capacity
        &&& forall|i: int| 0 <= i < self.free@.len() ==> self.free@[i] < self.capacity
        &&& forall|i: int, j: int|
            0 <= i < j < self.free@.len() ==> self.free@[i] != self.free@[j]
    }

    /// Buffers currently checked out.
    pub open spec fn checked_out(self) -> int {
        self.capacity - self.free@.len()
    }

    /// LAW (backpressure bound): however the pool is used through `acquire`
    /// and `release`, the number of checked-out buffers never exceeds the
    /// provisioned capacity.
    pub proof fn lemma_checked_out_bounded(self)
        requires
            self.well_formed(),
        ensures
            0 <= self.checked_out() <= self.capacity,
    {
    }

    /// Provision `capacity` buffers, all free.
    pub fn new(capacity: usize) -> (r: BufferPool)
        ensures
            r.well_formed(),
            r.capacity == capacity,
            r.free@.len() == capacity,
            r.checked_out() == 0,
    {
        let mut free: Vec<usize> = Vec::new();
        let mut i: usize = 0;
        while i < capacity
            invariant
                i <= capacity,
                free@.len() == i,
                forall|j: int| 0 <= j < i ==> free@[j] == j,
            decreases capacity - i,
        {
            free.push(i);
            i = i + 1;
        }
        BufferPool { capacity, free }
    }

    /// Check one buffer out, or report exhaustion.
    pub fn acquire(&mut self) -> (r: Result<usize, PoolExhausted>)
        requires
            old(self).well_formed(),
        ensures
            final(self).well_formed(),
            final(self).capacity == old(self).capacity,
            r matches Ok(id) ==> {
                &&& id < old(self).capacity
                &&& id == old(self).free@.last()
                &&& old(self).free@.contains(id)
                &&& final(self).free@ == old(self).free@.drop_last()
                &&& !final(self).free@.contains(id)
                &&& final(self).checked_out() == old(self).checked_out() + 1
            },
            r is Err <==> old(self).free@.len() == 0,
            r is Err ==> final(self).free@ == old(self).free@,
    {
        match self.free.pop() {
            Some(id) => {
                proof {
                    assert(old(self).free@[old(self).free@.len() - 1] == id);
                }
                Ok(id)
            },
            None => Err(PoolExhausted),
        }
    }

    /// Return a checked-out buffer to the free list.  A buffer id may come
    /// back only while it is checked out: exactly once per acquisition.
    pub fn release(&mut self, id: usize)
        requires
            old(self).well_formed(),
            old(self).checked_out() > 0,
            id < old(self).capacity,
            !old(self).free@.contains(id),
        ensures
            final(self).well_formed(),
            final(self).capacity == old(self).capacity,
            final(self).free@ == old(self).free@.push(id),
            final(self).checked_out() == old(self).checked_out() - 1,
    {
        self.free.push(id);
        proof {
            assert forall|i: int, j: int|
                0 <= i < j < self.free@.len() implies self.free@[i] != self.free@[j] by {
                if j == self.free@.len() - 1 {
                    assert(old(self).free@.contains(old(self).free@[i])) by {
                        assert(old(self).free@[i] == self.free@[i]);
                    }
                }
            }
        }
    }
}

/// The bounded in-flight window: batch handles whose device work has been
/// submitted but not yet drained.  Submitting when the window is full hands
/// back the oldest handle, which the caller must wait on before going on.
pub struct InFlightWindow {
    pub limit: usize,
    pub pending: Vec<u64>,
}

impl InFlightWindow {
    pub open spec fn well_formed(self) -> bool {
        &&& self.limit >= 1
        &&& self.pending@.len() < self.limit
    }

    pub fn new(limit: usize) -> (r: InFlightWindow)
        requires
            limit >= 1,
        ensures
            r.well_formed(),
            r.limit == limit,
            r.pending@ =~= Seq::<u64>::empty(),
    {
        InFlightWindow { limit, pending: Vec::new() }
    }

    /// Record one submitted batch.  When the window is full, the oldest
    /// outstanding batch is handed back: the caller blocks on it before
    /// dispatching more work, which caps memory and result latency.
    pub fn note_dispatched(&mut self, batch: u64) -> (wait_for: Option<u64>)
        requires
            old(self).well_formed(),
        ensures
            final(self).well_formed(),
            final(self).limit == old(self).limit,
            wait_for matches Some(b) ==> {
                &&& old(self).pending@.len() == old(self).limit - 1
                &&& b == old(self).pending@.push(batch)[0]
                &&& final(self).pending@ == old(self).pending@.push(batch).drop_first()
            },
            wait_for is None ==> {
                &&& old(self).pending@.len() < old(self).limit - 1
                &&& final(self).pending@ == old(self).pending@.push(batch)
            },
    {
        self.pending.push(batch);
        if self.pending.len() >= self.limit {
            let oldest = self.pending.remove(0);
            proof {
                assert(self.pending@ =~= old(self).pending@.push(batch).drop_first());
            }
            Some(oldest)
        } else {
            None
        }
    }

    /// Hand out every outstanding batch, oldest first, to be drained before
    /// the frame's results are read.
    pub fn drain(&mut self) -> (r: Vec<u64>)
        requires
            old(self).well_formed(),
        ensures
            final(self).well_formed(),
            final(self).limit == old(self).limit,
            final(self).pending@ =~= Seq::<u64>::empty(),
            r@ == old(self).pending@,
    {
        let mut out: Vec<u64> = Vec::new();
        std::mem::swap(&mut out, &mut self.pending);
        out
    }
}

} // verus!
