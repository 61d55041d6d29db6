//! The pipeline registry.
//!
//! Compiled device pipelines are memoized by (kernel, output format,
//! input count).  On a kernel hot-reload the caller recompiles and offers
//! the new pipeline; a failed recompile offers nothing and the stale
//! pipeline is silently kept, so one bad edit never stalls the run.

use vstd::prelude::*;

verus! {

/// What a pipeline is memoized by.
#[derive(Clone, Copy, Debug, PartialEq, Eq, Structural)]
pub struct PipelineKey {
    pub kernel: u32,
    pub format: u32,
    pub inputs: u32,
}

/// An owning registry of compiled pipelines, identified by plain handles.
pub struct PipelineCache {
    pub entries: Vec<(PipelineKey, u64)>,
}

impl PipelineCache {
    /// Keys are memoized at most once.
    pub open spec fn well_formed(self) -> bool {
        forall|i: int, j: int|
            0 <= i < j < self.entries@.len() ==> (#[trigger] self.entries@[i]).0 != (
            #[trigger] self.entries@[j]).0
    }

    pub open spec fn has_key(self, key: PipelineKey) -> bool {
        exists|i: int| 0 <= i < self.entries@.len() && (#[trigger] self.entries@[i]).0 == key
    }

    pub fn new() -> (r: PipelineCache)
        ensures
            r.well_formed(),
            r.entries@ =~= Seq::<(PipelineKey, u64)>::empty(),
    {
        PipelineCache { entries: Vec::new() }
    }

    /// The memoized pipeline for a key, if one exists.
    pub fn lookup(&self, key: PipelineKey) -> (r: Option<u64>)
        requires
            self.well_formed(),
        ensures
            r is Some <==> self.has_key(key),
            r matches Some(id) ==> exists|i: int|
                0 <= i < self.entries@.len() && #[trigger] self.entries@[i] == (key, id),
    {
        let mut i: usize = 0;
        while i < self.entries.len()
            invariant
                i <= self.entries@.len(),
                forall|j: int| 0 <= j < i ==> (#[trigger] self.entries@[j]).0 != key,
            decreases self.entries@.len() - i,
        {
            let (k, id) = self.entries[i];
            if k.kernel == key.kernel && k.format == key.format && k.inputs == key.inputs {
                proof {
                    assert(self.entries@[i as int] == (key, id));
                }
                return Some(id);
            }
            i = i + 1;
        }
        None
    }

    /// Memoize a freshly compiled pipeline under a new key.
    pub fn install(&mut self, key: PipelineKey, id: u64)
        requires
            old(self).well_formed(),
            !old(self).has_key(key),
        ensures
            final(self).well_formed(),
            final(self).entries@ == old(self).entries@.push((key, id)),
            final(self).has_key(key),
    {
        self.entries.push((key, id));
        proof {
            assert(self.entries@.last() == (key, id));
            assert(self.entries@[self.entries@.len() - 1].0 == key);
            assert forall|i: int, j: int|
                0 <= i < j < self.entries@.len() implies (#[trigger] self.entries@[i]).0 != (
                #[trigger] self.entries@[j]).0 by {
                if j == self.entries@.len() - 1 {
                    if self.entries@[i].0 == key {
                        assert(old(self).entries@[i].0 == key);
                    }
                }
            }
        }
    }

    /// Hot-reload: replace the memoized pipeline where a recompile
    /// succeeded; keep the stale pipeline where it did not.
    pub fn refresh(&mut self, key: PipelineKey, recompiled: Option<u64>)
        requires
            old(self).well_formed(),
        ensures
            final(self).well_formed(),
            recompiled is None ==> final(self).entries@ == old(self).entries@,
            recompiled matches Some(id) ==> ({
                if exists|i: int|
                    0 <= i < old(self).entries@.len() && (#[trigger] old(self).entries@[i]).0
                        == key {
                    let i = choose|i: int|
                        0 <= i < old(self).entries@.len() && (#[trigger] old(
                            self,
                        ).entries@[i]).0 == key;
                    final(self).entries@ == old(self).entries@.update(i, (key, id))
                } else {
                    final(self).entries@ == old(self).entries@
                }
            }),
    {
        match recompiled {
            None => {},
            Some(id) => {
                let ghost s0 = self.entries@;
                let n = self.entries.len();
                let mut i: usize = 0;
                while i < n
                    invariant
                        recompiled == Some(id),
                        s0 == old(self).entries@,
                        self.entries@ == s0,
                        n == s0.len(),
                        i <= n,
                        forall|j: int, l: int|
                            0 <= j < l < s0.len() ==> (#[trigger] s0[j]).0 != (
                            #[trigger] s0[l]).0,
                        forall|j: int| 0 <= j < i ==> (#[trigger] s0[j]).0 != key,
                    decreases n - i,
                {
                    let (k, _) = self.entries[i];
                    if k.kernel == key.kernel && k.format == key.format && k.inputs
                        == key.inputs {
                        self.entries.set(i, (key, id));
                        proof {
                            let w = choose|w: int| 0 <= w < s0.len() && (#[trigger] s0[w]).0
                                == key;
                            assert(w == i) by {
                                if w < i {
                                    assert(s0[w].0 != key);
                                }
                                if w > i {
                                    assert(s0[i as int].0 != s0[w].0);
                                }
                            }
                            assert forall|a: int, b: int|
                                0 <= a < b < self.entries@.len() implies (
                            #[trigger] self.entries@[a]).0 != (#[trigger] self.entries@[b]).0 by {
                                assert(s0[a].0 != s0[b].0);
                            }
                        }
                        return ;
                    }
                    i = i + 1;
                }
            },
        }
    }
}

} // verus!
