use vstd::prelude::*;

use super::{Run, RUN_SIZE};

verus! {

/// One-entry payload-range cache. Own-heap runs only; extents are never stored.
///
/// Empty is `base == usize::MAX`. A pointer rounded down to a run is a multiple of
/// `RUN_SIZE`, never `MAX`, so an empty cache cannot hit.
pub struct RunCache {
    pub base: usize,
    pub run: u32,
}

/// `addr` rounded down to the start of a payload.
pub open spec fn payload_base(addr: int) -> int {
    addr - addr % 65536
}

impl RunCache {
    /// The base that is stored, if one is.
    pub open spec fn stored(self) -> Option<(usize, u32)> {
        if self.base == usize::MAX {
            None
        } else {
            Some((self.base, self.run))
        }
    }

    pub open spec fn wf(self) -> bool {
        self.base == usize::MAX || self.base % RUN_SIZE == 0
    }

    pub fn new() -> (cache: Self)
        ensures
            cache.wf(),
            cache.stored() is None,
    {
        Self { base: usize::MAX, run: 0 }
    }

    /// The stored run, when `ptr` lies in its payload range.
    pub fn hit(&self, ptr: usize) -> (run: Option<u32>)
        requires
            self.wf(),
        ensures
            match self.stored() {
                Some(entry) => run == if payload_base(ptr as int) == entry.0 {
                    Some(entry.1)
                } else {
                    None
                },
                None => run is None,
            },
    {
        if ptr - ptr % RUN_SIZE != self.base {
            return None;
        }
        Some(self.run)
    }

    /// Remember a run's payload range. The caller checked that it is an own-heap run.
    pub fn store(&mut self, run: &Run)
        requires
            run.shape_wf(),
        ensures
            final(self).wf(),
            final(self).stored() == Some((run.base, run.id.spec_index() as u32)),
    {
        self.run = run.id().index();
        self.base = run.range().base();
    }

    pub fn clear(&mut self)
        ensures
            final(self).wf(),
            final(self).stored() is None,
    {
        self.base = usize::MAX;
        self.run = 0;
    }
}

/// A stored run is hit by every pointer into its payload and by no other.
pub proof fn law_store_then_hit(run: Run, ptr: usize)
    requires
        run.shape_wf(),
    ensures
        (payload_base(ptr as int) == run.base) == run.spec_range().has(ptr as int),
{
}

} // verus!
