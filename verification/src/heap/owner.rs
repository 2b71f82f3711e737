use vstd::prelude::*;

use crate::heap::id::HeapId;

verus! {

/// Ownership of an entity by the central heap or by one thread's heap.
#[derive(Clone, Copy, Debug, PartialEq, Eq, Structural)]
pub enum Owner {
    /// Owned by the central heap.
    Central,
    /// Owned by a specific thread-local heap.
    Thread(HeapId),
}

impl Owner {
    /// Central if `heap` is the root heap, that thread's otherwise.
    pub fn for_heap(heap: HeapId) -> (owner: Self)
        requires
            heap.wf(),
        ensures
            owner == if heap.spec_index() == 0 {
                Owner::Central
            } else {
                Owner::Thread(heap)
            },
    {
        if heap.is_root() {
            Owner::Central
        } else {
            Owner::Thread(heap)
        }
    }

    /// Whether this is the central owner.
    pub fn is_central(self) -> (central: bool)
        ensures
            central == (self == Owner::Central),
    {
        matches!(self, Owner::Central)
    }
}

} // verus!
