//! Frees for another heap, gathered before they are published.

use vstd::prelude::*;

use crate::heap::id::HeapId;

verus! {

pub const REMOTE_BATCH_CAPACITY: u32 = 32;

/// Blocks for one inbox, in the order in which they were freed.
pub struct RemoteList {
    pub first: usize,
    pub last: usize,
    pub nodes: Vec<usize>,
}

impl RemoteList {
    /// The ends are those of the blocks.
    pub open spec fn wf(self) -> bool {
        self.nodes@.len() > 0 && self.first == self.nodes@[0] && self.last == self.nodes@.last()
    }
}

/// Frees that are gathered for one heap.
pub struct RemoteBatch {
    pub target: Option<HeapId>,
    pub nodes: Vec<usize>,
}

impl RemoteBatch {
    /// A target is named exactly when something is gathered, and a full batch is never kept.
    pub open spec fn wf(self) -> bool {
        &&& self.target is Some <==> self.nodes@.len() > 0
        &&& self.nodes@.len() < REMOTE_BATCH_CAPACITY
    }

    pub fn new() -> (batch: Self)
        ensures
            batch.wf(),
            batch.nodes@.len() == 0,
            batch.target is None,
    {
        Self { target: None, nodes: Vec::new() }
    }

    pub fn is_empty(&self) -> (empty: bool)
        ensures
            empty == (self.nodes@.len() == 0),
    {
        self.nodes.len() == 0
    }

    /// What must be published when `ptr` is freed for `target`: the blocks of another
    /// target, or a batch that is now full.
    pub open spec fn due(self, target: HeapId, ptr: usize) -> Option<(HeapId, Seq<usize>)> {
        if self.target is Some && self.target != Some(target) {
            Some((self.target->0, self.nodes@))
        } else if self.nodes@.len() + 1 >= REMOTE_BATCH_CAPACITY {
            Some((target, self.nodes@.push(ptr)))
        } else {
            None
        }
    }

    /// What stays gathered when `ptr` is freed for `target`.
    pub open spec fn kept(self, target: HeapId, ptr: usize) -> Seq<usize> {
        if self.target is Some && self.target != Some(target) {
            seq![ptr]
        } else if self.nodes@.len() + 1 >= REMOTE_BATCH_CAPACITY {
            Seq::empty()
        } else {
            self.nodes@.push(ptr)
        }
    }

    /// Gather `ptr` for `target`.
    pub fn append(&mut self, target: HeapId, ptr: usize) -> (due: Option<(HeapId, RemoteList)>)
        requires
            old(self).wf(),
        ensures
            final(self).wf(),
            final(self).nodes@ == old(self).kept(target, ptr),
            final(self).nodes@.len() > 0 ==> final(self).target == Some(target),
            match due {
                Some((id, list)) => list.wf() && old(self).due(target, ptr) == Some(
                    (id, list.nodes@),
                ),
                None => old(self).due(target, ptr) is None,
            },
    {
        let changed = match self.target {
            Some(current) => current != target,
            None => false,
        };
        if changed {
            let pending = self.take();
            self.target = Some(target);
            self.nodes.push(ptr);
            assert(self.nodes@ =~= seq![ptr]);
            return pending;
        }
        self.target = Some(target);
        self.nodes.push(ptr);
        if self.nodes.len() as u64 >= REMOTE_BATCH_CAPACITY as u64 {
            return self.take();
        }
        None
    }

    /// Take what is gathered.
    pub fn take(&mut self) -> (taken: Option<(HeapId, RemoteList)>)
        requires
            old(self).target is Some <==> old(self).nodes@.len() > 0,
        ensures
            final(self).wf(),
            final(self).nodes@ == Seq::<usize>::empty(),
            match taken {
                Some((id, list)) => list.wf() && old(self).target == Some(id) && list.nodes@
                    == old(self).nodes@,
                None => old(self).nodes@.len() == 0,
            },
    {
        let target = match self.target {
            Some(target) => target,
            None => {
                assert(self.nodes@ =~= Seq::<usize>::empty());
                return None;
            },
        };
        let mut nodes: Vec<usize> = Vec::new();
        std::mem::swap(&mut nodes, &mut self.nodes);
        self.target = None;
        let first: usize = nodes[0];
        let last: usize = nodes[nodes.len() - 1];
        Some((target, RemoteList { first, last, nodes }))
    }
}

/// No free is lost: what is due and what stays are what was gathered and the new block.
pub proof fn law_batch_loses_nothing(batch: RemoteBatch, target: HeapId, ptr: usize)
    requires
        batch.wf(),
    ensures
        match batch.due(target, ptr) {
            Some((_, list)) => list + batch.kept(target, ptr) == batch.nodes@.push(ptr),
            None => batch.kept(target, ptr) == batch.nodes@.push(ptr),
        },
{
    if let Some((_, list)) = batch.due(target, ptr) {
        assert(list + batch.kept(target, ptr) =~= batch.nodes@.push(ptr));
    }
}

} // verus!
