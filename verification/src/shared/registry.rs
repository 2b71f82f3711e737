//! Heaps of threads: the runs that each owns, and a bounded queue of blocks that other
//! threads freed.

use vstd::prelude::*;

use crate::heap::id::HeapId;

verus! {

/// Frees that may wait for one heap.
pub const REMOTE_CAPACITY: usize = 16;

pub const MAX_HEAPS: usize = 64;

/// A block that another thread freed.
#[derive(Clone, Copy, Debug, PartialEq, Eq, Structural)]
pub struct RemoteFree {
    pub run: usize,
    pub ptr: usize,
}

/// The heap of a thread.
pub struct LocalHeap {
    pub generation: u32,
    pub active: bool,
    /// All generations are used up: no thread gets this slot again.
    pub retired: bool,
    pub runs: Vec<usize>,
    pub queue: Vec<RemoteFree>,
}

/// Heaps by slot.
pub struct HeapRegistry {
    pub heaps: Vec<LocalHeap>,
}

impl HeapRegistry {
    pub open spec fn wf(self) -> bool {
        &&& self.heaps@.len() <= MAX_HEAPS
        &&& forall|i: int|
            0 <= i < self.heaps@.len() ==> (#[trigger] self.heaps@[i]).generation > 0
                && self.heaps@[i].queue@.len() <= REMOTE_CAPACITY && (!self.heaps@[i].active
                ==> self.heaps@[i].queue@.len() == 0) && (self.heaps@[i].retired
                ==> !self.heaps@[i].active)
    }

    /// `id` names a heap that a thread holds.
    pub open spec fn active(self, id: HeapId) -> bool {
        &&& 0 < id.slot <= self.heaps@.len()
        &&& self.heaps@[id.spec_index()].active
        &&& self.heaps@[id.spec_index()].generation == id.generation
    }

    /// What waits for `id`.
    pub open spec fn queue(self, id: HeapId) -> Seq<RemoteFree> {
        if self.active(id) {
            self.heaps@[id.spec_index()].queue@
        } else {
            Seq::empty()
        }
    }

    /// Every heap but the one in slot `index` is as in `before`.
    pub open spec fn others_same(self, before: HeapRegistry, index: int) -> bool {
        &&& self.heaps@.len() == before.heaps@.len()
        &&& forall|i: int|
            #![trigger self.heaps@[i]]
            #![trigger before.heaps@[i]]
            0 <= i < self.heaps@.len() && i != index ==> self.heaps@[i] == before.heaps@[i]
    }

    pub fn new() -> (registry: Self)
        ensures
            registry.wf(),
            registry.heaps@.len() == 0,
    {
        Self { heaps: Vec::new() }
    }

    /// Slot of a heap that a thread holds.
    fn find(&self, id: HeapId) -> (index: Option<usize>)
        requires
            self.wf(),
        ensures
            match index {
                Some(index) => self.active(id) && index == id.spec_index(),
                None => !self.active(id),
            },
    {
        if id.slot == 0 || id.slot as usize > self.heaps.len() {
            return None;
        }
        let index: usize = id.slot as usize - 1;
        if self.heaps[index].active && self.heaps[index].generation == id.generation {
            Some(index)
        } else {
            None
        }
    }

    /// The first slot at or behind `from` that no thread holds.
    pub open spec fn idle_from(self, from: int) -> int
        decreases self.heaps@.len() - from,
    {
        if from >= self.heaps@.len() || (!self.heaps@[from].active && !self.heaps@[from].retired) {
            from
        } else {
            self.idle_from(from + 1)
        }
    }

    /// Hand a heap to a thread: a slot that was given back, or a new one.
    pub fn acquire(&mut self) -> (id: Option<HeapId>)
        requires
            old(self).wf(),
        ensures
            final(self).wf(),
            id is Some == (old(self).idle_from(0) < MAX_HEAPS),
            match id {
                Some(id) => id.wf() && final(self).active(id) && !old(self).active(id)
                    && final(self).queue(id).len() == 0 && id.spec_index() == old(self).idle_from(0)
                    && final(self).heaps@[id.spec_index()].runs@.len() == 0 && id.generation == (
                if id.spec_index() < old(self).heaps@.len() {
                    old(self).heaps@[id.spec_index()].generation
                } else {
                    1
                }) && final(self).heaps@.len() == if id.spec_index() < old(self).heaps@.len() {
                    old(self).heaps@.len()
                } else {
                    old(self).heaps@.len() + 1
                } && forall|i: int|
                    #![trigger final(self).heaps@[i]]
                    0 <= i < old(self).heaps@.len() && i != id.spec_index()
                        ==> final(self).heaps@[i] == old(self).heaps@[i],
                None => *final(self) == *old(self),
            },
    {
        let mut at: usize = 0;
        while at < self.heaps.len() && (self.heaps[at].active || self.heaps[at].retired)
            invariant
                at <= self.heaps@.len() <= MAX_HEAPS,
                *self == *old(self),
                self.wf(),
                self.idle_from(0) == self.idle_from(at as int),
            decreases self.heaps@.len() - at,
        {
            at = at + 1;
        }
        if at < self.heaps.len() {
            let generation: u32 = self.heaps[at].generation;
            self.heaps.set(
                at,
                LocalHeap {
                    generation,
                    active: true,
                    retired: false,
                    runs: Vec::new(),
                    queue: Vec::new(),
                },
            );
            return Some(HeapId::from_slot(at as u32 + 1, generation));
        }
        if at >= MAX_HEAPS {
            return None;
        }
        self.heaps.push(
            LocalHeap {
                generation: 1,
                active: true,
                retired: false,
                runs: Vec::new(),
                queue: Vec::new(),
            },
        );
        Some(HeapId::from_slot(at as u32 + 1, 1))
    }

    /// Note that a heap owns a run. Whether the heap is held.
    pub fn attach_run(&mut self, id: HeapId, run: usize) -> (attached: bool)
        requires
            old(self).wf(),
        ensures
            final(self).wf(),
            attached == old(self).active(id),
            attached ==> final(self).others_same(*old(self), id.spec_index())
                && final(self).active(id) && final(self).queue(id) == old(self).queue(id)
                && final(self).heaps@[id.spec_index()].runs@
                == old(self).heaps@[id.spec_index()].runs@.push(run),
            !attached ==> *final(self) == *old(self),
    {
        match self.find(id) {
            Some(index) => {
                let ghost before = *self;
                self.heaps[index].runs.push(run);
                proof {
                    assert forall|i: int| 0 <= i < self.heaps@.len() && i != index implies (
                    #[trigger] self.heaps@[i]) == before.heaps@[i] by {}
                }
                true
            },
            None => false,
        }
    }

    /// Whether a block waits for `id`.
    pub fn has_remote(&self, id: HeapId) -> (waits: bool)
        requires
            self.wf(),
        ensures
            waits == (self.queue(id).len() > 0),
    {
        match self.find(id) {
            Some(index) => self.heaps[index].queue.len() > 0,
            None => false,
        }
    }

    /// Take the block that waits longest.
    pub fn pop_remote(&mut self, id: HeapId) -> (free: Option<RemoteFree>)
        requires
            old(self).wf(),
        ensures
            final(self).wf(),
            free is Some == (old(self).queue(id).len() > 0),
            match free {
                Some(free) => free == old(self).queue(id)[0] && final(self).others_same(
                    *old(self),
                    id.spec_index(),
                ) && final(self).active(id) && final(self).queue(id) == old(self).queue(
                    id,
                ).drop_first() && final(self).heaps@[id.spec_index()].runs
                    == old(self).heaps@[id.spec_index()].runs,
                None => *final(self) == *old(self),
            },
    {
        match self.find(id) {
            Some(index) => {
                if self.heaps[index].queue.len() == 0 {
                    return None;
                }
                let ghost before = *self;
                let free: RemoteFree = self.heaps[index].queue.remove(0);
                proof {
                    assert(self.heaps@[index as int].queue@
                        =~= before.heaps@[index as int].queue@.drop_first());
                    assert forall|i: int| 0 <= i < self.heaps@.len() && i != index implies (
                    #[trigger] self.heaps@[i]) == before.heaps@[i] by {}
                }
                Some(free)
            },
            None => None,
        }
    }

    /// Put a block behind those that wait. It comes back when the queue is full or the heap
    /// is not held.
    pub fn enqueue_remote(&mut self, id: HeapId, free: RemoteFree) -> (queued: Result<
        (),
        RemoteFree,
    >)
        requires
            old(self).wf(),
        ensures
            final(self).wf(),
            queued == if old(self).active(id) && old(self).queue(id).len() < REMOTE_CAPACITY {
                Ok::<(), RemoteFree>(())
            } else {
                Err::<(), RemoteFree>(free)
            },
            queued is Ok ==> final(self).others_same(*old(self), id.spec_index())
                && final(self).active(id) && final(self).queue(id) == old(self).queue(id).push(
                free,
            ) && final(self).heaps@[id.spec_index()].runs
                == old(self).heaps@[id.spec_index()].runs,
            queued is Err ==> *final(self) == *old(self),
    {
        match self.find(id) {
            Some(index) => {
                if self.heaps[index].queue.len() >= REMOTE_CAPACITY {
                    return Err(free);
                }
                let ghost before = *self;
                self.heaps[index].queue.push(free);
                proof {
                    assert forall|i: int| 0 <= i < self.heaps@.len() && i != index implies (
                    #[trigger] self.heaps@[i]) == before.heaps@[i] by {}
                }
                Ok(())
            },
            None => Err(free),
        }
    }

    /// Give a heap back: the runs that it owned. Its id is never valid again.
    pub fn release(&mut self, id: HeapId) -> (runs: Vec<usize>)
        requires
            old(self).wf(),
            old(self).queue(id).len() == 0,
        ensures
            final(self).wf(),
            !final(self).active(id),
            old(self).active(id) ==> runs@ == old(self).heaps@[id.spec_index()].runs@
                && final(self).others_same(*old(self), id.spec_index())
                && final(self).heaps@[id.spec_index()].queue@.len() == 0
                && final(self).heaps@[id.spec_index()].runs@.len() == 0 && (
            final(self).heaps@[id.spec_index()].retired || final(self).heaps@[id.spec_index()].generation > id.generation) && (
            if id.generation < u32::MAX {
                !final(self).heaps@[id.spec_index()].retired && final(self).heaps@[id.spec_index()].generation == id.generation + 1
            } else {
                final(self).heaps@[id.spec_index()].retired
            }),
            !old(self).active(id) ==> runs@.len() == 0 && *final(self) == *old(self),
    {
        match self.find(id) {
            Some(index) => {
                let ghost before = *self;
                let mut runs: Vec<usize> = Vec::new();
                std::mem::swap(&mut runs, &mut self.heaps[index].runs);
                let generation: u32 = self.heaps[index].generation;
                self.heaps[index].active = false;
                if generation < u32::MAX {
                    self.heaps[index].generation = generation + 1;
                } else {
                    self.heaps[index].retired = true;
                }
                proof {
                    assert forall|i: int| 0 <= i < self.heaps@.len() && i != index implies (
                    #[trigger] self.heaps@[i]) == before.heaps@[i] by {}
                }
                runs
            },
            None => Vec::new(),
        }
    }
}

} // verus!
