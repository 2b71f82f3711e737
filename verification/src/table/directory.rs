//! All heap slots: a thread takes one, gives it back, and finds others by id.

use vstd::prelude::*;

use crate::config::AllocatorConfig;
use crate::heap::error::HeapError;
use crate::heap::id::HeapId;
use crate::table::slot::{HeapSlot, SlotHeap};
use crate::table::state::{bumped, HeapMode, SlotStateSnapshot};

verus! {

pub const MAX_HEAPS: usize = 64;

/// All heap slots.
pub struct HeapDirectory {
    pub slots: Vec<HeapSlot>,
    pub config: AllocatorConfig,
}

impl HeapDirectory {
    pub open spec fn wf(self) -> bool {
        &&& self.slots@.len() <= MAX_HEAPS
        &&& forall|i: int| 0 <= i < self.slots@.len() ==> (#[trigger] self.slots@[i]).wf()
    }

    /// `id` names a slot and its present generation.
    pub open spec fn names(self, id: HeapId) -> bool {
        0 < id.slot <= self.slots@.len() && self.slots@[id.spec_index()].state@.is(id)
    }

    /// The first slot at or behind `from` that a thread can take over.
    pub open spec fn free_from(self, from: int) -> int
        decreases self.slots@.len() - from,
    {
        if from >= self.slots@.len() {
            from
        } else {
            let snap = self.slots@[from].state@;
            if !snap.retired && snap.mode == HeapMode::Free && snap.publishers == 0 {
                from
            } else {
                self.free_from(from + 1)
            }
        }
    }

    /// Every slot but `index` is as in `before`.
    pub open spec fn others_same(self, before: HeapDirectory, index: int) -> bool {
        &&& self.config == before.config
        &&& self.slots@.len() == before.slots@.len()
        &&& forall|i: int|
            0 <= i < self.slots@.len() && i != index ==> (#[trigger] self.slots@[i])
                == before.slots@[i]
    }

    /// Every slot has the heap and the inboxes it had.
    pub open spec fn parts_same(self, before: HeapDirectory) -> bool {
        &&& self.config == before.config
        &&& self.slots@.len() == before.slots@.len()
        &&& forall|i: int|
            0 <= i < self.slots@.len() ==> (#[trigger] self.slots@[i]) == (HeapSlot {
                state: self.slots@[i].state,
                ..before.slots@[i]
            })
    }

    pub fn new(config: AllocatorConfig) -> (directory: Self)
        ensures
            directory.wf(),
            directory.slots@.len() == 0,
            directory.config == config,
    {
        Self { slots: Vec::new(), config }
    }

    /// Take a slot: the first that was given back, or a new one.
    pub fn acquire(&mut self) -> (id: Option<HeapId>)
        requires
            old(self).wf(),
        ensures
            final(self).wf(),
            id is Some == (old(self).free_from(0) < MAX_HEAPS),
            match id {
                Some(id) => {
                    let at = old(self).free_from(0);
                    &&& id.wf()
                    &&& id.spec_index() == at
                    &&& final(self).names(id)
                    &&& final(self).slots@[at].state@ == (SlotStateSnapshot {
                        generation: id.generation,
                        mode: HeapMode::Active,
                        retired: false,
                        publishers: 0,
                    })
                    &&& final(self).slots@[at].heap.id == id
                    &&& at < old(self).slots@.len() ==> final(self).others_same(*old(self), at)
                        && id.generation == old(self).slots@[at].state@.generation
                        && final(self).slots@[at] == (HeapSlot {
                        state: final(self).slots@[at].state,
                        heap: SlotHeap { id, ..old(self).slots@[at].heap },
                        ..old(self).slots@[at]
                    })
                    &&& final(self).config == old(self).config
                    &&& at == old(self).slots@.len() ==> final(self).slots@[at].heap.configured(
                        old(self).config,
                    )
                    &&& at == old(self).slots@.len() ==> id.generation == 1 && final(self).slots@
                        == old(self).slots@.push(final(self).slots@[at]) && final(self).slots@[at].idle()
                },
                None => *final(self) == *old(self),
            },
    {
        let ghost before = *self;
        let mut at: usize = 0;
        while at < self.slots.len()
            invariant
                at <= self.slots@.len() <= MAX_HEAPS,
                self.wf(),
                *self == before,
                before == *old(self),
                self.free_from(0) == self.free_from(at as int),
            decreases self.slots@.len() - at,
        {
            if self.slots[at].state.is_free() {
                let generation: u32 = self.slots[at].state.load().generation;
                let id = HeapId::from_slot(at as u32 + 1, generation);
                self.slots[at].reactivate(id);
                proof {
                    assert forall|i: int| 0 <= i < self.slots@.len() implies (
                    #[trigger] self.slots@[i]).wf() by {
                        if i != at {
                            assert(self.slots@[i] == before.slots@[i]);
                        }
                    }
                }
                return Some(id);
            }
            at = at + 1;
        }
        if at >= MAX_HEAPS {
            return None;
        }
        let id = HeapId::from_slot(at as u32 + 1, 1);
        let slot = HeapSlot::new(id, self.config);
        self.slots.push(slot);
        proof {
            assert forall|i: int| 0 <= i < self.slots@.len() implies (
            #[trigger] self.slots@[i]).wf() by {
                if i < at {
                    assert(self.slots@[i] == before.slots@[i]);
                }
            }
        }
        Some(id)
    }

    /// Where the slot of `id` stands.
    pub fn find(&self, id: HeapId) -> (index: Option<usize>)
        requires
            self.wf(),
        ensures
            match index {
                Some(index) => self.names(id) && index == id.spec_index(),
                None => !self.names(id),
            },
    {
        if id.slot == 0 || id.slot as usize > self.slots.len() {
            return None;
        }
        let index: usize = id.slot as usize - 1;
        if self.slots[index].state.matches(id) {
            Some(index)
        } else {
            None
        }
    }

    /// The slot of `id`.
    pub fn slot(&self, id: HeapId) -> (slot: Option<&HeapSlot>)
        requires
            self.wf(),
        ensures
            match slot {
                Some(slot) => self.names(id) && *slot == self.slots@[id.spec_index()],
                None => !self.names(id),
            },
    {
        match self.find(id) {
            Some(index) => Some(&self.slots[index]),
            None => None,
        }
    }

    /// Where the slot of `id` stands, while it drains.
    pub fn lock(&self, id: HeapId) -> (index: Result<usize, HeapError>)
        requires
            self.wf(),
        ensures
            match index {
                Ok(index) => self.names(id) && index == id.spec_index()
                    && self.slots@[id.spec_index()].state@.mode == HeapMode::Draining,
                Err(error) => error == HeapError::InvalidHeap && !(self.names(id)
                    && self.slots@[id.spec_index()].state@.mode == HeapMode::Draining),
            },
    {
        match self.find(id) {
            Some(index) => {
                if self.slots[index].state.mode() != HeapMode::Draining {
                    return Err(HeapError::InvalidHeap);
                }
                Ok(index)
            },
            None => Err(HeapError::InvalidHeap),
        }
    }

    /// First step of giving a slot back: no more publishers are admitted.
    pub fn close(&mut self, id: HeapId) -> (closed: Result<(), HeapError>)
        requires
            old(self).wf(),
        ensures
            final(self).wf(),
            final(self).slots@.len() == old(self).slots@.len(),
            closed == if old(self).names(id) && old(self).slots@[id.spec_index()].state@.mode
                != HeapMode::Free {
                Ok::<(), HeapError>(())
            } else {
                Err::<(), HeapError>(HeapError::InvalidHeap)
            },
            closed is Ok ==> final(self).others_same(*old(self), id.spec_index()) && final(self).names(id) && final(self).slots@[id.spec_index()].state@ == (SlotStateSnapshot {
                mode: HeapMode::Draining,
                ..old(self).slots@[id.spec_index()].state@
            }) && final(self).slots@[id.spec_index()] == (HeapSlot {
                state: final(self).slots@[id.spec_index()].state,
                ..old(self).slots@[id.spec_index()]
            }),
            closed is Err ==> forall|i: int|
                0 <= i < old(self).slots@.len() ==> (#[trigger] final(self).slots@[i]).state@
                    == old(self).slots@[i].state@,
            final(self).parts_same(*old(self)),
    {
        let ghost before = *self;
        match self.find(id) {
            Some(index) => {
                let closed = self.slots[index].state.close_active(id);
                proof {
                    assert forall|i: int| 0 <= i < self.slots@.len() implies (
                    #[trigger] self.slots@[i]).wf() by {
                        if i != index {
                            assert(self.slots@[i] == before.slots@[i]);
                        }
                    }
                }
                closed
            },
            None => Err(HeapError::InvalidHeap),
        }
    }

    /// Publishers that the slot of `id` still waits for.
    pub fn publishers(&self, id: HeapId) -> (count: u32)
        requires
            self.wf(),
        ensures
            count == if self.names(id) {
                self.slots@[id.spec_index()].state@.publishers
            } else {
                0
            },
    {
        match self.find(id) {
            Some(index) => self.slots[index].state.publishers(),
            None => 0,
        }
    }

    /// Last step of giving a slot back: free it when it drains and is idle.
    pub fn finish(&mut self, id: HeapId) -> (freed: bool)
        requires
            old(self).wf(),
        ensures
            final(self).wf(),
            final(self).slots@.len() == old(self).slots@.len(),
            freed == (old(self).names(id) && old(self).slots@[id.spec_index()].state@.mode
                == HeapMode::Draining && old(self).slots@[id.spec_index()].idle()),
            freed ==> final(self).others_same(*old(self), id.spec_index()) && final(self).slots@[id.spec_index()].state@ == bumped(old(self).slots@[id.spec_index()].state@)
                && !final(self).names(id),
            !freed ==> forall|i: int|
                0 <= i < old(self).slots@.len() ==> (#[trigger] final(self).slots@[i]).state@
                    == old(self).slots@[i].state@,
            final(self).parts_same(*old(self)),
    {
        let ghost before = *self;
        match self.lock(id) {
            Ok(index) => {
                let freed = self.slots[index].try_reclaim();
                proof {
                    assert forall|i: int| 0 <= i < self.slots@.len() implies (
                    #[trigger] self.slots@[i]).wf() by {
                        if i != index {
                            assert(self.slots@[i] == before.slots@[i]);
                        }
                    }
                }
                freed
            },
            Err(_) => false,
        }
    }

    /// Give an idle slot back. Its id names nothing afterwards.
    pub fn retire(&mut self, id: HeapId) -> (retired: Result<(), HeapError>)
        requires
            old(self).wf(),
            old(self).names(id) ==> old(self).slots@[id.spec_index()].state@.publishers == 0,
        ensures
            final(self).wf(),
            retired == if old(self).names(id) && old(self).slots@[id.spec_index()].state@.mode
                != HeapMode::Free {
                Ok::<(), HeapError>(())
            } else {
                Err::<(), HeapError>(HeapError::InvalidHeap)
            },
            retired is Ok && old(self).slots@[id.spec_index()].idle() ==> !final(self).names(id)
                && final(self).slots@[id.spec_index()].state@ == bumped(
                old(self).slots@[id.spec_index()].state@,
            ),
            retired is Ok && !old(self).slots@[id.spec_index()].idle() ==> final(self).names(id)
                && final(self).slots@[id.spec_index()].state@.mode == HeapMode::Draining,
            forall|i: int|
                0 <= i < old(self).slots@.len() && i != id.spec_index() ==> (
                #[trigger] final(self).slots@[i]).state@ == old(self).slots@[i].state@,
            final(self).parts_same(*old(self)),
            retired is Err && old(self).names(id) ==> final(self).slots@[id.spec_index()].state@
                == old(self).slots@[id.spec_index()].state@,
    {
        match self.close(id) {
            Ok(()) => {},
            Err(error) => return Err(error),
        }
        assert(self.slots@[id.spec_index()].state@.mode == HeapMode::Draining);
        let _freed = self.finish(id);
        Ok(())
    }
}

/// A slot that is taken over after it was given back has a new id.
pub proof fn law_stale_ids_stay_stale(snap: SlotStateSnapshot, id: HeapId, next: HeapId)
    requires
        snap.wf(),
        snap.is(id),
        next.slot == id.slot,
        next.generation == bumped(snap).generation,
        !bumped(snap).retired,
    ensures
        next != id,
{
}

} // verus!
