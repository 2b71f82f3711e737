//! One heap slot: lifecycle, inboxes, and the metadata of its runs and extents.

use vstd::prelude::*;

use crate::config::AllocatorConfig;
use crate::heap::error::HeapError;
use crate::heap::extent::heap::ExtentHeap;
use crate::heap::id::HeapId;
use crate::heap::inbox::Link;
use crate::heap::run::heap::RunHeap;
use crate::memory::PageOwner;
use crate::table::inbox::Inbox;
use crate::table::state::{bumped, HeapMode, SlotState, SlotStateSnapshot, MAX_PUBLISHERS};

verus! {

/// Runs and extents of one heap.
pub struct SlotHeap {
    pub id: HeapId,
    pub runs: RunHeap,
    pub extents: ExtentHeap,
}

impl SlotHeap {
    pub open spec fn wf(self) -> bool {
        self.runs.runs.wf() && self.extents.extents.wf()
    }

    /// A block is held or on its way back.
    pub open spec fn live(self) -> bool {
        ||| exists|slot: u32| #[trigger]
            self.runs.runs@.contains_key(slot) && self.runs.runs@[slot].live != 0
        ||| exists|slot: u32| #[trigger]
            self.extents.extents@.contains_key(slot) && self.extents.extents@[slot].live()
    }

    /// The heap goes by `config`.
    pub open spec fn configured(self, config: AllocatorConfig) -> bool {
        &&& self.runs.policy == config.run.policy
        &&& self.runs.hints == config.hints
        &&& self.extents.cache.config == config.extent
        &&& self.extents.hints == config.hints
    }

    fn new(id: HeapId, config: AllocatorConfig) -> (heap: Self)
        ensures
            heap.wf(),
            heap.id == id,
            !heap.live(),
            heap.configured(config),
    {
        let runs = RunHeap::new(config.run, config.hints);
        let extents = ExtentHeap::new(config.extent, config.hints);
        proof {
            assert(runs.wf(0));
            assert(extents.wf(0));
        }
        Self { id, runs, extents }
    }

    fn has_live(&self) -> (live: bool)
        requires
            self.wf(),
        ensures
            live == self.live(),
    {
        self.runs.has_live() || self.extents.has_live()
    }
}

/// One heap slot.
pub struct HeapSlot {
    pub state: SlotState,
    pub run_inbox: Inbox<u32>,
    pub extent_inbox: Inbox<u32>,
    pub heap: SlotHeap,
}

impl HeapSlot {
    pub open spec fn wf(self) -> bool {
        self.state.wf() && self.heap.wf()
    }

    /// Nothing is held, waits, or is being published.
    pub open spec fn idle(self) -> bool {
        &&& !self.heap.live()
        &&& self.run_inbox@.len() == 0
        &&& self.extent_inbox@.len() == 0
        &&& self.state@.publishers == 0
    }

    pub fn new(id: HeapId, config: AllocatorConfig) -> (slot: Self)
        requires
            id.generation > 0,
        ensures
            slot.wf(),
            slot.idle(),
            slot.heap.id == id,
            slot.heap.configured(config),
            slot.state@ == (SlotStateSnapshot {
                generation: id.generation,
                mode: HeapMode::Active,
                retired: false,
                publishers: 0,
            }),
    {
        Self {
            state: SlotState::new(id.generation, HeapMode::Active),
            run_inbox: Inbox::new(),
            extent_inbox: Inbox::new(),
            heap: SlotHeap::new(id, config),
        }
    }

    fn inboxes_empty(&self) -> (empty: bool)
        ensures
            empty == (self.run_inbox@.len() == 0 && self.extent_inbox@.len() == 0),
    {
        self.run_inbox.is_empty() && self.extent_inbox.is_empty()
    }

    /// Link an owner that is queued already.
    pub fn link_owner(&mut self, owner: PageOwner)
        ensures
            final(self).state == old(self).state,
            final(self).heap == old(self).heap,
            match owner {
                PageOwner::Run { run, .. } => final(self).run_inbox@ == seq![run]
                    + old(self).run_inbox@ && final(self).extent_inbox == old(self).extent_inbox,
                PageOwner::Extent { extent, .. } => final(self).extent_inbox@ == seq![extent]
                    + old(self).extent_inbox@ && final(self).run_inbox == old(self).run_inbox,
            },
    {
        match owner {
            PageOwner::Run { run, .. } => self.run_inbox.republish(run),
            PageOwner::Extent { extent, .. } => self.extent_inbox.republish(extent),
        }
    }

    /// Queue an owner for a thread that holds this slot. An owner that is queued already is
    /// left alone. When the slot is closed the owner stays queued without being linked: the
    /// caller links it under the lifecycle lock.
    pub fn enqueue(&mut self, id: HeapId, owner: PageOwner, link: &mut Link) -> (queued: Result<
        (),
        HeapError,
    >)
        requires
            old(self).wf(),
        ensures
            final(self).wf(),
            final(link).queued,
            final(self).state@ == old(self).state@,
            final(self).heap == old(self).heap,
            ({
                let snap = old(self).state@;
                let open = snap.is(id) && snap.mode == HeapMode::Active;
                if old(link).queued {
                    queued == Ok::<(), HeapError>(()) && final(self).run_inbox
                        == old(self).run_inbox && final(self).extent_inbox == old(self).extent_inbox
                } else if !open {
                    queued == Err::<(), HeapError>(HeapError::InvalidHeap) && final(self).run_inbox
                        == old(self).run_inbox && final(self).extent_inbox == old(self).extent_inbox
                } else if snap.publishers == MAX_PUBLISHERS {
                    queued == Err::<(), HeapError>(HeapError::InvalidMetadata) && final(self).run_inbox == old(self).run_inbox && final(self).extent_inbox == old(self).extent_inbox
                } else {
                    queued == Ok::<(), HeapError>(()) && match owner {
                        PageOwner::Run { run, .. } => final(self).run_inbox@ == seq![run]
                            + old(self).run_inbox@ && final(self).extent_inbox == old(self).extent_inbox,
                        PageOwner::Extent { extent, .. } => final(self).extent_inbox@
                            == seq![extent] + old(self).extent_inbox@ && final(self).run_inbox
                            == old(self).run_inbox,
                    }
                }
            }),
    {
        if !link.try_queue() {
            return Ok(());
        }
        match self.state.acquire_publisher(id) {
            Ok(()) => {},
            Err(error) => return Err(error),
        }
        self.link_owner(owner);
        self.state.release_publisher();
        Ok(())
    }

    /// Hand a free slot to a thread under a new id.
    pub fn reactivate(&mut self, id: HeapId)
        requires
            old(self).wf(),
            id.generation > 0,
        ensures
            final(self).wf(),
            final(self).heap == (SlotHeap { id, ..old(self).heap }),
            final(self).run_inbox == old(self).run_inbox,
            final(self).extent_inbox == old(self).extent_inbox,
            final(self).state@ == (SlotStateSnapshot {
                generation: id.generation,
                mode: HeapMode::Active,
                retired: false,
                publishers: 0,
            }),
    {
        self.heap.id = id;
        self.state.store(id.generation, HeapMode::Active, false, 0);
    }

    /// Free a slot that drains and is idle. Whether it was freed.
    pub fn try_reclaim(&mut self) -> (reclaimed: bool)
        requires
            old(self).wf(),
        ensures
            final(self).wf(),
            final(self).heap == old(self).heap,
            final(self).run_inbox == old(self).run_inbox,
            final(self).extent_inbox == old(self).extent_inbox,
            reclaimed == (!old(self).state@.retired && old(self).state@.mode == HeapMode::Draining
                && old(self).idle()),
            final(self).state@ == if reclaimed {
                bumped(old(self).state@)
            } else {
                old(self).state@
            },
    {
        let snap = self.state.load();
        if snap.retired || snap.mode != HeapMode::Draining || snap.publishers != 0 {
            return false;
        }
        if self.heap.has_live() || !self.inboxes_empty() {
            return false;
        }
        self.state.bump_free_or_retire();
        true
    }
}

} // verus!
