pub mod dispatch;
pub mod error;
pub mod extent;
pub mod heaps;
pub mod id;
pub mod inbox;
pub mod list;
pub mod owner;
pub mod run;
pub mod service;
pub mod spare;
pub mod state;
pub mod thread;

use vstd::prelude::*;

use crate::config::AllocatorConfig;
use crate::memory::{others_kept, owned, Mapping, PageOwner};

use error::HeapError;
use extent::heap::{extent_owner, extents_published, foreign_same, ExtentHeap};
use extent::{Extent, ExtentState};
use id::HeapId;
use inbox::Inbox;
use run::heap::{foreign_same_runs, lemma_runs_published_same, run_owner, runs_published, RunHeap};
use run::Run;
use state::{reclaimed_snapshot, HeapMode, HeapState, Snapshot};

verus! {

/// Exclusive run and extent metadata.
pub struct HeapInner {
    pub runs: RunHeap,
    pub extents: ExtentHeap,
}

/// What an owner-local free left of the owner.
#[derive(Clone, Copy, Debug, PartialEq, Eq, Structural)]
pub enum OwnerState {
    Live,
    Empty,
}

/// Indexed heap entry: lifecycle, remote-free inboxes, and run and extent metadata.
pub struct Heap {
    pub state: HeapState,
    /// One-based slot. The generation is in the state.
    pub slot: u32,
    /// Occupied runs.
    pub runs_live: usize,
    /// Occupied extents.
    pub extents_live: usize,
    pub run_inbox: Inbox<u32>,
    pub extent_inbox: Inbox<u32>,
    pub inner: HeapInner,
    /// Next Free heap index (`u32::MAX` at the end).
    pub free_next: u32,
}

/// Slots of the runs with outstanding blocks.
pub open spec fn live_runs(runs: Map<u32, Run>) -> Set<int> {
    Set::new(|slot: int| 0 <= slot < u32::MAX && runs.contains_key(slot as u32)
        && runs[slot as u32].live != 0)
}

/// Slots of the allocated or claimed extents.
pub open spec fn live_extents(extents: Map<u32, Extent>) -> Set<int> {
    Set::new(|slot: int| 0 <= slot < u32::MAX && extents.contains_key(slot as u32)
        && extents[slot as u32].live())
}

/// Sets of slots are finite, and no larger than the number of slots.
pub proof fn lemma_slots_bound(slots: Set<int>)
    requires
        forall|slot: int| #[trigger] slots.contains(slot) ==> 0 <= slot < u32::MAX,
    ensures
        slots.finite(),
        slots.len() <= u32::MAX,
{
    vstd::set_lib::lemma_int_range(0, u32::MAX as int);
    assert(slots.subset_of(vstd::set_lib::set_int_range(0, u32::MAX as int)));
    vstd::set_lib::lemma_len_subset(slots, vstd::set_lib::set_int_range(0, u32::MAX as int));
}

/// Changing one run changes the live runs by that run only.
pub proof fn lemma_live_runs(before: Map<u32, Run>, after: Map<u32, Run>, slot: u32)
    requires
        slot < u32::MAX,
        after.contains_key(slot),
        forall|other: u32|
            other != slot ==> #[trigger] after.contains_key(other) == before.contains_key(other)
                && (before.contains_key(other) ==> after[other].live == before[other].live),
    ensures
        live_runs(before).finite(),
        live_runs(after).finite(),
        live_runs(before).len() <= u32::MAX,
        live_runs(after).len() <= u32::MAX,
        ({
            let was = before.contains_key(slot) && before[slot].live != 0;
            let now = after[slot].live != 0;
            live_runs(after).len() == live_runs(before).len() + (if now {
                1int
            } else {
                0
            }) - (if was {
                1int
            } else {
                0
            })
        }),
{
    let old_set = live_runs(before);
    let new_set = live_runs(after);
    lemma_slots_bound(old_set);
    lemma_slots_bound(new_set);
    let was = before.contains_key(slot) && before[slot].live != 0;
    let now = after[slot].live != 0;
    assert forall|s: int| s != slot implies old_set.contains(s) == new_set.contains(s) by {
        if 0 <= s < u32::MAX {
            assert(after.contains_key(s as u32) == before.contains_key(s as u32));
        }
    }
    assert(old_set.contains(slot as int) == was);
    assert(new_set.contains(slot as int) == now);
    if was && !now {
        assert(new_set =~= old_set.remove(slot as int));
    } else if !was && now {
        assert(new_set =~= old_set.insert(slot as int));
    } else {
        assert(new_set =~= old_set);
    }
}

/// Changing one extent changes the live extents by that extent only.
pub proof fn lemma_live_extents(before: Map<u32, Extent>, after: Map<u32, Extent>, slot: u32)
    requires
        slot < u32::MAX,
        forall|other: u32|
            other != slot ==> #[trigger] after.contains_key(other) == before.contains_key(other)
                && (before.contains_key(other) ==> after[other].state == before[other].state),
    ensures
        live_extents(before).finite(),
        live_extents(after).finite(),
        live_extents(before).len() <= u32::MAX,
        live_extents(after).len() <= u32::MAX,
        ({
            let was = before.contains_key(slot) && before[slot].live();
            let now = after.contains_key(slot) && after[slot].live();
            live_extents(after).len() == live_extents(before).len() + (if now {
                1int
            } else {
                0
            }) - (if was {
                1int
            } else {
                0
            })
        }),
{
    let old_set = live_extents(before);
    let new_set = live_extents(after);
    lemma_slots_bound(old_set);
    lemma_slots_bound(new_set);
    let was = before.contains_key(slot) && before[slot].live();
    let now = after.contains_key(slot) && after[slot].live();
    assert forall|s: int| s != slot implies old_set.contains(s) == new_set.contains(s) by {
        if 0 <= s < u32::MAX {
            assert(after.contains_key(s as u32) == before.contains_key(s as u32));
        }
    }
    assert(old_set.contains(slot as int) == was);
    assert(new_set.contains(slot as int) == now);
    if was && !now {
        assert(new_set =~= old_set.remove(slot as int));
    } else if !was && now {
        assert(new_set =~= old_set.insert(slot as int));
    } else {
        assert(new_set =~= old_set);
    }
}

/// Runs stay published when only extents of the same heap change pages.
pub proof fn lemma_runs_kept(
    runs: Map<u32, Run>,
    before: Map<usize, PageOwner>,
    after: Map<usize, PageOwner>,
    heap: u32,
)
    requires
        runs_published(runs, before, heap),
        foreign_same(before, after, heap),
    ensures
        runs_published(runs, after, heap),
        others_kept(before, after, heap),
{
    assert forall|slot: u32|
        #![trigger runs.contains_key(slot)]
        #![trigger runs[slot]]
        runs.contains_key(slot) implies owned(after, runs[slot].spec_range(), run_owner(heap, slot)) by {
        assert(owned(before, runs[slot].spec_range(), run_owner(heap, slot)));
        assert forall|page: usize|
            #![trigger after.contains_key(page)]
            #![trigger after[page]]
            crate::memory::covers(runs[slot].spec_range(), page as int) implies after.contains_key(
            page,
        ) && after[page] == run_owner(heap, slot) by {
            assert(before.contains_key(page));
            assert(before[page] == run_owner(heap, slot));
            assert(after.contains_key(page));
        }
    }
    assert forall|page: usize|
        #![trigger after.contains_key(page)]
        #![trigger after[page]]
        after.contains_key(page) implies (after[page] matches PageOwner::Run { heap: owning, run }
        ==> owning == heap ==> (runs.contains_key(run) && crate::memory::covers(
        runs[run].spec_range(),
        page as int,
    ))) by {
        assert(before.contains_key(page) || !before.contains_key(page));
    }
}

/// Extents stay published when only runs of the same heap change pages.
pub proof fn lemma_extents_kept(
    extents: Map<u32, Extent>,
    before: Map<usize, PageOwner>,
    after: Map<usize, PageOwner>,
    heap: u32,
)
    requires
        extents_published(extents, before, heap),
        foreign_same_runs(before, after, heap),
    ensures
        extents_published(extents, after, heap),
        others_kept(before, after, heap),
{
    assert forall|slot: u32|
        #![trigger extents.contains_key(slot)]
        #![trigger extents[slot]]
        extents.contains_key(slot) && extents[slot].mapping is Some implies owned(
        after,
        extents[slot].mapping->0.spec_range(),
        extent_owner(heap, slot),
    ) by {
        let range = extents[slot].mapping->0.spec_range();
        assert(owned(before, range, extent_owner(heap, slot)));
        assert forall|page: usize|
            #![trigger after.contains_key(page)]
            #![trigger after[page]]
            crate::memory::covers(range, page as int) implies after.contains_key(page)
            && after[page] == extent_owner(heap, slot) by {
            assert(before.contains_key(page));
            assert(before[page] == extent_owner(heap, slot));
            assert(after.contains_key(page));
        }
    }
    assert forall|page: usize|
        #![trigger after.contains_key(page)]
        #![trigger after[page]]
        after.contains_key(page) implies (after[page] matches PageOwner::Extent {
        heap: owning,
        extent,
    } ==> owning == heap ==> (extents.contains_key(extent) && extents[extent].mapping is Some
        && crate::memory::covers(extents[extent].mapping->0.spec_range(), page as int))) by {
        assert(before.contains_key(page) || !before.contains_key(page));
    }
}

/// A heap stays published when only other heaps' pages change.
pub proof fn lemma_published_elsewhere(
    heap: Heap,
    before: Map<usize, PageOwner>,
    after: Map<usize, PageOwner>,
    other: u32,
)
    requires
        heap.published(before),
        others_kept(before, after, other),
        heap.spec_index() != other,
    ensures
        heap.published(after),
{
    let index = heap.spec_index();
    let runs = heap.inner.runs.runs@;
    let extents = heap.inner.extents.extents@;
    assert forall|slot: u32|
        #![trigger runs.contains_key(slot)]
        #![trigger runs[slot]]
        runs.contains_key(slot) implies owned(after, runs[slot].spec_range(), run_owner(
        index,
        slot,
    )) by {
        let range = runs[slot].spec_range();
        assert(owned(before, range, run_owner(index, slot)));
        assert forall|page: usize|
            #![trigger after.contains_key(page)]
            #![trigger after[page]]
            crate::memory::covers(range, page as int) implies after.contains_key(page)
            && after[page] == run_owner(index, slot) by {
            assert(before.contains_key(page));
            assert(before[page] == run_owner(index, slot));
            assert(after.contains_key(page));
        }
    }
    assert forall|slot: u32|
        #![trigger extents.contains_key(slot)]
        #![trigger extents[slot]]
        extents.contains_key(slot) && extents[slot].mapping is Some implies owned(
        after,
        extents[slot].mapping->0.spec_range(),
        extent_owner(index, slot),
    ) by {
        let range = extents[slot].mapping->0.spec_range();
        assert(owned(before, range, extent_owner(index, slot)));
        assert forall|page: usize|
            #![trigger after.contains_key(page)]
            #![trigger after[page]]
            crate::memory::covers(range, page as int) implies after.contains_key(page)
            && after[page] == extent_owner(index, slot) by {
            assert(before.contains_key(page));
            assert(before[page] == extent_owner(index, slot));
            assert(after.contains_key(page));
        }
    }
    assert forall|page: usize|
        #![trigger after.contains_key(page)]
        #![trigger after[page]]
        after.contains_key(page) && after[page].spec_heap() == index implies before.contains_key(
        page,
    ) && before[page] == after[page] by {
        assert(before.contains_key(page) || !before.contains_key(page));
    }
}

impl HeapInner {
    pub fn new(config: AllocatorConfig) -> (inner: Self)
        ensures
            forall|heap: u32| #[trigger] inner.runs.wf(heap),
            forall|heap: u32| #[trigger] inner.extents.wf(heap),
            inner.runs.runs@ == Map::<u32, Run>::empty(),
            inner.runs.map_index is None,
            inner.runs.maps@ == Map::<u32, Mapping>::empty(),
            inner.extents.extents@ == Map::<u32, Extent>::empty(),
            inner.runs.policy == config.run.policy,
            inner.runs.hints == config.hints,
            inner.extents.cache.config == config.extent,
            inner.extents.hints == config.hints,
    {
        Self {
            runs: RunHeap::new(config.run(), config.hints()),
            extents: ExtentHeap::new(config.extent(), config.hints()),
        }
    }

    /// Whether a run or an extent is occupied.
    pub fn has_live(&self) -> (live: bool)
        requires
            self.runs.runs.wf(),
            self.extents.extents.wf(),
        ensures
            live == ((exists|slot: u32| #[trigger]
                self.runs.runs@.contains_key(slot) && self.runs.runs@[slot].live != 0) || (exists|
                slot: u32,
            | #[trigger]
                self.extents.extents@.contains_key(slot)
                    && self.extents.extents@[slot].live())),
    {
        self.runs.has_live() || self.extents.has_live()
    }
}

impl Heap {
    /// Zero-based slot.
    pub open spec fn spec_index(self) -> u32 {
        (self.slot - 1) as u32
    }

    /// The runs on the run inbox exist, are marked queued, and are on it once.
    pub open spec fn run_inbox_wf(self) -> bool {
        &&& self.run_inbox@.no_duplicates()
        &&& forall|k: int|
            0 <= k < self.run_inbox@.len() ==> self.inner.runs.runs@.contains_key(
                #[trigger] self.run_inbox@[k],
            ) && self.inner.runs.runs@[self.run_inbox@[k]].link.queued
    }

    /// The extents on the extent inbox exist, are marked queued, and are on it once.
    pub open spec fn extent_inbox_wf(self) -> bool {
        &&& self.extent_inbox@.no_duplicates()
        &&& forall|k: int|
            0 <= k < self.extent_inbox@.len() ==> self.inner.extents.extents@.contains_key(
                #[trigger] self.extent_inbox@[k],
            ) && self.inner.extents.extents@[self.extent_inbox@[k]].link.queued
    }

    /// Lifecycle, metadata, inboxes, and counts are consistent.
    pub open spec fn wf(self) -> bool {
        &&& self.state.wf()
        &&& self.slot > 0
        &&& self.inner.runs.wf(self.spec_index())
        &&& self.inner.extents.wf(self.spec_index())
        &&& self.runs_live == live_runs(self.inner.runs.runs@).len()
        &&& self.extents_live == live_extents(self.inner.extents.extents@).len()
        &&& self.run_inbox_wf()
        &&& self.extent_inbox_wf()
    }

    /// Every run and mapped extent owns its pages, and no other page names this heap.
    pub open spec fn published(self, pages: Map<usize, PageOwner>) -> bool {
        &&& runs_published(self.inner.runs.runs@, pages, self.spec_index())
        &&& extents_published(self.inner.extents.extents@, pages, self.spec_index())
    }

    /// A held block starts at `addr`.
    pub open spec fn holds(self, addr: int) -> bool {
        self.inner.runs.holds(addr) || self.inner.extents.holds(addr)
    }

    /// Nothing is occupied and nothing is queued.
    pub open spec fn idle(self) -> bool {
        &&& self.run_inbox@.len() == 0
        &&& self.extent_inbox@.len() == 0
        &&& self.runs_live == 0
        &&& self.extents_live == 0
    }

    /// The heap goes by `config`: its runs by the run policy, its extents by the extent
    /// policy and budget, and what it maps by the hints.
    pub open spec fn configured(self, config: AllocatorConfig) -> bool {
        &&& self.inner.runs.policy == config.run.policy
        &&& self.inner.runs.hints == config.hints
        &&& self.inner.extents.cache.config == config.extent
        &&& self.inner.extents.hints == config.hints
    }

    /// The heap goes by what it went by.
    pub open spec fn same_settings(self, before: Heap) -> bool {
        &&& self.inner.runs.policy == before.inner.runs.policy
        &&& self.inner.runs.hints == before.inner.runs.hints
        &&& self.inner.extents.cache.config == before.inner.extents.cache.config
        &&& self.inner.extents.hints == before.inner.extents.hints
    }

    /// The id that this heap has now.
    pub open spec fn spec_id(self) -> HeapId {
        HeapId { slot: self.slot, generation: self.state@.generation }
    }

    /// Runs and mappings lie where they lay.
    pub open spec fn same_places(self, before: Heap) -> bool {
        &&& self.slot == before.slot
        &&& forall|slot: u32|
            #![trigger self.inner.runs.runs@.contains_key(slot)]
            #![trigger before.inner.runs.runs@.contains_key(slot)]
            #![trigger self.inner.runs.runs@[slot]]
            self.inner.runs.runs@.contains_key(slot) == before.inner.runs.runs@.contains_key(slot)
                && (before.inner.runs.runs@.contains_key(slot)
                ==> self.inner.runs.runs@[slot].base == before.inner.runs.runs@[slot].base)
        &&& forall|slot: u32|
            #![trigger self.inner.extents.extents@.contains_key(slot)]
            #![trigger before.inner.extents.extents@.contains_key(slot)]
            #![trigger self.inner.extents.extents@[slot]]
            self.inner.extents.extents@.contains_key(slot)
                == before.inner.extents.extents@.contains_key(slot) && (
            before.inner.extents.extents@.contains_key(slot)
                ==> self.inner.extents.extents@[slot].mapping
                == before.inner.extents.extents@[slot].mapping)
    }

    /// A heap whose parts have not moved stays published.
    pub proof fn lemma_same_places(self, before: Heap, pages: Map<usize, PageOwner>)
        requires
            before.published(pages),
            self.same_places(before),
        ensures
            self.published(pages),
    {
        lemma_runs_published_same(before.inner.runs, self.inner.runs, pages, self.spec_index());
        let extents = self.inner.extents.extents@;
        let was = before.inner.extents.extents@;
        let index = self.spec_index();
        assert forall|page: usize|
            #![trigger pages.contains_key(page)]
            #![trigger pages[page]]
            pages.contains_key(page) implies (pages[page] matches PageOwner::Extent {
            heap: owning,
            extent,
        } ==> owning == index ==> (extents.contains_key(extent) && extents[extent].mapping is Some
            && crate::memory::covers(extents[extent].mapping->0.spec_range(), page as int))) by {
            match pages[page] {
                PageOwner::Extent { heap: owning, extent } => {
                    if owning == index {
                        assert(was.contains_key(extent));
                    }
                },
                PageOwner::Run { .. } => {},
            }
        }
    }

    pub fn new(id: HeapId, config: AllocatorConfig) -> (heap: Self)
        requires
            id.wf(),
        ensures
            heap.wf(),
            heap.slot == id.slot,
            heap.state@ == (Snapshot {
                generation: id.generation,
                mode: HeapMode::Active,
                leases: 0,
            }),
            heap.idle(),
            heap.inner.runs.runs@ == Map::<u32, Run>::empty(),
            heap.inner.runs.map_index is None,
            heap.inner.runs.maps@ == Map::<u32, Mapping>::empty(),
            heap.inner.extents.extents@ == Map::<u32, Extent>::empty(),
            heap.configured(config),
            heap.inner.runs.policy == config.run.policy,
            heap.inner.extents.cache.config == config.extent,
            forall|addr: int| !#[trigger] heap.holds(addr),
    {
        let heap = Self {
            state: HeapState::new(id.generation(), HeapMode::Active),
            slot: id.slot(),
            runs_live: 0,
            extents_live: 0,
            run_inbox: Inbox::new(),
            extent_inbox: Inbox::new(),
            inner: HeapInner::new(config),
            free_next: u32::MAX,
        };
        proof {
            assert(live_runs(heap.inner.runs.runs@) =~= Set::empty());
            assert(live_extents(heap.inner.extents.extents@) =~= Set::empty());
        }
        heap
    }

    /// Arena slot plus the current generation.
    pub fn id(&self) -> (id: HeapId)
        requires
            self.wf(),
        ensures
            id == self.spec_id(),
            id.wf(),
    {
        HeapId::from_slot(self.slot, self.state.generation())
    }

    /// Zero-based slot.
    pub fn index(&self) -> (index: u32)
        requires
            self.slot > 0,
        ensures
            index == self.spec_index(),
    {
        self.slot - 1
    }

    /// Any occupied run or extent.
    pub fn occupied(&self) -> (occupied: bool)
        ensures
            occupied == (self.runs_live != 0 || self.extents_live != 0),
    {
        self.runs_live != 0 || self.extents_live != 0
    }

    pub fn inboxes_empty(&self) -> (empty: bool)
        ensures
            empty == (self.run_inbox@.len() == 0 && self.extent_inbox@.len() == 0),
    {
        self.run_inbox.is_empty() && self.extent_inbox.is_empty()
    }

    /// Current id when Active.
    pub fn active_id(&self) -> (id: Option<HeapId>)
        requires
            self.wf(),
        ensures
            id == if self.state@.mode == HeapMode::Active {
                Some(self.spec_id())
            } else {
                None
            },
    {
        let snap = self.state.load();
        match snap.mode {
            HeapMode::Active => Some(HeapId::from_slot(self.slot, snap.generation)),
            HeapMode::Free => None,
            HeapMode::Draining => None,
            HeapMode::Retired => None,
        }
    }

    pub fn matches(&self, id: HeapId) -> (same: bool)
        requires
            self.wf(),
        ensures
            same == (self.state@.mode != HeapMode::Retired && self.spec_id() == id),
    {
        self.slot == id.slot() && self.state.matches(id)
    }

    pub fn is_active(&self) -> (active: bool)
        requires
            self.wf(),
        ensures
            active == (self.state@.mode == HeapMode::Active),
    {
        self.state.is_active()
    }

    pub fn mode(&self) -> (mode: HeapMode)
        requires
            self.wf(),
        ensures
            mode == self.state@.mode,
    {
        self.state.mode()
    }

    pub fn leases(&self) -> (leases: u32)
        requires
            self.wf(),
        ensures
            leases == self.state@.leases,
    {
        self.state.leases()
    }

    /// Everything but the state word is the same.
    pub open spec fn same_but_state(self, before: Heap) -> bool {
        self == (Heap { state: self.state, ..before })
    }

    pub fn close(&mut self, id: HeapId) -> (closed: Result<(), HeapError>)
        requires
            old(self).wf(),
        ensures
            final(self).wf(),
            final(self).same_but_state(*old(self)),
            ({
                let snap = old(self).state@;
                if old(self).spec_id() == id && (snap.mode == HeapMode::Active || snap.mode
                    == HeapMode::Draining) {
                    closed == Ok::<(), HeapError>(()) && final(self).state@ == (Snapshot {
                        mode: HeapMode::Draining,
                        ..snap
                    })
                } else {
                    closed == Err::<(), HeapError>(HeapError::InvalidHeap) && final(self).state@
                        == snap
                }
            }),
    {
        if self.slot != id.slot() {
            return Err(HeapError::InvalidHeap);
        }
        self.state.close(id)
    }

    /// Draining to Active.
    pub fn adopt(&mut self, id: HeapId) -> (adopted: Result<(), HeapError>)
        requires
            old(self).wf(),
        ensures
            final(self).wf(),
            final(self).same_but_state(*old(self)),
            ({
                let snap = old(self).state@;
                if old(self).spec_id() == id && snap.mode == HeapMode::Draining {
                    adopted == Ok::<(), HeapError>(()) && final(self).state@ == (Snapshot {
                        mode: HeapMode::Active,
                        ..snap
                    })
                } else {
                    adopted == Err::<(), HeapError>(HeapError::InvalidHeap) && final(self).state@
                        == snap
                }
            }),
    {
        if self.slot != id.slot() {
            return Err(HeapError::InvalidHeap);
        }
        self.state.adopt(id)
    }

    /// Exclusive metadata access while Draining for `id`. `owner`
    /// is the page owner when the caller already has it.
    pub fn enter(&self, id: HeapId, owner: Option<PageOwner>) -> (admitted: Result<(), HeapError>)
        requires
            self.wf(),
        ensures
            admitted == if self.spec_id() == id && self.state@.mode == HeapMode::Draining && (
            owner matches Some(owner) ==> owner.spec_heap() == self.spec_index()) {
                Ok::<(), HeapError>(())
            } else {
                Err::<(), HeapError>(HeapError::InvalidHeap)
            },
    {
        if self.slot != id.slot() || self.mode() != HeapMode::Draining {
            return Err(HeapError::InvalidHeap);
        }
        match owner {
            Some(owner) => {
                if owner.heap() != self.index() {
                    return Err(HeapError::InvalidHeap);
                }
            },
            None => {},
        }
        let snap = self.state.load();
        if snap.mode != HeapMode::Draining || snap.generation != id.generation() {
            return Err(HeapError::InvalidHeap);
        }
        Ok(())
    }

    pub fn reactivate(&mut self)
        requires
            old(self).wf(),
        ensures
            final(self).wf(),
            final(self).same_but_state(*old(self)),
            final(self).state@ == (Snapshot {
                generation: old(self).state@.generation,
                mode: HeapMode::Active,
                leases: 0,
            }),
    {
        let generation: u32 = self.state.generation();
        self.state.store(generation, HeapMode::Active, 0);
    }

    /// The counters agree with a scan.
    pub proof fn lemma_counts(self)
        requires
            self.wf(),
        ensures
            (self.runs_live != 0) == (exists|slot: u32| #[trigger]
                self.inner.runs.runs@.contains_key(slot) && self.inner.runs.runs@[slot].live != 0),
            (self.extents_live != 0) == (exists|slot: u32| #[trigger]
                self.inner.extents.extents@.contains_key(slot)
                    && self.inner.extents.extents@[slot].live()),
    {
        let runs = live_runs(self.inner.runs.runs@);
        let extents = live_extents(self.inner.extents.extents@);
        lemma_slots_bound(runs);
        lemma_slots_bound(extents);
        self.inner.runs.runs.lemma_bounds();
        self.inner.extents.extents.lemma_bounds();
        if runs.len() != 0 {
            let slot = runs.choose();
            assert(runs.contains(slot));
            assert(self.inner.runs.runs@.contains_key(slot as u32));
        } else {
            assert(runs =~= Set::empty());
            assert forall|slot: u32| #[trigger]
                self.inner.runs.runs@.contains_key(slot) implies self.inner.runs.runs@[slot].live
                == 0 by {
                assert(!runs.contains(slot as int));
            }
        }
        if extents.len() != 0 {
            let slot = extents.choose();
            assert(extents.contains(slot));
            assert(self.inner.extents.extents@.contains_key(slot as u32));
        } else {
            assert(extents =~= Set::empty());
            assert forall|slot: u32| #[trigger]
                self.inner.extents.extents@.contains_key(
                    slot,
                ) implies !self.inner.extents.extents@[slot].live() by {
                assert(!extents.contains(slot as int));
            }
        }
    }

    /// A heap with a live run or extent is not idle.
    pub proof fn lemma_owner_live(self, owner: PageOwner)
        requires
            self.wf(),
            self.has_owner(owner),
            self.owner_live(owner),
        ensures
            !self.idle(),
    {
        self.lemma_counts();
        match owner {
            PageOwner::Run { run, .. } => {
                assert(self.inner.runs.runs@.contains_key(run));
            },
            PageOwner::Extent { extent, .. } => {
                assert(self.inner.extents.extents@.contains_key(extent));
            },
        }
    }

    /// A heap that holds a block is not idle.
    pub proof fn lemma_holder_live(self, addr: int)
        requires
            self.wf(),
            self.holds(addr),
        ensures
            !self.idle(),
    {
        self.lemma_counts();
        if self.inner.runs.holds(addr) {
            let slot = choose|slot: u32| #[trigger]
                self.inner.runs.runs@.contains_key(slot) && self.inner.runs.runs@[slot].holds(addr);
            let run = self.inner.runs.runs@[slot];
            assert(self.inner.runs.run_wf(slot, self.spec_index()));
            if run.live == 0 {
                run.lemma_none_outstanding();
            }
        } else {
            let extents = self.inner.extents.extents@;
            let slot = choose|slot: u32| #[trigger]
                extents.contains_key(slot) && extents[slot].state == ExtentState::Allocated
                    && extents[slot].base == addr;
            assert(extents[slot].live());
        }
    }

    /// Mark Free and bump the generation when Draining, idle, and no lease is out.
    ///
    /// The caller lists a heap that did not retire for reuse.
    pub fn reclaim(&mut self) -> (reclaimed: bool)
        requires
            old(self).wf(),
        ensures
            final(self).wf(),
            final(self).same_but_state(*old(self)),
            reclaimed == (old(self).state@.mode == HeapMode::Draining && old(self).state@.leases
                == 0 && old(self).idle()),
            final(self).state@ == if reclaimed {
                reclaimed_snapshot(old(self).state@)
            } else {
                old(self).state@
            },
    {
        proof {
            self.lemma_counts();
        }
        let snap = self.state.load();
        if snap.mode != HeapMode::Draining || snap.leases != 0 {
            return false;
        }
        if !self.inboxes_empty() || self.occupied() || self.inner.has_live() {
            return false;
        }
        self.state.bump_or_retire(snap)
    }
}

} // verus!
