//! What a heap does for its owner and for remote freers.

use vstd::prelude::*;

use super::error::HeapError;
use super::extent::heap::extent_owner;
use super::extent::{Extent, ExtentError, ExtentInit, ExtentState};
use super::id::HeapId;
use super::run::config::RunPolicy;
use super::run::heap::{run_owner, RunHeap};
use super::run::{Accept, AvailableLink, Run, RunError, RunFree};
use super::state::{HeapMode, MAX_LEASES};
use super::{lemma_live_extents, lemma_live_runs, live_extents, live_runs, Heap, OwnerState};
use crate::layout::LayoutSpec;
use crate::memory::{covers, others_kept, owned, Effect, Os, PageMap, PageOwner, PAGE_SIZE};
use crate::size_class::SizeClass;

use super::spare::{
    lemma_alloc_step,
    lemma_extent_step,
    lemma_flush_spares,
    lemma_grant_ignored,
    lemma_no_effect,
    lemma_run_step,
    lemma_same_parts,
    lemma_settled_trans,
    lemma_spares_after_free,
    lemma_spares_refl,
    lemma_spares_then,
    lemma_zeroed_then,
    quiet,
    settled,
    spares,
    zeroed_block,
};

verus! {

/// A held run block lies on a page that the run owns.
pub proof fn lemma_run_holder(heap: Heap, pages: Map<usize, PageOwner>, slot: u32, addr: int)
    requires
        heap.wf(),
        heap.published(pages),
        heap.inner.runs.runs@.contains_key(slot),
        heap.inner.runs.runs@[slot].located(addr as usize) is Ok,
        0 <= addr <= usize::MAX,
    ensures
        pages.contains_key((addr / 4096) as usize),
        pages[(addr / 4096) as usize] == run_owner(heap.spec_index(), slot),
        heap.inner.runs.runs@[slot].spec_range().has(addr),
{
    let run = heap.inner.runs.runs@[slot];
    assert(heap.inner.runs.run_wf(slot, heap.spec_index()));
    assert(owned(pages, run.spec_range(), run_owner(heap.spec_index(), slot)));
    let page: usize = (addr / 4096) as usize;
    assert(covers(run.spec_range(), page as int));
    assert(pages.contains_key(page));
    assert(pages[page] == run_owner(heap.spec_index(), slot));
}

/// An extent's block lies on a page that the extent owns.
pub proof fn lemma_extent_holder(heap: Heap, pages: Map<usize, PageOwner>, slot: u32)
    requires
        heap.wf(),
        heap.published(pages),
        heap.inner.extents.extents@.contains_key(slot),
        heap.inner.extents.extents@[slot].mapping is Some,
    ensures
        ({
            let page: usize = (heap.inner.extents.extents@[slot].base as int / 4096) as usize;
            pages.contains_key(page) && pages[page] == extent_owner(heap.spec_index(), slot)
        }),
{
    let extent = heap.inner.extents.extents@[slot];
    assert(extent.wf());
    let range = extent.mapping->0.spec_range();
    assert(owned(pages, range, extent_owner(heap.spec_index(), slot)));
    let page: usize = (extent.base as int / 4096) as usize;
    assert(covers(range, page as int));
    assert(pages.contains_key(page));
    assert(pages[page] == extent_owner(heap.spec_index(), slot));
}

impl Heap {
    /// No block but one of run `slot` starts where that run has a block.
    pub proof fn lemma_only_run_holds(
        self,
        pages: Map<usize, PageOwner>,
        slot: u32,
        addr: int,
    )
        requires
            self.wf(),
            self.published(pages),
            self.inner.runs.runs@.contains_key(slot),
            0 <= addr <= usize::MAX,
            self.inner.runs.runs@[slot].located(addr as usize) is Ok,
        ensures
            self.holds(addr) == self.inner.runs.runs@[slot].holds(addr),
            !self.inner.extents.holds(addr),
            forall|other: u32|
                other != slot && #[trigger] self.inner.runs.runs@.contains_key(other)
                    ==> !self.inner.runs.runs@[other].holds(addr),
    {
        lemma_run_holder(self, pages, slot, addr);
        assert forall|other: u32|
            other != slot && #[trigger] self.inner.runs.runs@.contains_key(
                other,
            ) implies !self.inner.runs.runs@[other].holds(addr) by {
            if self.inner.runs.runs@[other].holds(addr) {
                lemma_run_holder(self, pages, other, addr);
            }
        }
        if self.inner.extents.holds(addr) {
            let other = choose|other: u32| #[trigger]
                self.inner.extents.extents@.contains_key(other)
                    && self.inner.extents.extents@[other].state == ExtentState::Allocated
                    && self.inner.extents.extents@[other].base == addr;
            assert(self.inner.extents.extents@[other].wf());
            lemma_extent_holder(self, pages, other);
        }
    }

    /// No block but the one of extent `slot` starts at its base.
    pub proof fn lemma_only_extent_holds(self, pages: Map<usize, PageOwner>, slot: u32)
        requires
            self.wf(),
            self.published(pages),
            self.inner.extents.extents@.contains_key(slot),
            self.inner.extents.extents@[slot].mapping is Some,
        ensures
            !self.inner.runs.holds(self.inner.extents.extents@[slot].base as int),
            forall|other: u32|
                other != slot && #[trigger] self.inner.extents.extents@.contains_key(other)
                    && self.inner.extents.extents@[other].mapping is Some
                    ==> self.inner.extents.extents@[other].base
                    != self.inner.extents.extents@[slot].base,
    {
        let addr = self.inner.extents.extents@[slot].base as int;
        lemma_extent_holder(self, pages, slot);
        if self.inner.runs.holds(addr) {
            let other = choose|other: u32| #[trigger]
                self.inner.runs.runs@.contains_key(other) && self.inner.runs.runs@[other].holds(
                    addr,
                );
            lemma_run_holder(self, pages, other, addr);
        }
        assert forall|other: u32|
            other != slot && #[trigger] self.inner.extents.extents@.contains_key(other)
                && self.inner.extents.extents@[other].mapping
                is Some implies self.inner.extents.extents@[other].base
            != self.inner.extents.extents@[slot].base by {
            lemma_extent_holder(self, pages, other);
        }
    }

    /// Everything but the runs and their count is the same.
    pub open spec fn same_but_runs(self, before: Heap) -> bool {
        &&& self.state == before.state
        &&& self.slot == before.slot
        &&& self.extents_live == before.extents_live
        &&& self.run_inbox == before.run_inbox
        &&& self.extent_inbox == before.extent_inbox
        &&& self.inner.extents == before.inner.extents
        &&& self.free_next == before.free_next
    }

    /// Changing one run keeps the heap consistent once its count follows.
    proof fn lemma_run_changed(self, before: Heap, slot: u32)
        requires
            before.wf(),
            self.same_but_runs(before),
            self.inner.runs.wf(before.spec_index()),
            self.inner.runs.only(before.inner.runs, slot),
            self.inner.runs.runs@[slot].same_shape(before.inner.runs.runs@[slot]),
            self.inner.runs.runs@[slot].link.queued || !before.run_inbox@.contains(slot),
            self.runs_live == before.runs_live + (if self.inner.runs.runs@[slot].live != 0 {
                1int
            } else {
                0
            }) - (if before.inner.runs.runs@[slot].live != 0 {
                1int
            } else {
                0
            }),
        ensures
            self.wf(),
            self.same_places(before),
    {
        let runs = self.inner.runs.runs@;
        let was = before.inner.runs.runs@;
        self.inner.runs.runs.lemma_bounds();
        assert(runs.contains_key(slot));
        lemma_live_runs(was, runs, slot);
        assert forall|k: int| 0 <= k < self.run_inbox@.len() implies runs.contains_key(
            #[trigger] self.run_inbox@[k],
        ) && runs[self.run_inbox@[k]].link.queued by {
            assert(was.contains_key(before.run_inbox@[k]));
            assert(before.run_inbox@.contains(before.run_inbox@[k]));
        }
    }

    /// The count of live runs has room for one more, and is not zero while a run is
    /// live.
    proof fn lemma_run_count(self, slot: u32)
        requires
            self.wf(),
            self.inner.runs.runs@.contains_key(slot),
        ensures
            self.inner.runs.runs@[slot].live == 0 ==> self.runs_live < u32::MAX,
            self.inner.runs.runs@[slot].live != 0 ==> self.runs_live > 0,
    {
        let runs = self.inner.runs.runs@;
        self.inner.runs.runs.lemma_bounds();
        lemma_live_runs(runs, runs, slot);
        if runs[slot].live == 0 {
            let marked = live_runs(runs);
            assert(!marked.contains(slot as int));
            let more = marked.insert(slot as int);
            super::lemma_slots_bound(more);
        } else {
            assert(live_runs(runs).contains(slot as int));
            if live_runs(runs).len() == 0 {
                assert(live_runs(runs) =~= Set::empty());
            }
        }
    }

    /// What the runs hold once only run `slot` changed.
    proof fn lemma_run_holds(self, before: Heap, slot: u32)
        requires
            self.same_but_runs(before),
            self.inner.runs.only(before.inner.runs, slot),
        ensures
            forall|addr: int|
                self.inner.runs.runs@[slot].holds(addr) == before.inner.runs.runs@[slot].holds(addr)
                    ==> #[trigger] self.holds(addr) == before.holds(addr),
            forall|addr: int|
                self.inner.runs.runs@[slot].holds(addr) ==> #[trigger] self.holds(addr),
    {
        let runs = self.inner.runs.runs@;
        let was = before.inner.runs.runs@;
        assert(runs.contains_key(slot));
        assert forall|addr: int| runs[slot].holds(addr) implies #[trigger] self.holds(addr) by {
            assert(self.inner.runs.holds(addr));
        }
        assert forall|addr: int|
            runs[slot].holds(addr) == was[slot].holds(addr) implies #[trigger] self.holds(addr)
            == before.holds(addr) by {
            if self.inner.runs.holds(addr) {
                let other = choose|other: u32| #[trigger]
                    runs.contains_key(other) && runs[other].holds(addr);
                assert(was.contains_key(other) && was[other].holds(addr));
            }
            if before.inner.runs.holds(addr) {
                let other = choose|other: u32| #[trigger]
                    was.contains_key(other) && was[other].holds(addr);
                assert(runs.contains_key(other) && runs[other].holds(addr));
            }
        }
    }

    /// Pop one block off a run's free list.
    pub fn allocate_run(&mut self, slot: u32, pages: &PageMap) -> (ptr: Option<usize>)
        requires
            old(self).wf(),
            old(self).published(pages@),
            old(self).inner.runs.runs@.contains_key(slot),
        ensures
            final(self).wf(),
            final(self).published(pages@),
            final(self).same_places(*old(self)),
            final(self).same_but_runs(*old(self)),
            final(self).inner.runs.only(old(self).inner.runs, slot),
            final(self).inner.runs.runs@[slot].same_shape(old(self).inner.runs.runs@[slot]),
            ({
                let run = old(self).inner.runs.runs@[slot];
                let after = final(self).inner.runs.runs@[slot];
                if run.free@.len() == 0 {
                    ptr is None && after == run && final(self).runs_live == old(self).runs_live
                } else {
                    &&& ptr == Some(run.free@[0])
                    &&& after.free@ == run.free@.skip(1)
                    &&& after.bump == run.bump
                    &&& after.live == run.live + 1
                    &&& after.available == run.available
                    &&& after.claims == run.claims
                    &&& after.link == run.link
                }
            }),
            final(self).inner.runs.tidy(old(self).inner.runs, None),
            ptr matches Some(ptr) ==> ptr > 0 && old(self).inner.runs.runs@[slot].located(ptr) is Ok
                && !old(self).holds(ptr as int) && forall|addr: int| #[trigger]
                final(self).holds(addr) == (addr == ptr || old(self).holds(addr)),
            ptr is None ==> forall|addr: int| #[trigger]
                final(self).holds(addr) == old(self).holds(addr),
    {
        let ghost before = *self;
        let ghost index = self.spec_index();
        assert(before.inner.runs.run_wf(slot, index));
        proof {
            before.lemma_run_count(slot);
        }
        let mut popped: Option<usize> = None;
        let mut was_live = false;
        match self.inner.runs.runs.get_mut(slot) {
            None => {},
            Some(run) => {
                was_live = run.is_live();
                popped = run.allocate();
            },
        }
        let ghost run = before.inner.runs.runs@[slot];
        let ghost after = self.inner.runs.runs@[slot];
        proof {
            before.inner.runs.lemma_set_run(self.inner.runs, slot, index);
        }
        match popped {
            Some(ptr) => {
                if !was_live {
                    self.runs_live = self.runs_live + 1;
                }
                proof {
                    self.lemma_run_changed(before, slot);
                    let block = run.located(ptr)->Ok_0.index.index as int;
                    assert forall|i: int| i != block implies #[trigger] after.held(i) == run.held(
                        i,
                    ) by {
                        assert(after.outstanding(i) == (i == block || run.outstanding(i)));
                    }
                    assert(!run.held(block));
                    after.lemma_changed_holds(run, ptr, true);
                    self.lemma_run_holds(before, slot);
                    before.lemma_only_run_holds(pages@, slot, ptr as int);
                    self.lemma_same_places(before, pages@);
                }
                Some(ptr)
            },
            None => {
                proof {
                    self.lemma_run_changed(before, slot);
                    self.lemma_run_holds(before, slot);
                    self.lemma_same_places(before, pages@);
                }
                None
            },
        }
    }

    /// Thread fresh blocks onto a run's free list.
    pub fn extend_run(&mut self, slot: u32, pages: &PageMap) -> (extended: bool)
        requires
            old(self).wf(),
            old(self).published(pages@),
            old(self).inner.runs.runs@.contains_key(slot),
        ensures
            final(self).wf(),
            final(self).published(pages@),
            final(self).same_places(*old(self)),
            final(self).same_but_runs(*old(self)),
            final(self).runs_live == old(self).runs_live,
            final(self).inner.runs.only(old(self).inner.runs, slot),
            ({
                let run = old(self).inner.runs.runs@[slot];
                let after = final(self).inner.runs.runs@[slot];
                &&& extended == (run.bump < run.capacity)
                &&& after.same_shape(run)
                &&& after.live == run.live
                &&& after.available == run.available
                &&& after.claims == run.claims
                &&& extended ==> after.bump == run.bump + run.batch() && run.batch() > 0
                    && after.free@ == Seq::new(
                    run.batch() as nat,
                    |i: int| run.block_addr(run.bump + i) as usize,
                ) + run.free@
                &&& !extended ==> after == run
            }),
            final(self).inner.runs.tidy(old(self).inner.runs, None),
            forall|addr: int| #[trigger] final(self).holds(addr) == old(self).holds(addr),
    {
        let ghost before = *self;
        let ghost index = self.spec_index();
        assert(before.inner.runs.run_wf(slot, index));
        let mut extended = false;
        match self.inner.runs.runs.get_mut(slot) {
            None => {},
            Some(run) => {
                extended = run.extend();
            },
        }
        proof {
            let run = before.inner.runs.runs@[slot];
            let after = self.inner.runs.runs@[slot];
            before.inner.runs.lemma_set_run(self.inner.runs, slot, index);
            self.lemma_run_changed(before, slot);
            assert forall|i: int| #[trigger] after.held(i) == run.held(i) by {
                assert(after.outstanding(i) == run.outstanding(i));
            }
            after.lemma_same_holds(run);
            self.lemma_run_holds(before, slot);
            self.lemma_same_places(before, pages@);
        }
        extended
    }

    /// Owner-local free of a run's block. The run is not relisted or discarded.
    pub fn free_run(&mut self, slot: u32, ptr: usize, pages: &PageMap) -> (freed: Result<
        RunFree,
        RunError,
    >)
        requires
            old(self).wf(),
            old(self).published(pages@),
            old(self).inner.runs.runs@.contains_key(slot),
            old(self).inner.runs.runs@[slot].located(ptr) is Ok ==> old(self).inner.runs.runs@[slot].holds(ptr as int),
        ensures
            final(self).wf(),
            final(self).published(pages@),
            final(self).same_places(*old(self)),
            final(self).same_but_runs(*old(self)),
            final(self).inner.runs.only(old(self).inner.runs, slot),
            ({
                let run = old(self).inner.runs.runs@[slot];
                let after = final(self).inner.runs.runs@[slot];
                &&& after.same_shape(run)
                &&& match run.located(ptr) {
                    Err(error) => freed == Err::<RunFree, RunError>(error) && after == run && final(self).runs_live == old(self).runs_live && forall|addr: int| #[trigger]
                        final(self).holds(addr) == old(self).holds(addr),
                    Ok(_) => {
                        &&& freed == Ok::<RunFree, RunError>(
                            if run.live == run.capacity {
                                RunFree::Available
                            } else {
                                RunFree::Unchanged
                            },
                        )
                        &&& old(self).holds(ptr as int)
                        &&& after.live == run.live - 1
                        &&& after.free@ == seq![ptr] + run.free@
                        &&& after.bump == run.bump
                        &&& after.available == run.available
                        &&& after.link == run.link
                        &&& after.claims == run.claims
                        &&& forall|addr: int| #[trigger]
                            final(self).holds(addr) == (addr != ptr && old(self).holds(addr))
                    },
                }
            }),
            final(self).inner.runs.tidy(old(self).inner.runs, Some(slot)),
    {
        let ghost before = *self;
        let ghost index = self.spec_index();
        assert(before.inner.runs.run_wf(slot, index));
        proof {
            before.lemma_run_count(slot);
        }
        let mut outcome: Result<RunFree, RunError> = Err(RunError::OutOfRange);
        let mut now_live = false;
        match self.inner.runs.runs.get_mut(slot) {
            None => {},
            Some(run) => {
                outcome = run.free(ptr);
                now_live = run.is_live();
            },
        }
        let ghost run = before.inner.runs.runs@[slot];
        let ghost after = self.inner.runs.runs@[slot];
        proof {
            before.inner.runs.lemma_set_run(self.inner.runs, slot, index);
        }
        match outcome {
            Err(error) => {
                proof {
                    self.lemma_run_changed(before, slot);
                    self.lemma_run_holds(before, slot);
                    self.lemma_same_places(before, pages@);
                }
                Err(error)
            },
            Ok(free) => {
                if !now_live {
                    self.runs_live = self.runs_live - 1;
                }
                proof {
                    self.lemma_run_changed(before, slot);
                    let block = run.located(ptr)->Ok_0.index.index as int;
                    assert forall|i: int| i != block implies #[trigger] after.held(i) == run.held(
                        i,
                    ) by {
                        assert(after.outstanding(i) == (i != block && run.outstanding(i)));
                    }
                    assert(!after.outstanding(block));
                    after.lemma_changed_holds(run, ptr, false);
                    self.lemma_run_holds(before, slot);
                    before.lemma_only_run_holds(pages@, slot, ptr as int);
                    self.lemma_same_places(before, pages@);
                    self.lemma_only_run_holds(pages@, slot, ptr as int);
                }
                Ok(free)
            },
        }
    }

    /// After an owner-local free: list a run that left full, discard an empty
    /// payload.
    pub fn release_run(&mut self, slot: u32, outcome: RunFree, pages: &PageMap, os: &mut Os) -> (released:
        Result<(), HeapError>)
        requires
            old(self).wf(),
            old(self).published(pages@),
            old(self).inner.runs.runs@.contains_key(slot),
            old(os).wf(),
        ensures
            settled(*old(self), *final(self)),
            spares(
                *old(self),
                *final(self),
                old(os).effects@,
                final(os).effects@,
                old(os).discards,
                None,
            ),
            final(self).wf(),
            final(self).published(pages@),
            final(self).same_places(*old(self)),
            final(self).same_but_runs(*old(self)),
            final(self).runs_live == old(self).runs_live,
            final(self).inner.runs.only(old(self).inner.runs, slot),
            final(os).wf(),
            final(os).grant == old(os).grant,
            final(os).wanted == old(os).wanted,
            final(os).discards == old(os).discards,
            ({
                let run = old(self).inner.runs.runs@[slot];
                let after = final(self).inner.runs.runs@[slot];
                let refused = outcome == RunFree::Available && run.available
                    == AvailableLink::Unlisted && run.live == run.capacity;
                &&& released == if refused {
                    Err::<(), HeapError>(HeapError::InvalidMetadata)
                } else {
                    Ok::<(), HeapError>(())
                }
                &&& after.same_shape(run)
                &&& after.live == run.live
                &&& after.link == run.link
                &&& after.claims == run.claims
                &&& outcome == RunFree::Available && !refused ==> after.available
                    != AvailableLink::Unlisted
                &&& outcome == RunFree::Unchanged || refused ==> after.available == run.available
                &&& if !refused && run.policy == RunPolicy::Discard && run.live == 0 {
                    after.bump == 0 && after.free@ == Seq::<usize>::empty() && final(os).effects@
                        == old(os).effects@.push(Effect::Discard(run.spec_range()))
                } else {
                    after.bump == run.bump && after.free == run.free && final(os).effects
                        == old(os).effects
                }
            }),
            final(self).inner.runs.tidy(old(self).inner.runs, None),
            forall|addr: int| #[trigger] final(self).holds(addr) == old(self).holds(addr),
    {
        let ghost before = *self;
        let ghost index = self.spec_index();
        let released = self.inner.runs.release(slot, outcome, Ghost(index), os);
        proof {
            let run = before.inner.runs.runs@[slot];
            let after = self.inner.runs.runs@[slot];
            self.lemma_run_changed(before, slot);
            assert forall|i: int| #[trigger] after.held(i) == run.held(i) by {
                assert(after.outstanding(i) == run.outstanding(i));
            }
            after.lemma_same_holds(run);
            self.lemma_run_holds(before, slot);
            self.lemma_same_places(before, pages@);
            lemma_run_step(before, *self, slot, old(os).effects@, os.effects@, os.discards);
        }
        released
    }

    /// Put a run with room on its available list.
    pub fn push_available(&mut self, slot: u32, pages: &PageMap) -> (pushed: Result<(), HeapError>)
        requires
            old(self).wf(),
            old(self).published(pages@),
            old(self).inner.runs.runs@.contains_key(slot),
        ensures
            final(self).wf(),
            final(self).published(pages@),
            final(self).same_places(*old(self)),
            final(self).same_but_runs(*old(self)),
            final(self).runs_live == old(self).runs_live,
            final(self).inner.runs.only(old(self).inner.runs, slot),
            ({
                let run = old(self).inner.runs.runs@[slot];
                let after = final(self).inner.runs.runs@[slot];
                let refused = run.available == AvailableLink::Unlisted && run.live == run.capacity;
                &&& pushed == if refused {
                    Err::<(), HeapError>(HeapError::InvalidMetadata)
                } else {
                    Ok::<(), HeapError>(())
                }
                &&& after == (Run { available: after.available, ..run })
                &&& !refused ==> after.available != AvailableLink::Unlisted
                &&& refused ==> after == run
            }),
            final(self).inner.runs.tidy(old(self).inner.runs, None),
            forall|addr: int| #[trigger] final(self).holds(addr) == old(self).holds(addr),
    {
        let ghost before = *self;
        let ghost index = self.spec_index();
        let pushed = self.inner.runs.push_available(slot, Ghost(index));
        proof {
            let run = before.inner.runs.runs@[slot];
            let after = self.inner.runs.runs@[slot];
            assert(self.inner.runs.runs@ =~= before.inner.runs.runs@.insert(slot, after));
            self.lemma_run_changed(before, slot);
            assert forall|i: int| #[trigger] after.held(i) == run.held(i) by {}
            after.lemma_same_holds(run);
            self.lemma_run_holds(before, slot);
            self.lemma_same_places(before, pages@);
        }
        pushed
    }
}

/// Why a queued extent cannot be accepted, if it cannot: only a claimed one can.
pub open spec fn accept_error(extent: Extent) -> Option<HeapError> {
    if extent.base == 0 {
        Some(HeapError::InvalidExtentPointer)
    } else {
        match extent.state {
            ExtentState::Claimed => None,
            ExtentState::Free => Some(HeapError::DoubleFree),
            ExtentState::Allocated => Some(HeapError::InvalidExtentPointer),
        }
    }
}

/// The first queued extent that cannot be accepted decides.
pub open spec fn first_error(extents: Map<u32, Extent>, queue: Seq<u32>) -> Option<HeapError>
    decreases queue.len(),
{
    if queue.len() == 0 {
        None
    } else {
        match accept_error(extents[queue[0]]) {
            Some(error) => Some(error),
            None => first_error(extents, queue.skip(1)),
        }
    }
}

/// The first error depends only on the states and bases of the queued extents.
proof fn lemma_first_error_same(before: Map<u32, Extent>, after: Map<u32, Extent>, queue: Seq<u32>)
    requires
        forall|k: int|
            0 <= k < queue.len() ==> before[#[trigger] queue[k]].state == after[queue[k]].state
                && before[queue[k]].base == after[queue[k]].base,
    ensures
        first_error(before, queue) == first_error(after, queue),
    decreases queue.len(),
{
    if queue.len() > 0 {
        let rest = queue.skip(1);
        assert forall|k: int| 0 <= k < rest.len() implies before[#[trigger] rest[k]].state
            == after[rest[k]].state && before[rest[k]].base == after[rest[k]].base by {
            assert(rest[k] == queue[k + 1]);
        }
        lemma_first_error_same(before, after, rest);
        assert(before[queue[0]].state == after[queue[0]].state);
    }
}

impl Heap {
    /// Everything but the extents and their count is the same.
    pub open spec fn same_but_extents(self, before: Heap) -> bool {
        &&& self.state == before.state
        &&& self.slot == before.slot
        &&& self.runs_live == before.runs_live
        &&& self.run_inbox == before.run_inbox
        &&& self.extent_inbox == before.extent_inbox
        &&& self.inner.runs == before.inner.runs
        &&& self.free_next == before.free_next
    }

    /// Changing one extent keeps the heap consistent once its count follows.
    proof fn lemma_extent_changed(self, before: Heap, slot: u32)
        requires
            before.wf(),
            slot < u32::MAX,
            self.same_but_extents(before),
            self.inner.extents.wf(before.spec_index()),
            self.inner.extents.others_same(before.inner.extents, slot),
            before.inner.extents.extents@.contains_key(slot)
                ==> self.inner.extents.extents@.contains_key(slot)
                && (self.inner.extents.extents@[slot].link.queued
                || !before.extent_inbox@.contains(slot)),
            self.extents_live == before.extents_live + (if self.inner.extents.extents@.contains_key(
                slot,
            ) && self.inner.extents.extents@[slot].live() {
                1int
            } else {
                0
            }) - (if before.inner.extents.extents@.contains_key(slot)
                && before.inner.extents.extents@[slot].live() {
                1int
            } else {
                0
            }),
        ensures
            self.wf(),
    {
        let extents = self.inner.extents.extents@;
        let was = before.inner.extents.extents@;
        lemma_live_extents(was, extents, slot);
        assert forall|k: int| 0 <= k < self.extent_inbox@.len() implies extents.contains_key(
            #[trigger] self.extent_inbox@[k],
        ) && extents[self.extent_inbox@[k]].link.queued by {
            assert(was.contains_key(before.extent_inbox@[k]));
            assert(before.extent_inbox@.contains(before.extent_inbox@[k]));
        }
    }

    /// The count of live extents has room for one more, and is not zero while an
    /// extent is live.
    proof fn lemma_extent_count(self, slot: u32)
        requires
            self.wf(),
            slot < u32::MAX,
        ensures
            !(self.inner.extents.extents@.contains_key(slot)
                && self.inner.extents.extents@[slot].live()) ==> self.extents_live < u32::MAX,
            self.inner.extents.extents@.contains_key(slot)
                && self.inner.extents.extents@[slot].live() ==> self.extents_live > 0,
    {
        let extents = self.inner.extents.extents@;
        lemma_live_extents(extents, extents, slot);
        let marked = live_extents(extents);
        if !(extents.contains_key(slot) && extents[slot].live()) {
            assert(!marked.contains(slot as int));
            super::lemma_slots_bound(marked.insert(slot as int));
        } else {
            assert(marked.contains(slot as int));
            if marked.len() == 0 {
                assert(marked =~= Set::empty());
            }
        }
    }

    /// What the extents hold once only extent `slot` changed.
    proof fn lemma_extent_holds(self, before: Heap, slot: u32)
        requires
            self.same_but_extents(before),
            self.inner.extents.others_same(before.inner.extents, slot),
        ensures
            forall|addr: int|
                ({
                    let now = self.inner.extents.extents@.contains_key(slot)
                        && self.inner.extents.extents@[slot].state == ExtentState::Allocated
                        && self.inner.extents.extents@[slot].base == addr;
                    let was = before.inner.extents.extents@.contains_key(slot)
                        && before.inner.extents.extents@[slot].state == ExtentState::Allocated
                        && before.inner.extents.extents@[slot].base == addr;
                    (now == was ==> #[trigger] self.holds(addr) == before.holds(addr)) && (now
                        ==> self.holds(addr))
                }),
    {
        let extents = self.inner.extents.extents@;
        let old_extents = before.inner.extents.extents@;
        assert forall|addr: int|
            ({
                let now = extents.contains_key(slot) && extents[slot].state
                    == ExtentState::Allocated && extents[slot].base == addr;
                let was = old_extents.contains_key(slot) && old_extents[slot].state
                    == ExtentState::Allocated && old_extents[slot].base == addr;
                (now == was ==> #[trigger] self.holds(addr) == before.holds(addr)) && (now
                    ==> self.holds(addr))
            }) by {
            let now = extents.contains_key(slot) && extents[slot].state == ExtentState::Allocated
                && extents[slot].base == addr;
            if now {
                assert(self.inner.extents.holds(addr));
            }
            if self.inner.extents.holds(addr) {
                let other = choose|other: u32| #[trigger]
                    extents.contains_key(other) && extents[other].state == ExtentState::Allocated
                        && extents[other].base == addr;
                if other != slot {
                    assert(old_extents.contains_key(other));
                    assert(before.inner.extents.holds(addr));
                }
            }
            if before.inner.extents.holds(addr) {
                let other = choose|other: u32| #[trigger]
                    old_extents.contains_key(other) && old_extents[other].state
                        == ExtentState::Allocated && old_extents[other].base == addr;
                if other != slot {
                    assert(extents.contains_key(other));
                    assert(self.inner.extents.holds(addr));
                } else {
                    assert(old_extents.contains_key(slot));
                }
            }
        }
    }

    /// A block that a remote freer may hand in: one it holds, or one already claimed.
    pub open spec fn claimable(self, owner: PageOwner, ptr: usize) -> bool {
        match owner {
            PageOwner::Run { run, .. } => {
                let run = self.inner.runs.runs@[run];
                run.located(ptr) matches Ok(block) ==> block.index.index < run.bump
                    ==> run.outstanding(block.index.index as int)
            },
            PageOwner::Extent { .. } => true,
        }
    }

    /// The owner is one of this heap's runs or extents.
    pub open spec fn has_owner(self, owner: PageOwner) -> bool {
        &&& owner.spec_heap() == self.spec_index()
        &&& match owner {
            PageOwner::Run { run, .. } => self.inner.runs.runs@.contains_key(run),
            PageOwner::Extent { extent, .. } => self.inner.extents.extents@.contains_key(extent),
        }
    }

    /// What a remote claim of `ptr` gives.
    pub open spec fn claim_result(self, owner: PageOwner, ptr: usize) -> Result<(), HeapError> {
        match owner {
            PageOwner::Run { run, .. } => {
                let run = self.inner.runs.runs@[run];
                match run.located(ptr) {
                    Err(_) => Err(HeapError::InvalidRunPointer),
                    Ok(block) => if block.index.index >= run.bump || run.claims.has(
                        block.index.index as int,
                    ) {
                        Err(HeapError::DoubleFree)
                    } else {
                        Ok(())
                    },
                }
            },
            PageOwner::Extent { extent, .. } => {
                let extent = self.inner.extents.extents@[extent];
                if ptr == 0 || ptr != extent.base {
                    Err(HeapError::InvalidExtentPointer)
                } else if extent.state != ExtentState::Allocated {
                    Err(HeapError::DoubleFree)
                } else {
                    Ok(())
                }
            },
        }
    }

    /// The same blocks of `owner` are claimed.
    pub open spec fn same_claims(self, before: Heap, owner: PageOwner) -> bool {
        match owner {
            PageOwner::Run { run, .. } => forall|i: int| #[trigger]
                self.inner.runs.runs@[run].claims.has(i)
                    == before.inner.runs.runs@[run].claims.has(i),
            PageOwner::Extent { .. } => self.inner.extents.extents@
                == before.inner.extents.extents@,
        }
    }

    /// The block at `ptr` was claimed in `before`, and its owner waits on its inbox once.
    pub open spec fn claimed_once(self, before: Heap, owner: PageOwner, ptr: usize) -> bool {
        &&& self.state@ == before.state@
        &&& self.claimable(owner, ptr)
        &&& self.claim_result(owner, ptr) == Err::<(), HeapError>(HeapError::DoubleFree)
        &&& self.is_queued(owner)
        &&& self.run_inbox@ == before.run_queue(Some(owner))
        &&& self.extent_inbox@ == before.extent_queue(Some(owner))
    }

    /// Freer: claim a block before its owner is told.
    pub fn claim(&mut self, owner: PageOwner, ptr: usize, pages: &PageMap) -> (claimed: Result<
        (),
        HeapError,
    >)
        requires
            old(self).wf(),
            old(self).published(pages@),
            old(self).has_owner(owner),
            old(self).claimable(owner, ptr),
        ensures
            quiet(*old(self), *final(self)),
            final(self).is_queued(owner) == old(self).is_queued(owner),
            final(self).wf(),
            final(self).published(pages@),
            final(self).same_places(*old(self)),
            final(self).state == old(self).state,
            final(self).run_inbox == old(self).run_inbox,
            final(self).extent_inbox == old(self).extent_inbox,
            final(self).runs_live == old(self).runs_live,
            final(self).extents_live == old(self).extents_live,
            final(self).free_next == old(self).free_next,
            claimed == old(self).claim_result(owner, ptr),
            claimed is Ok ==> old(self).holds(ptr as int) && final(self).claim_result(owner, ptr)
                == Err::<(), HeapError>(HeapError::DoubleFree),
            forall|addr: int| #[trigger]
                final(self).holds(addr) == (old(self).holds(addr) && !(claimed is Ok && addr
                    == ptr)),
            claimed is Err ==> final(self).same_claims(*old(self), owner),
            final(self).claimable(owner, ptr),
            final(self).same_settings(*old(self)),
            final(self).inner.runs.tidy(old(self).inner.runs, None),
            match owner {
                PageOwner::Run { run, .. } => final(self).same_but_runs(*old(self)) && final(self).inner.runs.only(old(self).inner.runs, run) && final(self).inner.runs.runs@[run].same_but_claims(old(self).inner.runs.runs@[run]),
                PageOwner::Extent { extent, .. } => final(self).same_but_extents(*old(self))
                    && final(self).inner.extents.extents@ == old(self).inner.extents.extents@.insert(
                    extent,
                    Extent {
                        state: if claimed is Ok {
                            ExtentState::Claimed
                        } else {
                            old(self).inner.extents.extents@[extent].state
                        },
                        ..old(self).inner.extents.extents@[extent]
                    },
                ),
            },
    {
        let ghost before = *self;
        let ghost index = self.spec_index();
        match owner {
            PageOwner::Run { run: slot, .. } => {
                assert(before.inner.runs.run_wf(slot, index));
                let mut outcome: Result<(), RunError> = Err(RunError::OutOfRange);
                match self.inner.runs.runs.get_mut(slot) {
                    None => {},
                    Some(run) => {
                        outcome = run.claim(ptr);
                    },
                }
                proof {
                    let run = before.inner.runs.runs@[slot];
                    let after = self.inner.runs.runs@[slot];
                    before.inner.runs.lemma_set_run(self.inner.runs, slot, index);
                    self.lemma_run_changed(before, slot);
                    self.lemma_run_holds(before, slot);
                    self.lemma_same_places(before, pages@);
                    match run.located(ptr) {
                        Ok(block) => {
                            let i = block.index.index as int;
                            assert forall|j: int| #[trigger] after.outstanding(j)
                                == run.outstanding(j) by {}
                            if outcome is Ok {
                                assert forall|j: int| j != i implies #[trigger] after.held(j)
                                    == run.held(j) by {
                                    assert(after.claims.has(j) == run.claims.has(j));
                                }
                                assert(after.claims.has(i));
                                after.lemma_changed_holds(run, ptr, false);
                                before.lemma_only_run_holds(pages@, slot, ptr as int);
                                self.lemma_only_run_holds(pages@, slot, ptr as int);
                                assert(run.held(i));
                            } else {
                                assert forall|j: int| #[trigger] after.held(j) == run.held(j) by {
                                    assert(after.claims.has(j) == run.claims.has(j));
                                }
                                after.lemma_same_holds(run);
                            }
                        },
                        Err(_) => {},
                    }
                }
                match outcome {
                    Ok(()) => Ok(()),
                    Err(error) => Err(HeapError::from(error)),
                }
            },
            PageOwner::Extent { extent: slot, .. } => {
                proof {
                    self.inner.extents.extents.lemma_bounds();
                }
                let mut outcome: Result<(), ExtentError> = Err(ExtentError::InvalidPointer);
                match self.inner.extents.extents.get_mut(slot) {
                    None => {},
                    Some(extent) => {
                        outcome = extent.claim(ptr);
                    },
                }
                proof {
                    let extent = before.inner.extents.extents@[slot];
                    if outcome is Ok {
                        before.inner.extents.lemma_live_unlisted(slot, index);
                        before.inner.extents.lemma_set_loose(self.inner.extents, slot, index);
                    } else {
                        assert(self.inner.extents.extents@ =~= before.inner.extents.extents@);
                        before.inner.extents.lemma_same_extents(self.inner.extents, index);
                    }
                    self.lemma_extent_changed(before, slot);
                    self.lemma_extent_holds(before, slot);
                    self.lemma_same_places(before, pages@);
                    if outcome is Ok {
                        before.lemma_only_extent_holds(pages@, slot);
                        assert(before.inner.extents.extents@.contains_key(slot));
                        assert(before.inner.extents.holds(ptr as int));
                        assert(!self.holds(ptr as int)) by {
                            self.lemma_only_extent_holds(pages@, slot);
                            if self.inner.extents.holds(ptr as int) {
                                let other = choose|other: u32| #[trigger]
                                    self.inner.extents.extents@.contains_key(other)
                                        && self.inner.extents.extents@[other].state
                                        == ExtentState::Allocated
                                        && self.inner.extents.extents@[other].base == ptr;
                                assert(self.inner.extents.extents@[other].wf());
                            }
                        }
                    }
                }
                match outcome {
                    Ok(()) => Ok(()),
                    Err(error) => Err(HeapError::from(error)),
                }
            },
        }
    }
}

impl Heap {
    /// Whether the owner is already marked queued.
    pub open spec fn is_queued(self, owner: PageOwner) -> bool {
        match owner {
            PageOwner::Run { run, .. } => self.inner.runs.runs@[run].link.queued,
            PageOwner::Extent { extent, .. } => self.inner.extents.extents@[extent].link.queued,
        }
    }

    /// The run inbox once `owner` is queued.
    pub open spec fn run_queue(self, owner: Option<PageOwner>) -> Seq<u32> {
        match owner {
            Some(PageOwner::Run { run, .. }) if !self.inner.runs.runs@[run].link.queued => seq![run]
                + self.run_inbox@,
            _ => self.run_inbox@,
        }
    }

    /// The extent inbox once `owner` is queued.
    pub open spec fn extent_queue(self, owner: Option<PageOwner>) -> Seq<u32> {
        match owner {
            Some(
                PageOwner::Extent { extent, .. },
            ) if !self.inner.extents.extents@[extent].link.queued => seq![extent]
                + self.extent_inbox@,
            _ => self.extent_inbox@,
        }
    }

    /// Put an owner on its inbox unless it is there already.
    #[verifier::rlimit(40)]
    fn queue_owner(&mut self, owner: PageOwner, pages: &PageMap)
        requires
            old(self).wf(),
            old(self).published(pages@),
            old(self).has_owner(owner),
        ensures
            quiet(*old(self), *final(self)),
            final(self).wf(),
            final(self).published(pages@),
            final(self).same_places(*old(self)),
            final(self).state == old(self).state,
            final(self).free_next == old(self).free_next,
            final(self).runs_live == old(self).runs_live,
            final(self).extents_live == old(self).extents_live,
            final(self).run_inbox@ == old(self).run_queue(Some(owner)),
            final(self).extent_inbox@ == old(self).extent_queue(Some(owner)),
            final(self).is_queued(owner),
            final(self).queue_only(*old(self), owner),
            forall|addr: int| #[trigger] final(self).holds(addr) == old(self).holds(addr),
    {
        let ghost before = *self;
        let ghost index = self.spec_index();
        match owner {
            PageOwner::Run { run: slot, .. } => {
                assert(before.inner.runs.run_wf(slot, index));
                match self.inner.runs.runs.get_mut(slot) {
                    None => {},
                    Some(run) => {
                        let _pushed = self.run_inbox.queue(&mut run.link, slot);
                    },
                }
                proof {
                    let run = before.inner.runs.runs@[slot];
                    let after = self.inner.runs.runs@[slot];
                    let middle = Heap { run_inbox: before.run_inbox, ..*self };
                    assert forall|i: int| #[trigger] after.held(i) == run.held(i) by {}
                    before.inner.runs.lemma_set_run(self.inner.runs, slot, index);
                    middle.lemma_run_changed(before, slot);
                    after.lemma_same_holds(run);
                    middle.lemma_run_holds(before, slot);
                    assert forall|addr: int| #[trigger] self.holds(addr) == before.holds(addr) by {
                        assert(middle.holds(addr) == before.holds(addr));
                    }
                    let inbox = before.run_inbox@;
                    assert(!run.link.queued ==> !inbox.contains(slot)) by {
                        if inbox.contains(slot) {
                            let k = choose|k: int| 0 <= k < inbox.len() && inbox[k] == slot;
                            assert(before.inner.runs.runs@[inbox[k]].link.queued);
                        }
                    }
                    let now = self.run_inbox@;
                    assert forall|k: int| 0 <= k < now.len() implies
                        self.inner.runs.runs@.contains_key(#[trigger] now[k])
                        && self.inner.runs.runs@[now[k]].link.queued by {
                        if !run.link.queued {
                            if k > 0 {
                                assert(now[k] == inbox[k - 1]);
                            }
                        } else {
                            assert(now[k] == inbox[k]);
                        }
                    }
                    assert(now.no_duplicates());
                    self.lemma_same_places(before, pages@);
                }
            },
            PageOwner::Extent { extent: slot, .. } => {
                proof {
                    self.inner.extents.extents.lemma_bounds();
                }
                match self.inner.extents.extents.get_mut(slot) {
                    None => {},
                    Some(extent) => {
                        let _pushed = self.extent_inbox.queue(&mut extent.link, slot);
                    },
                }
                proof {
                    let extent = before.inner.extents.extents@[slot];
                    let after = self.inner.extents.extents@[slot];
                    let middle = Heap { extent_inbox: before.extent_inbox, ..*self };
                    before.inner.extents.lemma_set_link(self.inner.extents, slot, index);
                    middle.lemma_extent_changed(before, slot);
                    middle.lemma_extent_holds(before, slot);
                    assert forall|addr: int| #[trigger] self.holds(addr) == before.holds(addr) by {
                        assert(middle.holds(addr) == before.holds(addr));
                    }
                    let inbox = before.extent_inbox@;
                    assert(!extent.link.queued ==> !inbox.contains(slot)) by {
                        if inbox.contains(slot) {
                            let k = choose|k: int| 0 <= k < inbox.len() && inbox[k] == slot;
                            assert(before.inner.extents.extents@[inbox[k]].link.queued);
                        }
                    }
                    let now = self.extent_inbox@;
                    assert forall|k: int| 0 <= k < now.len() implies
                        self.inner.extents.extents@.contains_key(#[trigger] now[k])
                        && self.inner.extents.extents@[now[k]].link.queued by {
                        if !extent.link.queued {
                            if k > 0 {
                                assert(now[k] == inbox[k - 1]);
                            }
                        } else {
                            assert(now[k] == inbox[k]);
                        }
                    }
                    assert(now.no_duplicates());
                    self.lemma_same_places(before, pages@);
                }
            },
        }
    }

    /// Only the owner's queued mark changed in the metadata.
    pub open spec fn queue_only(self, before: Heap, owner: PageOwner) -> bool {
        match owner {
            PageOwner::Run { run, .. } => self.inner.extents == before.inner.extents
                && self.inner.runs.only(before.inner.runs, run) && self.inner.runs.runs@[run] == (
            Run { link: self.inner.runs.runs@[run].link, ..before.inner.runs.runs@[run] }),
            PageOwner::Extent { extent, .. } => self.inner.runs == before.inner.runs
                && self.inner.extents.cache == before.inner.extents.cache
                && self.inner.extents.hollow == before.inner.extents.hollow
                && self.inner.extents.hints == before.inner.extents.hints
                && self.inner.extents.room_kept(before.inner.extents)
                && self.inner.extents.extents@ == before.inner.extents.extents@.insert(
                extent,
                Extent {
                    link: self.inner.extents.extents@[extent].link,
                    ..before.inner.extents.extents@[extent]
                },
            ),
        }
    }

    /// Push or coalesce `owner` onto its inbox. Active freers only.
    ///
    /// An owner already queued coalesces with no lease. A new entry takes a lease
    /// while it is linked.
    pub fn enqueue(&mut self, id: HeapId, owner: PageOwner, pages: &PageMap) -> (enqueued: Result<
        (),
        HeapError,
    >)
        requires
            old(self).wf(),
            old(self).published(pages@),
            old(self).has_owner(owner),
            id.slot == old(self).slot,
        ensures
            quiet(*old(self), *final(self)),
            final(self).wf(),
            final(self).published(pages@),
            final(self).same_places(*old(self)),
            final(self).state@ == old(self).state@,
            final(self).free_next == old(self).free_next,
            final(self).runs_live == old(self).runs_live,
            final(self).extents_live == old(self).extents_live,
            enqueued == if old(self).is_queued(owner) {
                Ok::<(), HeapError>(())
            } else if old(self).spec_id() != id || old(self).state@.mode != HeapMode::Active {
                Err::<(), HeapError>(HeapError::InvalidHeap)
            } else if old(self).state@.leases == MAX_LEASES {
                Err::<(), HeapError>(HeapError::InvalidMetadata)
            } else {
                Ok::<(), HeapError>(())
            },
            enqueued is Ok ==> final(self).run_inbox@ == old(self).run_queue(Some(owner))
                && final(self).extent_inbox@ == old(self).extent_queue(Some(owner)) && final(self).is_queued(owner) && final(self).queue_only(*old(self), owner),
            final(self).same_settings(*old(self)),
            final(self).inner.runs.tidy(old(self).inner.runs, None),
            enqueued is Err ==> *final(self) == (Heap { state: final(self).state, ..*old(self) }),
            forall|addr: int| #[trigger] final(self).holds(addr) == old(self).holds(addr),
    {
        let ghost before = *self;
        let queued = match owner {
            PageOwner::Run { run, .. } => match self.inner.runs.runs.get(run) {
                Some(run) => run.link.is_queued(),
                None => false,
            },
            PageOwner::Extent { extent, .. } => match self.inner.extents.extents.get(extent) {
                Some(extent) => extent.link.is_queued(),
                None => false,
            },
        };
        if queued {
            proof {
                match owner {
                    PageOwner::Run { run, .. } => {
                        assert(self.inner.runs.runs@ =~= before.inner.runs.runs@.insert(
                            run,
                            self.inner.runs.runs@[run],
                        ));
                    },
                    PageOwner::Extent { extent, .. } => {
                        assert(self.inner.extents.extents@
                            =~= before.inner.extents.extents@.insert(
                            extent,
                            self.inner.extents.extents@[extent],
                        ));
                    },
                }
            }
            return Ok(());
        }
        match self.state.acquire_lease(id) {
            Err(error) => {
                proof {
                    self.lemma_same_places(before, pages@);
                    assert forall|addr: int| #[trigger] self.holds(addr) == before.holds(addr) by {}
                }
                Err(error)
            },
            Ok(lease) => {
                let ghost leased = *self;
                proof {
                    self.lemma_same_places(before, pages@);
                }
                self.queue_owner(owner, pages);
                let ghost linked = *self;
                self.state.release_lease(lease);
                proof {
                    self.lemma_same_places(linked, pages@);
                    assert forall|addr: int| #[trigger] self.holds(addr) == before.holds(addr) by {
                        assert(leased.holds(addr) == before.holds(addr));
                        assert(linked.holds(addr) == leased.holds(addr));
                        assert(self.holds(addr) == linked.holds(addr));
                    }
                    assert(leased.run_queue(Some(owner)) == before.run_queue(Some(owner)));
                    assert(leased.extent_queue(Some(owner)) == before.extent_queue(Some(owner)));
                }
                Ok(())
            },
        }
    }

    /// Accept the claims of one run that is off the inbox.
    fn accept_run(&mut self, slot: u32, pages: &PageMap, os: &mut Os) -> (accepted: Result<
        Accept,
        HeapError,
    >)
        requires
            old(self).wf(),
            old(self).published(pages@),
            old(self).inner.runs.runs@.contains_key(slot),
            !old(self).run_inbox@.contains(slot),
            old(os).wf(),
        ensures
            settled(*old(self), *final(self)),
            spares(
                *old(self),
                *final(self),
                old(os).effects@,
                final(os).effects@,
                old(os).discards,
                None,
            ),
            accepted == Ok::<Accept, HeapError>(Accept::Done),
            final(self).wf(),
            final(self).published(pages@),
            final(self).same_places(*old(self)),
            final(self).same_but_runs(*old(self)),
            final(self).inner.runs.only(old(self).inner.runs, slot),
            accepted_run(old(self).inner.runs.runs@[slot], final(self).inner.runs.runs@[slot]),
            final(os).wf(),
            final(os).grant == old(os).grant,
            final(os).wanted == old(os).wanted,
            final(os).discards == old(os).discards,
            forall|addr: int| #[trigger] final(self).holds(addr) == old(self).holds(addr),
    {
        let ghost before = *self;
        let ghost index = self.spec_index();
        assert(before.inner.runs.run_wf(slot, index));
        proof {
            before.lemma_run_count(slot);
        }
        let was_live = match self.inner.runs.runs.get(slot) {
            Some(run) => run.is_live(),
            None => false,
        };
        let accepted = self.inner.runs.accept(slot, Ghost(index), os);
        let now_live = match self.inner.runs.runs.get(slot) {
            Some(run) => run.is_live(),
            None => false,
        };
        if was_live && !now_live {
            self.runs_live = self.runs_live - 1;
        }
        proof {
            let run = before.inner.runs.runs@[slot];
            let after = self.inner.runs.runs@[slot];
            self.lemma_run_changed(before, slot);
            assert forall|i: int| #[trigger] after.held(i) == run.held(i) by {
                assert(after.outstanding(i) == (run.outstanding(i) && !run.claims.has(i)));
            }
            after.lemma_same_holds(run);
            self.lemma_run_holds(before, slot);
            self.lemma_same_places(before, pages@);
            lemma_run_step(before, *self, slot, old(os).effects@, os.effects@, os.discards);
        }
        accepted
    }

    /// Complete the claimed free of one extent that is off the inbox.
    fn accept_extent(&mut self, slot: u32, pages: &mut PageMap, os: &mut Os) -> (accepted: Result<
        (),
        HeapError,
    >)
        requires
            old(self).wf(),
            old(self).published(old(pages)@),
            old(self).inner.extents.extents@.contains_key(slot),
            !old(self).extent_inbox@.contains(slot),
            old(os).wf(),
        ensures
            forall|page: usize| #[trigger]
                final(pages)@.contains_key(page) ==> old(pages)@.contains_key(page),
            settled(*old(self), *final(self)),
            spares(
                *old(self),
                *final(self),
                old(os).effects@,
                final(os).effects@,
                old(os).discards,
                None,
            ),
            final(self).wf(),
            final(self).published(final(pages)@),
            others_kept(old(pages)@, final(pages)@, old(self).spec_index()),
            final(self).same_but_extents(*old(self)),
            final(self).inner.extents.others_same(old(self).inner.extents, slot),
            final(self).inner.extents.extents@.contains_key(slot),
            accepted == match accept_error(old(self).inner.extents.extents@[slot]) {
                Some(error) => Err::<(), HeapError>(error),
                None => Ok::<(), HeapError>(()),
            },
            accepted is Ok ==> final(self).inner.extents.extents@[slot].state == ExtentState::Free
                && !final(self).inner.extents.extents@[slot].link.queued,
            accepted is Err ==> final(self).inner.extents.extents@ == old(self).inner.extents.extents@ && final(pages)@ == old(pages)@,
            accepted is Ok ==> final(self).inner.extents.released(
                old(self).inner.extents,
                slot,
                old(self).spec_index(),
                final(pages)@,
                old(pages)@,
                final(os).effects@,
                old(os).effects@,
            ),
            final(self).inner.extents.room_kept(old(self).inner.extents),
            final(self).inner.extents.hints == old(self).inner.extents.hints,
            final(self).inner.extents.cache.config == old(self).inner.extents.cache.config,
            final(os).wf(),
            final(os).grant == old(os).grant,
            final(os).wanted == old(os).wanted,
            final(os).discards == old(os).discards,
            forall|addr: int| #[trigger] final(self).holds(addr) == old(self).holds(addr),
    {
        let ghost before = *self;
        let ghost index = self.spec_index();
        proof {
            self.inner.extents.extents.lemma_bounds();
            before.lemma_extent_count(slot);
        }
        let ptr: usize = match self.inner.extents.extents.get(slot) {
            Some(extent) => extent.ptr(),
            None => 0,
        };
        let heap_index: u32 = self.index();
        let ghost old_pages = pages@;
        let accepted = self.inner.extents.accept(slot, ptr, heap_index, pages, os);
        if accepted.is_ok() {
            self.extents_live = self.extents_live - 1;
        }
        proof {
            if accepted is Err {
                assert(self.inner.extents.others_same(before.inner.extents, slot));
            }
            self.lemma_extent_changed(before, slot);
            self.lemma_extent_holds(before, slot);
            super::lemma_runs_kept(self.inner.runs.runs@, old_pages, pages@, index);
            if accepted is Ok {
                assert(before.inner.extents.extents@[slot].wf());
                lemma_extent_step(
                    before,
                    *self,
                    slot,
                    old(os).effects@,
                    os.effects@,
                    os.discards,
                );
            } else {
                lemma_same_parts(before, *self, os.effects@, os.discards);
            }
        }
        accepted
    }

    /// Accept everything on the run inbox.
    fn flush_runs(&mut self, pages: &PageMap, os: &mut Os) -> (flushed: Result<(), HeapError>)
        requires
            old(self).wf(),
            old(self).published(pages@),
            old(os).wf(),
        ensures
            settled(*old(self), *final(self)),
            spares(
                *old(self),
                *final(self),
                old(os).effects@,
                final(os).effects@,
                old(os).discards,
                None,
            ),
            flushed == Ok::<(), HeapError>(()),
            final(self).wf(),
            final(self).published(pages@),
            final(self).same_places(*old(self)),
            final(self).run_inbox@ == Seq::<u32>::empty(),
            final(self).extent_inbox == old(self).extent_inbox,
            final(self).inner.extents == old(self).inner.extents,
            final(self).extents_live == old(self).extents_live,
            final(self).state == old(self).state,
            final(self).free_next == old(self).free_next,
            flushed_runs(old(self).inner.runs, final(self).inner.runs, old(self).run_inbox@),
            old(self).run_inbox@.len() == 0 ==> final(self).inner.runs == old(self).inner.runs && final(os).effects == old(os).effects,
            final(os).wf(),
            final(os).grant == old(os).grant,
            final(os).wanted == old(os).wanted,
            final(os).discards == old(os).discards,
            forall|addr: int| #[trigger] final(self).holds(addr) == old(self).holds(addr),
    {
        let ghost before = *self;
        let chain = self.run_inbox.drain();
        let ghost queue = chain@;
        assert forall|k: int| 0 <= k < queue.len() implies before.inner.runs.runs@.contains_key(
            #[trigger] queue[k],
        ) by {
            assert(before.run_inbox@[k] == queue[k]);
        }
        assert forall|addr: int| #[trigger] self.holds(addr) == before.holds(addr) by {}
        proof {
            self.lemma_same_places(before, pages@);
        }
        proof {
            lemma_same_parts(before, *self, os.effects@, os.discards);
        }
        let mut i: usize = 0;
        while i < chain.len()
            invariant
                chain@ == queue,
                i <= queue.len(),
                queue.no_duplicates(),
                self.wf(),
                self.published(pages@),
                self.same_places(before),
                self.run_inbox@ == Seq::<u32>::empty(),
                self.extent_inbox == before.extent_inbox,
                self.inner.extents == before.inner.extents,
                self.extents_live == before.extents_live,
                self.state == before.state,
                self.free_next == before.free_next,
                settled(before, *self),
                spares(before, *self, old(os).effects@, os.effects@, os.discards, None),
                os.wf(),
                os.grant == old(os).grant,
                os.wanted == old(os).wanted,
                os.discards == old(os).discards,
                self.inner.runs.maps_same(before.inner.runs),
                self.inner.runs.slots_same(before.inner.runs),
                i == 0 ==> self.inner.runs == before.inner.runs && os.effects == old(os).effects,
                forall|k: int|
                    0 <= k < queue.len() ==> before.inner.runs.runs@.contains_key(
                        #[trigger] queue[k],
                    ),
                forall|slot: u32|
                    #![trigger self.inner.runs.runs@.contains_key(slot)]
                    #![trigger before.inner.runs.runs@.contains_key(slot)]
                    #![trigger self.inner.runs.runs@[slot]]
                    self.inner.runs.runs@.contains_key(slot)
                        == before.inner.runs.runs@.contains_key(slot) && (
                    before.inner.runs.runs@.contains_key(slot) ==> if queue.take(
                        i as int,
                    ).contains(slot) {
                        accepted_run(before.inner.runs.runs@[slot], self.inner.runs.runs@[slot])
                    } else {
                        self.inner.runs.runs@[slot] == before.inner.runs.runs@[slot]
                    }),
                forall|addr: int| #[trigger] self.holds(addr) == before.holds(addr),
            decreases queue.len() - i,
        {
            let slot: u32 = chain[i];
            let ghost round_effects = os.effects@;
            let ghost round = *self;
            assert(before.inner.runs.runs@.contains_key(queue[i as int]));
            assert(!queue.take(i as int).contains(slot)) by {
                if queue.take(i as int).contains(slot) {
                    let k = choose|k: int|
                        0 <= k < i && queue.take(i as int)[k] == slot;
                    assert(queue[k] == queue[i as int]);
                }
            }
            let accepted = self.accept_run(slot, pages, os);
            let requeue = match accepted {
                Ok(outcome) => outcome == Accept::Requeue,
                Err(error) => {
                    return Err(error);
                },
            };
            if requeue {
                self.queue_owner(PageOwner::Run { heap: self.index(), run: slot }, pages);
            }
            proof {
                lemma_spares_then(
                    before,
                    round,
                    *self,
                    old(os).effects@,
                    round_effects,
                    os.effects@,
                    os.discards,
                    None,
                );
                lemma_settled_trans(before, round, *self);
                let next = queue.take(i + 1);
                assert forall|other: u32|
                    #![trigger self.inner.runs.runs@.contains_key(other)]
                    #![trigger before.inner.runs.runs@.contains_key(other)]
                    #![trigger self.inner.runs.runs@[other]]
                    self.inner.runs.runs@.contains_key(other)
                        == before.inner.runs.runs@.contains_key(other) && (
                    before.inner.runs.runs@.contains_key(other) ==> if next.contains(other) {
                        accepted_run(before.inner.runs.runs@[other], self.inner.runs.runs@[other])
                    } else {
                        self.inner.runs.runs@[other] == before.inner.runs.runs@[other]
                    }) by {
                    assert(round.inner.runs.runs@.contains_key(other)
                        == before.inner.runs.runs@.contains_key(other));
                    if other == slot {
                        assert(next[i as int] == slot);
                    } else {
                        assert(next.contains(other) == queue.take(i as int).contains(other)) by {
                            if next.contains(other) {
                                let k = choose|k: int| 0 <= k < next.len() && next[k] == other;
                                assert(queue.take(i as int)[k] == other);
                            }
                            if queue.take(i as int).contains(other) {
                                let k = choose|k: int|
                                    0 <= k < i && queue.take(i as int)[k] == other;
                                assert(next[k] == other);
                            }
                        }
                    }
                }
                assert forall|addr: int| #[trigger] self.holds(addr) == before.holds(addr) by {
                    assert(round.holds(addr) == before.holds(addr));
                }
            }
            i = i + 1;
        }
        assert(queue.take(queue.len() as int) =~= queue);
        Ok(())
    }
}

/// `after` is `before` once its claims were accepted.
pub open spec fn accepted_run(before: Run, after: Run) -> bool {
    &&& after.same_shape(before)
    &&& after.claims.none()
    &&& !after.link.queued
    &&& after.live == before.live - before.all_claimed().len()
    &&& forall|i: int| #[trigger]
        after.outstanding(i) == (before.outstanding(i) && !before.claims.has(i))
    &&& before.live == before.capacity && after.live < after.capacity ==> after.available
        != AvailableLink::Unlisted
    &&& before.available != AvailableLink::Unlisted ==> after.available != AvailableLink::Unlisted
    &&& if before.accept_discards() {
        after.bump == 0 && after.free@ == Seq::<usize>::empty()
    } else {
        after.bump == before.bump && after.free@ == before.all_claimed() + before.free@
    }
}

/// Every queued run was accepted; every other run is as before.
pub open spec fn flushed_runs(before: RunHeap, after: RunHeap, queue: Seq<u32>) -> bool {
    &&& after.maps_same(before)
    &&& after.slots_same(before)
    &&& forall|slot: u32|
        #![trigger after.runs@.contains_key(slot)]
        #![trigger before.runs@.contains_key(slot)]
        #![trigger after.runs@[slot]]
        after.runs@.contains_key(slot) == before.runs@.contains_key(slot) && (
        before.runs@.contains_key(slot) ==> if queue.contains(slot) {
            accepted_run(before.runs@[slot], after.runs@[slot])
        } else {
            after.runs@[slot] == before.runs@[slot]
        })
}

/// Slots that are not queued hold the same extents, up to list links; queued ones up
/// to the first error are free.
pub open spec fn flushed_extents(
    before: Map<u32, Extent>,
    after: Map<u32, Extent>,
    queue: Seq<u32>,
) -> bool {
    forall|slot: u32|
        #![trigger after.contains_key(slot)]
        #![trigger before.contains_key(slot)]
        #![trigger after[slot]]
        after.contains_key(slot) == before.contains_key(slot) && (before.contains_key(slot)
            ==> if queue.contains(slot) {
            after[slot].state == ExtentState::Free && !after[slot].link.queued
        } else {
            after[slot] == (Extent { next: after[slot].next, ..before[slot] })
        })
}

impl Heap {
    /// Accept everything on the extent inbox, up to the first extent that cannot be.
    fn flush_extents(&mut self, pages: &mut PageMap, os: &mut Os) -> (flushed: Result<
        (),
        HeapError,
    >)
        requires
            old(self).wf(),
            old(self).published(old(pages)@),
            old(os).wf(),
        ensures
            forall|page: usize| #[trigger]
                final(pages)@.contains_key(page) ==> old(pages)@.contains_key(page),
            settled(*old(self), *final(self)),
            spares(
                *old(self),
                *final(self),
                old(os).effects@,
                final(os).effects@,
                old(os).discards,
                None,
            ),
            flushed == match first_error(
                old(self).inner.extents.extents@,
                old(self).extent_inbox@,
            ) {
                Some(error) => Err::<(), HeapError>(error),
                None => Ok::<(), HeapError>(()),
            },
            final(self).wf(),
            final(self).published(final(pages)@),
            others_kept(old(pages)@, final(pages)@, old(self).spec_index()),
            final(self).extent_inbox@ == Seq::<u32>::empty(),
            final(self).run_inbox == old(self).run_inbox,
            final(self).inner.runs == old(self).inner.runs,
            final(self).runs_live == old(self).runs_live,
            final(self).state == old(self).state,
            final(self).slot == old(self).slot,
            final(self).free_next == old(self).free_next,
            final(self).inner.extents.cache.config == old(self).inner.extents.cache.config,
            final(self).inner.extents.room_kept(old(self).inner.extents),
            final(self).inner.extents.hints == old(self).inner.extents.hints,
            forall|slot: u32| #[trigger]
                old(self).inner.extents.extents@.contains_key(slot) ==> final(self).inner.extents.extents@.contains_key(slot),
            flushed is Ok ==> flushed_extents(
                old(self).inner.extents.extents@,
                final(self).inner.extents.extents@,
                old(self).extent_inbox@,
            ),
            old(self).extent_inbox@.len() == 0 ==> final(self).inner.extents == old(self).inner.extents && final(pages)@ == old(pages)@ && final(os).effects == old(os).effects,
            final(os).wf(),
            final(os).grant == old(os).grant,
            final(os).wanted == old(os).wanted,
            final(os).discards == old(os).discards,
            forall|addr: int| #[trigger] final(self).holds(addr) == old(self).holds(addr),
    {
        let ghost before = *self;
        let ghost index = self.spec_index();
        let ghost all = before.inner.extents.extents@;
        let ghost old_pages = pages@;
        let chain = self.extent_inbox.drain();
        let ghost queue = chain@;
        assert forall|k: int| 0 <= k < queue.len() implies all.contains_key(#[trigger] queue[k]) by {
            assert(before.extent_inbox@[k] == queue[k]);
        }
        assert forall|addr: int| #[trigger] self.holds(addr) == before.holds(addr) by {}
        proof {
            self.lemma_same_places(before, pages@);
        }
        assert(queue.skip(0) =~= queue);
        proof {
            lemma_same_parts(before, *self, os.effects@, os.discards);
        }
        let mut i: usize = 0;
        while i < chain.len()
            invariant
                chain@ == queue,
                queue == before.extent_inbox@,
                i <= queue.len(),
                queue.no_duplicates(),
                before == *old(self),
                old_pages == old(pages)@,
                all == before.inner.extents.extents@,
                self.wf(),
                self.published(pages@),
                index == before.spec_index(),
                self.slot == before.slot,
                others_kept(old_pages, pages@, index),
                self.extent_inbox@ == Seq::<u32>::empty(),
                self.run_inbox == before.run_inbox,
                self.inner.runs == before.inner.runs,
                self.runs_live == before.runs_live,
                self.state == before.state,
                self.free_next == before.free_next,
                self.inner.extents.cache.config == before.inner.extents.cache.config,
                self.inner.extents.room_kept(before.inner.extents),
                self.inner.extents.hints == before.inner.extents.hints,
                forall|page: usize| #[trigger]
                    pages@.contains_key(page) ==> old_pages.contains_key(page),
                settled(before, *self),
                spares(before, *self, old(os).effects@, os.effects@, os.discards, None),
                os.wf(),
                os.grant == old(os).grant,
                os.wanted == old(os).wanted,
                os.discards == old(os).discards,
                i == 0 ==> self.inner.extents == before.inner.extents && pages@ == old_pages
                    && os.effects == old(os).effects,
                first_error(all, queue) == first_error(all, queue.skip(i as int)),
                forall|k: int| 0 <= k < queue.len() ==> all.contains_key(#[trigger] queue[k]),
                flushed_extents(all, self.inner.extents.extents@, queue.take(i as int)),
                forall|addr: int| #[trigger] self.holds(addr) == before.holds(addr),
            decreases queue.len() - i,
        {
            let slot: u32 = chain[i];
            let ghost round_effects = os.effects@;
            let ghost round = *self;
            let ghost round_pages = pages@;
            let ghost done = queue.take(i as int);
            assert(all.contains_key(queue[i as int]));
            assert(!done.contains(slot)) by {
                if done.contains(slot) {
                    let k = choose|k: int| 0 <= k < i && done[k] == slot;
                    assert(queue[k] == queue[i as int]);
                }
            }
            assert(self.inner.extents.extents@.contains_key(slot));
            assert(queue.skip(i as int)[0] == slot);
            let accepted = self.accept_extent(slot, pages, os);
            proof {
                lemma_spares_then(
                    before,
                    round,
                    *self,
                    old(os).effects@,
                    round_effects,
                    os.effects@,
                    os.discards,
                    None,
                );
                lemma_settled_trans(before, round, *self);
                crate::memory::lemma_others_kept_trans(old_pages, round_pages, pages@, index);
                assert forall|addr: int| #[trigger] self.holds(addr) == before.holds(addr) by {
                    assert(round.holds(addr) == before.holds(addr));
                }
            }
            match accepted {
                Err(error) => {
                    return Err(error);
                },
                Ok(()) => {},
            }
            proof {
                assert(queue.skip(i as int).skip(1) =~= queue.skip(i + 1));
                let next = queue.take(i + 1);
                let extents = self.inner.extents.extents@;
                assert forall|other: u32|
                    #![trigger extents.contains_key(other)]
                    #![trigger all.contains_key(other)]
                    #![trigger extents[other]]
                    extents.contains_key(other) == all.contains_key(other) && (all.contains_key(
                        other,
                    ) ==> if next.contains(other) {
                        extents[other].state == ExtentState::Free && !extents[other].link.queued
                    } else {
                        extents[other] == (Extent { next: extents[other].next, ..all[other] })
                    }) by {
                    assert(round.inner.extents.extents@.contains_key(other) == all.contains_key(
                        other,
                    ));
                    if other == slot {
                        assert(next[i as int] == slot);
                    } else {
                        assert(next.contains(other) == done.contains(other)) by {
                            if next.contains(other) {
                                let k = choose|k: int| 0 <= k < next.len() && next[k] == other;
                                assert(done[k] == other);
                            }
                            if done.contains(other) {
                                let k = choose|k: int| 0 <= k < i && done[k] == other;
                                assert(next[k] == other);
                            }
                        }
                    }
                }
            }
            i = i + 1;
        }
        assert(queue.take(queue.len() as int) =~= queue);
        assert(first_error(all, queue.skip(queue.len() as int)) is None);
        Ok(())
    }

    /// Drain both inboxes into the run and extent metadata.
    ///
    /// `owner` is queued first, so that a claimed remote is accepted in the same pass.
    #[verifier::rlimit(40)]
    pub fn flush(&mut self, owner: Option<PageOwner>, pages: &mut PageMap, os: &mut Os) -> (flushed:
        Result<(), HeapError>)
        requires
            old(self).wf(),
            old(self).published(old(pages)@),
            owner matches Some(owner) ==> old(self).has_owner(owner),
            old(os).wf(),
        ensures
            forall|page: usize| #[trigger]
                final(pages)@.contains_key(page) ==> old(pages)@.contains_key(page),
            settled(*old(self), *final(self)),
            spares(
                *old(self),
                *final(self),
                old(os).effects@,
                final(os).effects@,
                old(os).discards,
                None,
            ),
            flushed == match first_error(
                old(self).inner.extents.extents@,
                old(self).extent_queue(owner),
            ) {
                Some(error) => Err::<(), HeapError>(error),
                None => Ok::<(), HeapError>(()),
            },
            final(self).wf(),
            final(self).published(final(pages)@),
            others_kept(old(pages)@, final(pages)@, old(self).spec_index()),
            final(self).run_inbox@ == Seq::<u32>::empty(),
            final(self).extent_inbox@ == Seq::<u32>::empty(),
            final(self).state == old(self).state,
            final(self).slot == old(self).slot,
            final(self).free_next == old(self).free_next,
            final(self).inner.extents.cache.config == old(self).inner.extents.cache.config,
            flushed_all(*old(self), *final(self), owner, flushed is Ok),
            final(self).inner.runs.tidy(old(self).inner.runs, None),
            owner is None && old(self).extent_inbox@.len() == 0 ==> final(self).inner.extents
                == old(self).inner.extents && final(pages)@ == old(pages)@,
            owner is None && old(self).run_inbox@.len() == 0 && old(self).extent_inbox@.len() == 0 ==> final(self).inner == old(self).inner && final(os).effects == old(os).effects,
            final(os).wf(),
            final(os).grant == old(os).grant,
            final(os).wanted == old(os).wanted,
            final(os).discards == old(os).discards,
            forall|addr: int| #[trigger] final(self).holds(addr) == old(self).holds(addr),
    {
        let ghost before = *self;
        let ghost index = self.spec_index();
        match owner {
            Some(owner) => {
                self.queue_owner(owner, pages);
            },
            None => {},
        }
        let ghost queued = *self;
        proof {
            let queue = before.extent_queue(owner);
            assert forall|k: int| 0 <= k < queue.len() implies
                before.inner.extents.extents@[#[trigger] queue[k]].state
                == queued.inner.extents.extents@[queue[k]].state
                && before.inner.extents.extents@[queue[k]].base
                == queued.inner.extents.extents@[queue[k]].base by {}
            lemma_first_error_same(
                before.inner.extents.extents@,
                queued.inner.extents.extents@,
                queue,
            );
        }
        proof {
            lemma_same_parts(before, queued, os.effects@, os.discards);
        }
        match self.flush_runs(pages, os) {
            Ok(()) => {},
            Err(error) => {
                return Err(error);
            },
        }
        let ghost drained_effects = os.effects@;
        let ghost drained = *self;
        let flushed = self.flush_extents(pages, os);
        proof {
            lemma_flush_spares(
                before,
                queued,
                drained,
                *self,
                old(os).effects@,
                drained_effects,
                os.effects@,
                os.discards,
            );
            lemma_flushed_runs(before, queued, drained, owner);
            if flushed is Ok {
                lemma_flushed_extents(before, queued, *self, owner);
            }
            assert forall|addr: int| #[trigger] self.holds(addr) == before.holds(addr) by {
                assert(queued.holds(addr) == before.holds(addr));
                assert(drained.holds(addr) == queued.holds(addr));
            }
            lemma_flushed_tidy(before, *self, owner, flushed is Ok);
        }
        flushed
    }
}

/// `queued` is `before` with `owner` on its inbox.
spec fn queued_from(before: Heap, queued: Heap, owner: Option<PageOwner>) -> bool {
    match owner {
        None => queued == before,
        Some(owner) => queued.queue_only(before, owner) && queued.is_queued(owner)
            && before.has_owner(owner),
    }
}

/// Runs accepted after queueing `owner` are runs accepted.
proof fn lemma_flushed_runs(before: Heap, queued: Heap, drained: Heap, owner: Option<PageOwner>)
    requires
        queued_from(before, queued, owner),
        flushed_runs(queued.inner.runs, drained.inner.runs, before.run_queue(owner)),
    ensures
        drained.inner.runs.maps_same(before.inner.runs),
        drained.inner.runs.slots_same(before.inner.runs),
        flushed_runs(before.inner.runs, drained.inner.runs, before.run_queue(owner)),
{
    let was = before.inner.runs.runs@;
    let middle = queued.inner.runs.runs@;
    let now = drained.inner.runs.runs@;
    let queue = before.run_queue(owner);
    assert forall|slot: u32|
        #![trigger now.contains_key(slot)]
        #![trigger was.contains_key(slot)]
        #![trigger now[slot]]
        now.contains_key(slot) == was.contains_key(slot) && (was.contains_key(slot)
            ==> if queue.contains(slot) {
            accepted_run(was[slot], now[slot])
        } else {
            now[slot] == was[slot]
        }) by {
        assert(middle.contains_key(slot) == was.contains_key(slot));
        if was.contains_key(slot) {
            if middle[slot] == was[slot] {
            } else if queue.contains(slot) {
                assert(accepted_run(middle[slot], now[slot]));
                was[slot].lemma_same_claimed(
                    middle[slot],
                    (was[slot].claims.words@.len() * 64) as nat,
                );
                assert forall|i: int| #[trigger] now[slot].outstanding(i) == (
                was[slot].outstanding(i) && !was[slot].claims.has(i)) by {
                    assert(middle[slot].outstanding(i) == was[slot].outstanding(i));
                }
            } else {
                if !was[slot].link.queued {
                    assert(queue[0] == slot);
                }
                assert(middle[slot].link == was[slot].link);
            }
        }
    }
}

/// Extents accepted after queueing `owner` are extents accepted.
proof fn lemma_flushed_extents(before: Heap, queued: Heap, after: Heap, owner: Option<PageOwner>)
    requires
        queued_from(before, queued, owner),
        flushed_extents(
            queued.inner.extents.extents@,
            after.inner.extents.extents@,
            before.extent_queue(owner),
        ),
    ensures
        flushed_extents(
            before.inner.extents.extents@,
            after.inner.extents.extents@,
            before.extent_queue(owner),
        ),
{
    let was = before.inner.extents.extents@;
    let middle = queued.inner.extents.extents@;
    let now = after.inner.extents.extents@;
    let queue = before.extent_queue(owner);
    assert forall|slot: u32|
        #![trigger now.contains_key(slot)]
        #![trigger was.contains_key(slot)]
        #![trigger now[slot]]
        now.contains_key(slot) == was.contains_key(slot) && (was.contains_key(slot)
            ==> if queue.contains(slot) {
            now[slot].state == ExtentState::Free && !now[slot].link.queued
        } else {
            now[slot] == (Extent { next: now[slot].next, ..was[slot] })
        }) by {
        assert(middle.contains_key(slot) == was.contains_key(slot));
        if was.contains_key(slot) && middle[slot] != was[slot] && !was[slot].link.queued {
            assert(queue[0] == slot);
        }
    }
}

/// Taking claims in loses no run with room.
pub proof fn lemma_flushed_tidy(before: Heap, after: Heap, owner: Option<PageOwner>, ok: bool)
    requires
        before.wf(),
        flushed_all(before, after, owner, ok),
    ensures
        after.inner.runs.tidy(before.inner.runs, None),
{
    assert forall|slot: u32| #[trigger] after.inner.runs.loose(slot) implies before.inner.runs.loose(
        slot,
    ) by {
        assert(before.inner.runs.runs@.contains_key(slot));
        assert(before.inner.runs.run_wf(slot, before.spec_index()));
        before.inner.runs.runs@[slot].lemma_live_bound();
    }
}

/// What other threads freed waits on the heap's inboxes: every run with a claimed block and
/// every claimed extent is queued.
pub open spec fn claims_queued(heap: Heap) -> bool {
    &&& forall|slot: u32| #[trigger]
        heap.inner.runs.runs@.contains_key(slot) && !heap.run_inbox@.contains(slot)
            ==> heap.inner.runs.runs@[slot].claims.none()
    &&& forall|slot: u32| #[trigger]
        heap.inner.extents.extents@.contains_key(slot) && !heap.extent_inbox@.contains(slot)
            ==> heap.inner.extents.extents@[slot].state != ExtentState::Claimed
}

/// A heap whose blocks were all given back, by its owner or by other threads, has nothing
/// left in use once its inboxes were taken in.
pub proof fn law_emptied_heap_is_idle(before: Heap, after: Heap)
    requires
        before.wf(),
        after.wf(),
        forall|addr: int| !#[trigger] before.holds(addr),
        claims_queued(before),
        flushed_all(before, after, None, true),
        after.run_inbox@.len() == 0,
        after.extent_inbox@.len() == 0,
    ensures
        after.idle(),
        forall|slot: u32| #[trigger]
            after.inner.runs.runs@.contains_key(slot) ==> after.inner.runs.runs@[slot].live == 0
                && after.inner.runs.runs@[slot].claims.none(),
        forall|slot: u32| #[trigger]
            after.inner.extents.extents@.contains_key(slot)
                ==> after.inner.extents.extents@[slot].state == ExtentState::Free,
{
    let runs = before.inner.runs.runs@;
    let now = after.inner.runs.runs@;
    assert forall|slot: u32| #[trigger] now.contains_key(slot) implies now[slot].live == 0
        && now[slot].claims.none() by {
        assert(runs.contains_key(slot));
        assert(before.inner.runs.run_wf(slot, before.spec_index()));
        assert(after.inner.runs.run_wf(slot, after.spec_index()));
        let run = runs[slot];
        assert forall|i: int| #[trigger] run.outstanding(i) implies run.claims.has(i) by {
            if !run.claims.has(i) {
                run.lemma_block(i);
                assert(run.holds(run.block_addr(i)));
                assert(before.holds(run.block_addr(i)));
            }
        }
        assert forall|i: int| !#[trigger] now[slot].outstanding(i) by {
            if before.run_inbox@.contains(slot) {
                assert(now[slot].outstanding(i) == (run.outstanding(i) && !run.claims.has(i)));
            } else {
                assert(now[slot] == run);
                assert(!run.claims.has(i));
            }
        }
        now[slot].lemma_all_free();
        now[slot].lemma_none_outstanding();
    }
    let extents = before.inner.extents.extents@;
    let left = after.inner.extents.extents@;
    assert forall|slot: u32| #[trigger] left.contains_key(slot) implies left[slot].state
        == ExtentState::Free by {
        assert(extents.contains_key(slot));
        if !before.extent_inbox@.contains(slot) && left[slot].state != ExtentState::Free {
            assert(before.holds(extents[slot].base as int));
        }
    }
    assert(live_runs(now) =~= Set::<int>::empty());
    assert(live_extents(left) =~= Set::<int>::empty());
}

/// A request for `spec` that no mapping on offer could serve left the system a request for
/// exactly the pages that the layout takes.
pub open spec fn wanting_pages(spec: LayoutSpec, os: Os, after: Os) -> bool {
    let len = spec.spec_mapping_len(PAGE_SIZE as int);
    super::extent::heap::ExtentHeap::mappable(spec) && !os.can_map(len, PAGE_SIZE as int)
        ==> after.asks_pages(len) && after.grant == os.grant
}

/// A request for a run that no mapping on offer could serve left the system a request for
/// a map of runs, with the heap's hints.
pub open spec fn wanting_map(heap: Heap, os: Os, after: Os) -> bool {
    let runs = heap.inner.runs;
    runs.part() is None && runs.maps.has_room() && !os.can_map(
        super::run::MAP_SIZE as int,
        super::run::RUN_SIZE as int,
    ) ==> after.grant == os.grant && (after.wanted matches Some(request) && request.len
        == super::run::MAP_SIZE && request.align == super::run::RUN_SIZE && request.hints
        == runs.hints)
}

/// Runs were put on or taken off their lists; none that was listed is unlisted.
#[verifier::opaque]
pub open spec fn relinked(before: Heap, after: Heap) -> bool {
    &&& after.inner.extents == before.inner.extents
    &&& after.run_inbox@ == before.run_inbox@
    &&& after.extent_inbox@ == before.extent_inbox@
    &&& after.inner.runs.maps_same(before.inner.runs)
    &&& after.inner.runs.slots_same(before.inner.runs)
    &&& forall|slot: u32|
        #![trigger after.inner.runs.runs@.contains_key(slot)]
        #![trigger before.inner.runs.runs@.contains_key(slot)]
        #![trigger after.inner.runs.runs@[slot]]
        after.inner.runs.runs@.contains_key(slot) == before.inner.runs.runs@.contains_key(slot) && (
        before.inner.runs.runs@.contains_key(slot) ==> after.inner.runs.runs@[slot] == (Run {
            available: after.inner.runs.runs@[slot].available,
            ..before.inner.runs.runs@[slot]
        }) && (before.inner.runs.runs@[slot].available != AvailableLink::Unlisted
            ==> after.inner.runs.runs@[slot].available != AvailableLink::Unlisted))
}

/// The inboxes were taken in: every claim on a queued run or extent is a free block now.
/// Other runs kept their blocks.
#[verifier::opaque]
pub open spec fn taken_in(before: Heap, after: Heap, ok: bool) -> bool {
    &&& after.run_inbox@.len() == 0
    &&& after.extent_inbox@.len() == 0
    &&& after.inner.runs.maps_same(before.inner.runs)
    &&& after.inner.extents.room_kept(before.inner.extents)
    &&& forall|slot: u32|
        #![trigger after.inner.runs.runs@.contains_key(slot)]
        #![trigger before.inner.runs.runs@.contains_key(slot)]
        #![trigger after.inner.runs.runs@[slot]]
        after.inner.runs.runs@.contains_key(slot) == before.inner.runs.runs@.contains_key(slot) && (
        before.inner.runs.runs@.contains_key(slot) ==> if before.run_inbox@.contains(slot) {
            accepted_run(before.inner.runs.runs@[slot], after.inner.runs.runs@[slot])
        } else {
            after.inner.runs.runs@[slot] == (Run {
                available: after.inner.runs.runs@[slot].available,
                ..before.inner.runs.runs@[slot]
            })
        })
    &&& ok ==> flushed_extents(
        before.inner.extents.extents@,
        after.inner.extents.extents@,
        before.extent_inbox@,
    )
}

/// Taking the inboxes in after runs were relisted takes them in.
pub proof fn lemma_taken_in(before: Heap, linked: Heap, after: Heap, ok: bool)
    requires
        relinked(before, linked),
        flushed_all(linked, after, None, ok),
        after.run_inbox@.len() == 0,
        after.extent_inbox@.len() == 0,
    ensures
        taken_in(before, after, ok),
{
    reveal(relinked);
    reveal(taken_in);
    let was = before.inner.runs.runs@;
    let middle = linked.inner.runs.runs@;
    let now = after.inner.runs.runs@;
    assert forall|slot: u32|
        #![trigger now.contains_key(slot)]
        #![trigger was.contains_key(slot)]
        #![trigger now[slot]]
        now.contains_key(slot) == was.contains_key(slot) && (was.contains_key(slot)
            ==> if before.run_inbox@.contains(slot) {
            accepted_run(was[slot], now[slot])
        } else {
            now[slot] == (Run { available: now[slot].available, ..was[slot] })
        }) by {
        assert(middle.contains_key(slot) == was.contains_key(slot));
        if was.contains_key(slot) && before.run_inbox@.contains(slot) {
            was[slot].lemma_same_claimed(
                middle[slot],
                (was[slot].claims.words@.len() * 64) as nat,
            );
            assert forall|i: int| #[trigger] now[slot].outstanding(i) == (was[slot].outstanding(i)
                && !was[slot].claims.has(i)) by {
                assert(middle[slot].outstanding(i) == was[slot].outstanding(i));
            }
        }
    }
}

/// A heap with the parts and the queues of a relisted one is relisted.
pub proof fn lemma_relinked_same(before: Heap, linked: Heap, after: Heap)
    requires
        relinked(before, linked),
        after.inner == linked.inner,
        after.run_inbox@ == linked.run_inbox@,
        after.extent_inbox@ == linked.extent_inbox@,
    ensures
        relinked(before, after),
{
    reveal(relinked);
}

/// Relisting runs leaves what the heap holds, and what waits on its inboxes.
pub proof fn lemma_relinked(before: Heap, after: Heap)
    requires
        relinked(before, after),
    ensures
        forall|addr: int| #[trigger] after.holds(addr) == before.holds(addr),
        claims_queued(before) ==> claims_queued(after),
        after.inner.extents == before.inner.extents,
        after.run_inbox@ == before.run_inbox@,
        after.extent_inbox@ == before.extent_inbox@,
{
    reveal(relinked);
    let was = before.inner.runs.runs@;
    let now = after.inner.runs.runs@;
    assert forall|addr: int| #[trigger] after.holds(addr) == before.holds(addr) by {
        if after.inner.runs.holds(addr) {
            let slot = choose|slot: u32| #[trigger]
                now.contains_key(slot) && now[slot].holds(addr);
            assert(was.contains_key(slot) && was[slot].holds(addr));
        }
        if before.inner.runs.holds(addr) {
            let slot = choose|slot: u32| #[trigger]
                was.contains_key(slot) && was[slot].holds(addr);
            assert(now.contains_key(slot) && now[slot].holds(addr));
        }
    }
    if claims_queued(before) {
        assert forall|slot: u32| #[trigger]
            now.contains_key(slot) && !after.run_inbox@.contains(slot) implies now[slot].claims.none() by {
            assert(was.contains_key(slot));
        }
    }
}

/// What freeing the block at `ptr` did to its run: the block is the first to be given out
/// again, or, where it was the last of a run that discards, the run starts over.
pub open spec fn run_freed(
    before: Run,
    after: Run,
    ptr: usize,
    effects: Seq<Effect>,
    old_effects: Seq<Effect>,
) -> bool {
    &&& after.same_shape(before)
    &&& after.live == before.live - 1
    &&& after.link == before.link
    &&& after.claims == before.claims
    &&& after.available == AvailableLink::Unlisted ==> before.available == AvailableLink::Unlisted
        && before.live < before.capacity
    &&& if before.policy == RunPolicy::Discard && before.live == 1 {
        after.bump == 0 && after.free@ == Seq::<usize>::empty() && effects == old_effects.push(
            Effect::Discard(before.spec_range()),
        )
    } else {
        after.bump == before.bump && after.free@ == seq![ptr] + before.free@ && effects
            == old_effects
    }
}

/// What freeing the block at `ptr` did to its heap.
pub open spec fn put_back(
    before: Heap,
    after: Heap,
    owner: PageOwner,
    ptr: usize,
    pages: Map<usize, PageOwner>,
    old_pages: Map<usize, PageOwner>,
    effects: Seq<Effect>,
    old_effects: Seq<Effect>,
) -> bool {
    &&& after.run_inbox == before.run_inbox
    &&& after.extent_inbox == before.extent_inbox
    &&& match owner {
        PageOwner::Run { run, .. } => {
            &&& after.inner.extents == before.inner.extents
            &&& after.inner.runs.only(before.inner.runs, run)
            &&& pages == old_pages
            &&& run_freed(
                before.inner.runs.runs@[run],
                after.inner.runs.runs@[run],
                ptr,
                effects,
                old_effects,
            )
        },
        PageOwner::Extent { extent, .. } => {
            &&& after.inner.runs == before.inner.runs
            &&& after.inner.extents.cache.config == before.inner.extents.cache.config
            &&& after.inner.extents.released(
                before.inner.extents,
                extent,
                before.spec_index(),
                pages,
                old_pages,
                effects,
                old_effects,
            )
        },
    }
}

/// A change of one extent's length leaves the rest of its heap alone.
pub open spec fn resized_only(before: Heap, after: Heap) -> bool {
    &&& after.run_inbox == before.run_inbox
    &&& after.extent_inbox == before.extent_inbox
    &&& after.inner.runs == before.inner.runs
    &&& after.inner.extents.cache == before.inner.extents.cache
    &&& after.inner.extents.hints == before.inner.extents.hints
    &&& after.inner.extents.hollow == before.inner.extents.hollow
    &&& after.inner.extents.extents.holes == before.inner.extents.extents.holes
    &&& after.inner.extents.extents.slots@.len() == before.inner.extents.extents.slots@.len()
}

/// `flushed` is `before` with its inboxes taken in, and the pages and the system are such as
/// that leaves them.
pub open spec fn drained(
    before: Heap,
    pages: Map<usize, PageOwner>,
    os: Os,
    flushed: Heap,
    flushed_pages: Map<usize, PageOwner>,
    flushed_os: Os,
) -> bool {
    &&& flushed.wf()
    &&& flushed_all(before, flushed, None, true)
    &&& forall|page: usize| #[trigger]
        flushed_pages.contains_key(page) ==> pages.contains_key(page)
    &&& flushed_os.grant == os.grant
    &&& flushed_os.wanted == os.wanted
    &&& flushed_os.discards == os.discards
}

/// What a flush leaves: runs accepted or as before, and, when it succeeds, queued
/// extents free.
pub open spec fn flushed_all(before: Heap, after: Heap, owner: Option<PageOwner>, ok: bool) -> bool {
    &&& after.inner.extents.room_kept(before.inner.extents)
    &&& after.inner.extents.hints == before.inner.extents.hints
    &&& after.inner.extents.cache.config == before.inner.extents.cache.config
    &&& after.inner.runs.maps_same(before.inner.runs)
    &&& after.inner.runs.slots_same(before.inner.runs)
    &&& forall|slot: u32|
        #![trigger after.inner.runs.runs@.contains_key(slot)]
        #![trigger before.inner.runs.runs@.contains_key(slot)]
        #![trigger after.inner.runs.runs@[slot]]
        after.inner.runs.runs@.contains_key(slot) == before.inner.runs.runs@.contains_key(slot) && (
        before.inner.runs.runs@.contains_key(slot) ==> if before.run_queue(owner).contains(slot) {
            accepted_run(before.inner.runs.runs@[slot], after.inner.runs.runs@[slot])
        } else {
            after.inner.runs.runs@[slot] == before.inner.runs.runs@[slot]
        })
    &&& forall|slot: u32| #[trigger]
        before.inner.extents.extents@.contains_key(slot)
            ==> after.inner.extents.extents@.contains_key(slot)
    &&& ok ==> flushed_extents(
        before.inner.extents.extents@,
        after.inner.extents.extents@,
        before.extent_queue(owner),
    )
}

impl Heap {
    /// Run `slot` of class `class` has room and is on no list.
    pub open spec fn ready_run(self, slot: u32, class: SizeClass) -> bool {
        let run = self.inner.runs.runs@[slot];
        &&& self.inner.runs.runs@.contains_key(slot)
        &&& run.class == class
        &&& run.live < run.capacity
        &&& run.available == AvailableLink::Unlisted
    }

    /// Every run of `before` is still there, the same up to its available link.
    pub open spec fn runs_kept(self, before: Heap) -> bool {
        forall|slot: u32|
            #![trigger self.inner.runs.runs@.contains_key(slot)]
            #![trigger before.inner.runs.runs@.contains_key(slot)]
            #![trigger self.inner.runs.runs@[slot]]
            before.inner.runs.runs@.contains_key(slot)
                ==> self.inner.runs.runs@.contains_key(slot) && self.inner.runs.runs@[slot] == (
            Run {
                available: self.inner.runs.runs@[slot].available,
                ..before.inner.runs.runs@[slot]
            })
    }

    /// Checkout a run for `class`: the available list, else new space in a map.
    pub fn acquire_run(&mut self, class: SizeClass, pages: &mut PageMap, os: &mut Os) -> (slot: Option<
        u32,
    >)
        requires
            old(self).wf(),
            old(self).published(old(pages)@),
            class.wf(),
            old(os).wf(),
        ensures
            spares(
                *old(self),
                *final(self),
                old(os).effects@,
                final(os).effects@,
                old(os).discards,
                None,
            ),
            final(self).wf(),
            final(self).published(final(pages)@),
            others_kept(old(pages)@, final(pages)@, old(self).spec_index()),
            final(self).same_but_runs(*old(self)),
            final(self).runs_live == old(self).runs_live,
            final(self).runs_kept(*old(self)),
            final(self).inner.runs.tidy(old(self).inner.runs, slot),
            final(self).inner.runs.policy == old(self).inner.runs.policy,
            final(self).inner.runs.hints == old(self).inner.runs.hints,
            final(os).effects == old(os).effects,
            final(os).wf(),
            final(os).grant == old(os).grant || final(os).grant is None,
            final(os).discards == old(os).discards,
            final(self).inner.runs.drew(
                old(self).inner.runs,
                old(pages)@,
                final(pages)@,
                *old(os),
            ),
            slot matches Some(slot) ==> final(self).ready_run(slot, class),
            match old(self).inner.runs.first_open(class.index as int) {
                Some(open) => slot == Some(open) && final(pages)@ == old(pages)@ && *final(os)
                    == *old(os) && final(self).inner.runs.maps_same(old(self).inner.runs),
                None => {
                    let base = match old(self).inner.runs.part() {
                        Some(part) => Some(part),
                        None => if old(self).inner.runs.maps.has_room() && old(os).can_map(
                            super::run::MAP_SIZE as int,
                            super::run::RUN_SIZE as int,
                        ) {
                            Some(old(os).grant->0.base as int)
                        } else {
                            None
                        },
                    };
                    &&& slot is Some == (base is Some && old(self).inner.runs.can_add(
                        base->0,
                        old(pages)@,
                    ))
                    &&& old(self).inner.runs.asked(*old(os), *final(os))
                    &&& slot is None ==> final(pages)@ == old(pages)@ && final(self).inner.runs.cut_stays(old(self).inner.runs, *old(os))
                    &&& slot matches Some(slot) ==> final(self).inner.runs.cut_on(
                        old(self).inner.runs,
                        *old(os),
                    ) && final(pages)@ == crate::memory::with_owner(
                        old(pages)@,
                        final(self).inner.runs.runs@[slot].spec_range(),
                        run_owner(old(self).spec_index(), slot),
                    )
                    &&& slot matches Some(slot) ==> slot == old(self).inner.runs.runs.next_index()
                        && final(self).inner.runs.runs@[slot].base == base->0 && final(self).inner.runs.runs@[slot].bump == 0
                },
            },
            forall|addr: int| #[trigger] final(self).holds(addr) == old(self).holds(addr),
    {
        let ghost before = *self;
        let ghost index = self.spec_index();
        let ghost old_pages = pages@;
        let heap_index: u32 = self.index();
        let slot = self.inner.runs.acquire(class, heap_index, pages, os);
        proof {
            lemma_no_effect(before, *self, os.effects@, os.discards);
            super::lemma_extents_kept(
                self.inner.extents.extents@,
                old_pages,
                pages@,
                index,
            );
            let runs = self.inner.runs.runs@;
            let was = before.inner.runs.runs@;
            self.inner.runs.runs.lemma_bounds();
            before.inner.runs.runs.lemma_bounds();
            let touched: u32 = match slot {
                Some(slot) => slot,
                None => 0,
            };
            assert forall|other: u32|
                #![trigger runs.contains_key(other)]
                #![trigger was.contains_key(other)]
                #![trigger runs[other]]
                was.contains_key(other) implies runs.contains_key(other) && runs[other] == (Run {
                available: runs[other].available,
                ..was[other]
            }) by {}
            assert(live_runs(runs) =~= live_runs(was)) by {
                assert forall|s: int| live_runs(runs).contains(s) == live_runs(was).contains(s) by {
                    if 0 <= s < u32::MAX {
                        let other = s as u32;
                        if was.contains_key(other) {
                            assert(runs[other].live == was[other].live);
                        } else if runs.contains_key(other) {
                            assert(slot == Some(other));
                        }
                    }
                }
            }
            assert forall|k: int| 0 <= k < self.run_inbox@.len() implies runs.contains_key(
                #[trigger] self.run_inbox@[k],
            ) && runs[self.run_inbox@[k]].link.queued by {
                assert(was.contains_key(before.run_inbox@[k]));
            }
            assert forall|addr: int| #[trigger] self.holds(addr) == before.holds(addr) by {
                if self.inner.runs.holds(addr) {
                    let other = choose|other: u32| #[trigger]
                        runs.contains_key(other) && runs[other].holds(addr);
                    if was.contains_key(other) {
                        assert(was[other].holds(addr));
                    } else {
                        assert(slot == Some(other));
                        assert(runs[other].bump == 0);
                    }
                }
                if before.inner.runs.holds(addr) {
                    let other = choose|other: u32| #[trigger]
                        was.contains_key(other) && was[other].holds(addr);
                    assert(runs[other].holds(addr));
                }
            }
            match slot {
                Some(slot) => {
                    assert(self.inner.runs.run_wf(slot, index));
                },
                None => {},
            }
        }
        slot
    }

    /// Flush the inboxes if needed, then allocate one large block.
    pub fn alloc_extent(
        &mut self,
        spec: LayoutSpec,
        init: ExtentInit,
        pages: &mut PageMap,
        os: &mut Os,
    ) -> (allocated: Result<Option<usize>, HeapError>)
        requires
            old(self).wf(),
            old(self).published(old(pages)@),
            spec.wf(),
            old(os).wf(),
        ensures
            spares(
                *old(self),
                *final(self),
                old(os).effects@,
                final(os).effects@,
                old(os).discards,
                old(os).grant,
            ),
            init == ExtentInit::Zeroed ==> (allocated matches Ok(Some(ptr)) ==> zeroed_block(
                *old(self),
                old(os).grant,
                old(os).effects@,
                final(os).effects@,
                old(os).discards,
                ptr,
                spec.size,
            )),
            final(os).grant == old(os).grant || final(os).grant is None,
            !(allocated matches Ok(Some(_))) ==> forall|page: usize| #[trigger]
                final(pages)@.contains_key(page) ==> old(pages)@.contains_key(page),
            final(self).wf(),
            final(self).published(final(pages)@),
            others_kept(old(pages)@, final(pages)@, old(self).spec_index()),
            final(self).state == old(self).state,
            final(self).slot == old(self).slot,
            final(self).free_next == old(self).free_next,
            final(self).inner.runs.drew(
                old(self).inner.runs,
                old(pages)@,
                final(pages)@,
                *old(os),
            ),
            final(self).run_inbox@ == Seq::<u32>::empty(),
            final(self).extent_inbox@ == Seq::<u32>::empty(),
            final(self).inner.runs.maps_same(old(self).inner.runs),
            final(self).inner.runs.tidy(old(self).inner.runs, None),
            final(self).inner.extents.hints == old(self).inner.extents.hints,
            final(self).inner.extents.cache.config == old(self).inner.extents.cache.config,
            allocated matches Ok(None) ==> wanting_pages(spec, *old(os), *final(os)),
            final(os).wf(),
            final(os).discards == old(os).discards,
            forall|slot: u32| #[trigger]
                old(self).inner.runs.runs@.contains_key(slot) ==> final(self).inner.runs.runs@.contains_key(slot) && final(self).inner.runs.runs@[slot].same_shape(old(self).inner.runs.runs@[slot]),
            forall|slot: u32| #[trigger]
                old(self).inner.extents.extents@.contains_key(slot) ==> final(self).inner.extents.extents@.contains_key(slot),
            match first_error(old(self).inner.extents.extents@, old(self).extent_inbox@) {
                Some(error) => allocated == Err::<Option<usize>, HeapError>(error),
                None => allocated is Ok,
            },
            old(self).extent_inbox@.len() == 0 ==> allocated == Ok::<Option<usize>, HeapError>(
                old(self).inner.extents.allocation(spec, old(pages)@, *old(os)),
            ),
            allocated matches Ok(ptr) ==> exists|
                flushed: Heap,
                flushed_pages: Map<usize, PageOwner>,
                flushed_os: Os,
            | #[trigger]
                drained(*old(self), old(pages)@, *old(os), flushed, flushed_pages, flushed_os)
                    && ptr == flushed.inner.extents.allocation(spec, flushed_pages, flushed_os),
            allocated matches Ok(Some(ptr)) ==> {
                &&& ptr > 0
                &&& ptr % spec.align == 0
                &&& !old(self).holds(ptr as int)
                &&& exists|slot: u32| #[trigger]
                    super::extent::heap::allocated_at(final(self).inner.extents, slot, ptr, spec)
                &&& forall|addr: int| #[trigger]
                    final(self).holds(addr) == (addr == ptr || old(self).holds(addr))
            },
            !(allocated matches Ok(Some(_))) ==> forall|addr: int| #[trigger]
                final(self).holds(addr) == old(self).holds(addr),
    {
        let ghost before = *self;
        let ghost index = self.spec_index();
        let ghost old_pages = pages@;
        if !self.inboxes_empty() {
            match self.flush(None, pages, os) {
                Ok(()) => {},
                Err(error) => {
                    proof {
                        lemma_grant_ignored(
                            before,
                            *self,
                            old(os).effects@,
                            os.effects@,
                            os.discards,
                            os.grant,
                        );
                    }
                    return Err(error);
                },
            }
        } else {
            proof {
                lemma_spares_refl(before, os.effects@, os.discards);
            }
            assert(first_error(before.inner.extents.extents@, before.extent_inbox@) is None);
        }
        let ghost flushed_effects = os.effects@;
        let ghost grant = os.grant;
        let ghost flushed = *self;
        let ghost flushed_pages = pages@;
        let ghost flushed_os = *os;
        assert(drained(before, old_pages, *old(os), flushed, flushed_pages, *os));
        proof {
            lemma_flushed_tidy(before, flushed, None, true);
        }
        let heap_index: u32 = self.index();
        let ghost target = self.inner.extents.target(spec);
        proof {
            self.inner.extents.lemma_target_bound(spec, index);
            self.lemma_extent_count(target);
        }
        let allocated = self.inner.extents.allocate(spec, heap_index, pages, init, os);
        let some = match &allocated {
            Ok(Some(_)) => true,
            _ => false,
        };
        if some {
            self.extents_live = self.extents_live + 1;
        }
        proof {
            super::lemma_runs_kept(self.inner.runs.runs@, flushed_pages, pages@, index);
            crate::memory::lemma_others_kept_trans(old_pages, flushed_pages, pages@, index);
            self.lemma_extent_changed(flushed, target);
            self.lemma_extent_holds(flushed, target);
            assert forall|addr: int| #[trigger] flushed.holds(addr) == before.holds(addr) by {}
            let got = allocated->Ok_0;
            if got is Some {
                assert(self.inner.extents.extents@[target].wf());
            } else if flushed.inner.extents.is_hit(spec) {
                flushed.inner.extents.lemma_hit_serves(spec, index, flushed_pages, flushed_os);
            }
            lemma_alloc_step(
                flushed,
                *self,
                target,
                spec,
                init,
                got,
                flushed.inner.extents.is_hit(spec),
                flushed_effects,
                os.effects@,
                os.discards,
                grant,
            );
            lemma_spares_then(
                before,
                flushed,
                *self,
                old(os).effects@,
                flushed_effects,
                os.effects@,
                os.discards,
                grant,
            );
            if got is Some && init == ExtentInit::Zeroed {
                lemma_zeroed_then(
                    before,
                    flushed,
                    old(os).effects@,
                    flushed_effects,
                    os.effects@,
                    os.discards,
                    grant,
                    got->0,
                    spec.size,
                );
            }
            match allocated {
                Ok(Some(ptr)) => {
                    let extents = self.inner.extents.extents@;
                    assert(extents[target].wf());
                    assert(extents.contains_key(target));
                    self.lemma_only_extent_holds(pages@, target);
                    assert(!flushed.holds(ptr as int)) by {
                        if flushed.inner.extents.holds(ptr as int) {
                            let was = flushed.inner.extents.extents@;
                            let other = choose|other: u32| #[trigger]
                                was.contains_key(other) && was[other].state
                                    == ExtentState::Allocated && was[other].base == ptr;
                            assert(was[other].wf());
                            assert(extents.contains_key(other));
                        }
                    }
                    assert forall|addr: int| #[trigger] self.holds(addr) == (addr == ptr
                        || before.holds(addr)) by {
                        assert(flushed.holds(addr) == before.holds(addr));
                    }
                    assert(super::extent::heap::allocated_at(
                        self.inner.extents,
                        target,
                        ptr,
                        spec,
                    ));
                },
                _ => {
                    assert forall|addr: int| #[trigger] self.holds(addr) == before.holds(addr) by {
                        assert(flushed.holds(addr) == before.holds(addr));
                    }
                },
            }
        }
        allocated
    }

    /// Owner-local free of an extent's block.
    pub fn free_extent(&mut self, slot: u32, ptr: usize, pages: &mut PageMap, os: &mut Os) -> (freed:
        Result<(), HeapError>)
        requires
            old(self).wf(),
            old(self).published(old(pages)@),
            old(self).inner.extents.extents@.contains_key(slot),
            old(os).wf(),
        ensures
            spares(
                *old(self),
                *final(self),
                old(os).effects@,
                final(os).effects@,
                old(os).discards,
                None,
            ),
            final(self).wf(),
            final(self).published(final(pages)@),
            others_kept(old(pages)@, final(pages)@, old(self).spec_index()),
            final(self).same_but_extents(*old(self)),
            final(self).inner.extents.others_same(old(self).inner.extents, slot),
            final(self).inner.extents.extents@.contains_key(slot),
            final(os).wf(),
            final(os).grant == old(os).grant,
            final(os).wanted == old(os).wanted,
            final(os).discards == old(os).discards,
            ({
                let extent = old(self).inner.extents.extents@[slot];
                freed == if ptr == 0 || ptr != extent.base {
                    Err::<(), HeapError>(HeapError::InvalidExtentPointer)
                } else if extent.state != ExtentState::Allocated {
                    Err::<(), HeapError>(HeapError::DoubleFree)
                } else {
                    Ok::<(), HeapError>(())
                }
            }),
            freed is Ok ==> old(self).holds(ptr as int) && final(self).inner.extents.released(
                old(self).inner.extents,
                slot,
                old(self).spec_index(),
                final(pages)@,
                old(pages)@,
                final(os).effects@,
                old(os).effects@,
            ),
            freed is Err ==> final(pages)@ == old(pages)@ && final(self).inner.extents.extents@
                == old(self).inner.extents.extents@ && final(os).effects == old(os).effects,
            final(self).inner.extents.cache.config == old(self).inner.extents.cache.config,
            final(self).inner.extents.hints == old(self).inner.extents.hints,
            forall|addr: int| #[trigger]
                final(self).holds(addr) == (old(self).holds(addr) && !(freed is Ok && addr == ptr)),
    {
        let ghost before = *self;
        let ghost index = self.spec_index();
        let ghost old_pages = pages@;
        proof {
            self.inner.extents.extents.lemma_bounds();
            before.lemma_extent_count(slot);
        }
        let heap_index: u32 = self.index();
        let freed = self.inner.extents.free(slot, ptr, heap_index, pages, os);
        if freed.is_ok() {
            self.extents_live = self.extents_live - 1;
        }
        proof {
            self.lemma_extent_changed(before, slot);
            self.lemma_extent_holds(before, slot);
            super::lemma_runs_kept(self.inner.runs.runs@, old_pages, pages@, index);
            if freed is Ok {
                let was = before.inner.extents.extents@;
                assert(was[slot].wf());
                assert(was.contains_key(slot));
                assert(before.inner.extents.holds(ptr as int));
                before.lemma_only_extent_holds(old_pages, slot);
                assert(!self.holds(ptr as int)) by {
                    if self.inner.extents.holds(ptr as int) {
                        let extents = self.inner.extents.extents@;
                        let other = choose|other: u32| #[trigger]
                            extents.contains_key(other) && extents[other].state
                                == ExtentState::Allocated && extents[other].base == ptr;
                        assert(was.contains_key(other));
                        assert(was[other].wf());
                    }
                }
            }
        }
        proof {
            if freed is Ok {
                lemma_extent_step(
                    before,
                    *self,
                    slot,
                    old(os).effects@,
                    os.effects@,
                    os.discards,
                );
            } else {
                lemma_same_parts(before, *self, os.effects@, os.discards);
            }
        }
        freed
    }

    /// Owner-local free. `Empty` when this owner is no longer live.
    #[verifier::rlimit(60)]
    pub fn free(&mut self, owner: PageOwner, ptr: usize, pages: &mut PageMap, os: &mut Os) -> (freed:
        Result<OwnerState, HeapError>)
        requires
            old(self).wf(),
            old(self).published(old(pages)@),
            old(self).has_owner(owner),
            old(self).freeable(owner, ptr),
            old(os).wf(),
        ensures
            spares(
                *old(self),
                *final(self),
                old(os).effects@,
                final(os).effects@,
                old(os).discards,
                None,
            ),
            final(self).wf(),
            final(self).published(final(pages)@),
            others_kept(old(pages)@, final(pages)@, old(self).spec_index()),
            final(self).state == old(self).state,
            final(self).slot == old(self).slot,
            final(self).free_next == old(self).free_next,
            final(self).run_inbox == old(self).run_inbox,
            final(self).extent_inbox == old(self).extent_inbox,
            final(self).has_owner(owner),
            final(self).shapes_kept(*old(self)),
            final(self).inner.runs.tidy(old(self).inner.runs, None),
            freed is Ok ==> put_back(
                *old(self),
                *final(self),
                owner,
                ptr,
                final(pages)@,
                old(pages)@,
                final(os).effects@,
                old(os).effects@,
            ),
            freed is Err ==> final(pages)@ == old(pages)@ && final(os).effects == old(os).effects,
            final(self).same_settings(*old(self)),
            final(os).wf(),
            final(os).grant == old(os).grant,
            final(os).wanted == old(os).wanted,
            final(os).discards == old(os).discards,
            match old(self).free_error(owner, ptr) {
                Some(error) => freed == Err::<OwnerState, HeapError>(error),
                None => freed == Ok::<OwnerState, HeapError>(
                    if final(self).owner_live(owner) {
                        OwnerState::Live
                    } else {
                        OwnerState::Empty
                    },
                ) && old(self).holds(ptr as int),
            },
            forall|addr: int| #[trigger]
                final(self).holds(addr) == (old(self).holds(addr) && !(freed is Ok && addr == ptr)),
    {
        let ghost before = *self;
        let ghost old_pages = pages@;
        match owner {
            PageOwner::Run { run: slot, .. } => {
                assert(before.inner.runs.run_wf(slot, before.spec_index()));
                match self.free_run(slot, ptr, pages) {
                    Err(error) => {
                        proof {
                            lemma_no_effect(before, *self, os.effects@, os.discards);
                        }
                        Err(HeapError::from(error))
                    },
                    Ok(outcome) => {
                        let ghost middle = *self;
                        proof {
                            before.inner.runs.runs@[slot].lemma_live_bound();
                        }
                        let released = self.release_run(slot, outcome, pages, os);
                        proof {
                            lemma_spares_after_free(
                                before,
                                middle,
                                *self,
                                slot,
                                old(os).effects@,
                                os.effects@,
                                os.discards,
                            );
                        }
                        assert(self.inner.runs.runs@ =~= before.inner.runs.runs@.insert(
                            slot,
                            self.inner.runs.runs@[slot],
                        ));
                        assert(run_freed(
                            before.inner.runs.runs@[slot],
                            self.inner.runs.runs@[slot],
                            ptr,
                            os.effects@,
                            old(os).effects@,
                        ));
                        match released {
                            Err(error) => Err(error),
                            Ok(()) => {
                                let live = match self.inner.runs.runs.get(slot) {
                                    Some(run) => run.is_live(),
                                    None => false,
                                };
                                proof {
                                    assert forall|addr: int| #[trigger] self.holds(addr) == (
                                    before.holds(addr) && addr != ptr) by {
                                        assert(middle.holds(addr) == (addr != ptr && before.holds(
                                            addr,
                                        )));
                                    }
                                }
                                Ok(
                                    if live {
                                        OwnerState::Live
                                    } else {
                                        OwnerState::Empty
                                    },
                                )
                            },
                        }
                    },
                }
            },
            PageOwner::Extent { extent: slot, .. } => {
                match self.free_extent(slot, ptr, pages, os) {
                    Err(error) => Err(error),
                    Ok(()) => Ok(OwnerState::Empty),
                }
            },
        }
    }

    /// A block that the owner may free: one it holds, wherever the pointer locates one.
    pub open spec fn freeable(self, owner: PageOwner, ptr: usize) -> bool {
        match owner {
            PageOwner::Run { run, .. } => self.inner.runs.runs@[run].located(ptr) is Ok
                ==> self.inner.runs.runs@[run].holds(ptr as int),
            PageOwner::Extent { .. } => true,
        }
    }

    /// Why an owner-local free is refused, if it is.
    pub open spec fn free_error(self, owner: PageOwner, ptr: usize) -> Option<HeapError> {
        match owner {
            PageOwner::Run { run, .. } => match self.inner.runs.runs@[run].located(ptr) {
                Err(_) => Some(HeapError::InvalidRunPointer),
                Ok(_) => None,
            },
            PageOwner::Extent { extent, .. } => {
                let extent = self.inner.extents.extents@[extent];
                if ptr == 0 || ptr != extent.base {
                    Some(HeapError::InvalidExtentPointer)
                } else if extent.state != ExtentState::Allocated {
                    Some(HeapError::DoubleFree)
                } else {
                    None
                }
            },
        }
    }

    /// The owner has an outstanding block.
    pub open spec fn owner_live(self, owner: PageOwner) -> bool {
        match owner {
            PageOwner::Run { run, .. } => self.inner.runs.runs@[run].live != 0,
            PageOwner::Extent { extent, .. } => self.inner.extents.extents@[extent].live(),
        }
    }

    /// Every run and extent slot of `before` is still there; runs keep their shape.
    pub open spec fn shapes_kept(self, before: Heap) -> bool {
        &&& forall|slot: u32|
            #![trigger self.inner.runs.runs@.contains_key(slot)]
            #![trigger before.inner.runs.runs@.contains_key(slot)]
            before.inner.runs.runs@.contains_key(slot)
                ==> self.inner.runs.runs@.contains_key(slot)
                && self.inner.runs.runs@[slot].same_shape(before.inner.runs.runs@[slot])
        &&& forall|slot: u32|
            #![trigger self.inner.extents.extents@.contains_key(slot)]
            #![trigger before.inner.extents.extents@.contains_key(slot)]
            before.inner.extents.extents@.contains_key(slot)
                ==> self.inner.extents.extents@.contains_key(slot)
    }

    /// What resizing the block at `ptr` in place gives.
    pub open spec fn resize_result(self, owner: PageOwner, ptr: usize, spec: LayoutSpec) -> Result<
        bool,
        HeapError,
    > {
        match owner {
            PageOwner::Run { run, .. } => {
                let run = self.inner.runs.runs@[run];
                match run.located(ptr) {
                    Err(_) => Err(HeapError::InvalidRunPointer),
                    Ok(block) => if block.index.index >= run.bump || run.claims.has(
                        block.index.index as int,
                    ) {
                        Err(HeapError::DoubleFree)
                    } else {
                        Ok(run.stride >= spec.size && ptr % spec.align == 0)
                    },
                }
            },
            PageOwner::Extent { extent, .. } => {
                match self.inner.extents.extents@[extent].resized(ptr, spec) {
                    Err(_) => Err(HeapError::InvalidExtentPointer),
                    Ok(resized) => Ok(resized),
                }
            },
        }
    }

    /// Take `spec` as the layout of the block at `ptr` without moving it.
    pub fn resize_in_place(&mut self, owner: PageOwner, ptr: usize, spec: LayoutSpec, pages: &PageMap) -> (resized:
        Result<bool, HeapError>)
        requires
            old(self).wf(),
            old(self).published(pages@),
            old(self).has_owner(owner),
            spec.wf(),
        ensures
            final(self).wf(),
            final(self).published(pages@),
            final(self).same_places(*old(self)),
            final(self).runs_live == old(self).runs_live,
            final(self).extents_live == old(self).extents_live,
            final(self).state == old(self).state,
            final(self).run_inbox == old(self).run_inbox,
            final(self).extent_inbox == old(self).extent_inbox,
            final(self).inner.runs == old(self).inner.runs,
            final(self).free_next == old(self).free_next,
            final(self).has_owner(owner),
            resized == old(self).resize_result(owner, ptr, spec),
            resized_only(*old(self), *final(self)),
            owner matches PageOwner::Extent { extent, .. } ==> final(self).inner.extents.extents@
                == old(self).inner.extents.extents@.insert(
                extent,
                Extent {
                    len: if resized == Ok::<bool, HeapError>(true) {
                        spec.size
                    } else {
                        old(self).inner.extents.extents@[extent].len
                    },
                    ..old(self).inner.extents.extents@[extent]
                },
            ),
            owner is Run ==> *final(self) == *old(self),
            forall|addr: int| #[trigger] final(self).holds(addr) == old(self).holds(addr),
    {
        let ghost before = *self;
        let ghost index = self.spec_index();
        match owner {
            PageOwner::Run { run: slot, .. } => {
                assert(before.inner.runs.run_wf(slot, index));
                match self.inner.runs.runs.get(slot) {
                    None => Err(HeapError::InvalidRunPointer),
                    Some(run) => match run.resize_in_place(ptr, spec) {
                        Ok(resized) => Ok(resized),
                        Err(error) => Err(HeapError::from(error)),
                    },
                }
            },
            PageOwner::Extent { extent: slot, .. } => {
                proof {
                    self.inner.extents.extents.lemma_bounds();
                }
                let mut outcome: Result<bool, ExtentError> = Err(ExtentError::InvalidPointer);
                match self.inner.extents.extents.get_mut(slot) {
                    None => {},
                    Some(extent) => {
                        outcome = extent.resize_in_place(ptr, spec);
                    },
                }
                proof {
                    before.inner.extents.lemma_set_len(self.inner.extents, slot, index);
                    self.lemma_extent_changed(before, slot);
                    self.lemma_extent_holds(before, slot);
                    self.lemma_same_places(before, pages@);
                }
                match outcome {
                    Ok(resized) => Ok(resized),
                    Err(error) => Err(HeapError::from(error)),
                }
            },
        }
    }
}

} // verus!
