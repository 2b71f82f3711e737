//! Heap operations carried out through the directory.

use vstd::prelude::*;

use super::error::HeapError;
use super::extent::{Extent, ExtentInit};
use super::heaps::{lemma_heap_holder, free_ok, Heaps};
use super::id::HeapId;
use super::run::{AvailableLink, Run, RunError, RunFree};
use super::run::config::RunPolicy;
use super::service::{
    claims_queued,
    drained,
    first_error,
    flushed_all,
    law_emptied_heap_is_idle,
    put_back,
    resized_only,
    wanting_map,
    wanting_pages,
};
use super::state::{reclaimed_snapshot, HeapMode, Snapshot, MAX_LEASES};
use super::{Heap, OwnerState};
use crate::layout::LayoutSpec;
use crate::memory::{Effect, Os, PageMap, PageOwner};
use crate::size_class::SizeClass;

use super::spare::{lemma_spares_inner, lemma_spares_refl, quiet, spares, zeroed_block};

verus! {

impl Heaps {
    /// Heap `index` exists and is Active or Draining.
    pub open spec fn in_use(self, index: u32) -> bool {
        self.arena@.contains_key(index) && (self.arena@[index].state@.mode == HeapMode::Active
            || self.arena@[index].state@.mode == HeapMode::Draining)
    }

    /// A heap in use is not on the stack of Free heaps.
    pub proof fn lemma_in_use(self, pages: Map<usize, PageOwner>, index: u32)
        requires
            self.wf(pages),
            self.in_use(index),
        ensures
            !self.stack@.contains(index),
            self.heap_wf(index, pages),
    {
        if self.stack@.contains(index) {
            let k = choose|k: int| 0 <= k < self.stack@.len() && self.stack@[k] == index;
            assert(free_ok(self.arena@, self.stack@, k));
        }
    }

    /// Every heap of `before` is still there with its runs and extents.
    pub open spec fn grown(self, before: Heaps) -> bool {
        forall|index: u32|
            #![trigger self.arena@.contains_key(index)]
            #![trigger before.arena@.contains_key(index)]
            before.arena@.contains_key(index) ==> self.arena@.contains_key(index)
                && self.arena@[index].slot == before.arena@[index].slot
                && self.arena@[index].shapes_kept(before.arena@[index])
    }

    pub proof fn lemma_grown_trans(self, middle: Heaps, before: Heaps)
        requires
            self.grown(middle),
            middle.grown(before),
        ensures
            self.grown(before),
    {
        assert forall|index: u32|
            #![trigger self.arena@.contains_key(index)]
            #![trigger before.arena@.contains_key(index)]
            before.arena@.contains_key(index) implies self.arena@.contains_key(index)
            && self.arena@[index].slot == before.arena@[index].slot
            && self.arena@[index].shapes_kept(before.arena@[index]) by {
            assert(middle.arena@.contains_key(index));
            let a = before.arena@[index];
            let b = middle.arena@[index];
            let c = self.arena@[index];
            assert forall|slot: u32|
                #![trigger c.inner.runs.runs@.contains_key(slot)]
                #![trigger a.inner.runs.runs@.contains_key(slot)]
                a.inner.runs.runs@.contains_key(slot) implies c.inner.runs.runs@.contains_key(slot)
                && c.inner.runs.runs@[slot].same_shape(a.inner.runs.runs@[slot]) by {
                assert(b.inner.runs.runs@.contains_key(slot));
            }
            assert forall|slot: u32|
                #![trigger c.inner.extents.extents@.contains_key(slot)]
                #![trigger a.inner.extents.extents@.contains_key(slot)]
                a.inner.extents.extents@.contains_key(
                    slot,
                ) implies c.inner.extents.extents@.contains_key(slot) by {
                assert(b.inner.extents.extents@.contains_key(slot));
            }
        }
    }

    /// Changing one heap within its shape keeps every heap's shape.
    pub proof fn lemma_only_grown(self, before: Heaps, index: u32)
        requires
            self.only(before, index),
            self.arena@[index].slot == before.arena@[index].slot,
            self.arena@[index].shapes_kept(before.arena@[index]),
        ensures
            self.grown(before),
    {
    }

    /// A block added to one heap is added to what all heaps hold.
    pub proof fn lemma_added(
        self,
        before: Heaps,
        index: u32,
        pages: Map<usize, PageOwner>,
        ptr: usize,
    )
        requires
            self.wf(pages),
            self.only(before, index),
            !before.arena@[index].holds(ptr as int),
            forall|addr: int| #[trigger]
                self.arena@[index].holds(addr) == (addr == ptr || before.arena@[index].holds(addr)),
        ensures
            !before.holds(ptr as int),
            forall|addr: int| #[trigger]
                self.holds(addr) == (addr == ptr || before.holds(addr)),
    {
        self.lemma_only_holds(before, index);
        assert(self.heap_wf(index, pages));
        assert(self.arena@[index].holds(ptr as int));
        lemma_heap_holder(self.arena@[index], pages, ptr as int);
        self.lemma_sole_heap(pages, index, ptr as int);
        if before.holds(ptr as int) {
            let other = choose|other: u32| #[trigger]
                before.arena@.contains_key(other) && before.arena@[other].holds(ptr as int);
            assert(self.arena@.contains_key(other));
        }
    }

    /// A block removed from one heap is removed from what all heaps hold.
    pub proof fn lemma_removed(
        self,
        before: Heaps,
        index: u32,
        old_pages: Map<usize, PageOwner>,
        ptr: usize,
    )
        requires
            before.wf(old_pages),
            self.only(before, index),
            before.arena@[index].holds(ptr as int),
            forall|addr: int| #[trigger]
                self.arena@[index].holds(addr) == (addr != ptr && before.arena@[index].holds(addr)),
        ensures
            before.holds(ptr as int),
            forall|addr: int| #[trigger]
                self.holds(addr) == (addr != ptr && before.holds(addr)),
    {
        self.lemma_only_holds(before, index);
        assert(before.heap_wf(index, old_pages));
        lemma_heap_holder(before.arena@[index], old_pages, ptr as int);
        before.lemma_sole_heap(old_pages, index, ptr as int);
        if self.holds(ptr as int) {
            let other = choose|other: u32| #[trigger]
                self.arena@.contains_key(other) && self.arena@[other].holds(ptr as int);
            assert(before.arena@.contains_key(other));
        }
        assert(before.arena@.contains_key(index));
    }

    /// Pop one block off a run's free list.
    pub fn allocate_run(&mut self, index: u32, slot: u32, pages: &PageMap) -> (ptr: Option<usize>)
        requires
            old(self).wf(pages@),
            old(self).in_use(index),
            old(self).arena@[index].inner.runs.runs@.contains_key(slot),
        ensures
            final(self).wf(pages@),
            final(self).only(*old(self), index),
            final(self).grown(*old(self)),
            final(self).arena@[index].state == old(self).arena@[index].state,
            final(self).arena@[index].same_but_runs(old(self).arena@[index]),
            final(self).arena@[index].inner.runs.only(old(self).arena@[index].inner.runs, slot),
            final(self).stack == old(self).stack,
            final(self).arena.slots@.len() == old(self).arena.slots@.len(),
            ({
                let run = old(self).arena@[index].inner.runs.runs@[slot];
                let after = final(self).arena@[index].inner.runs.runs@[slot];
                if run.free@.len() == 0 {
                    ptr is None && after == run
                } else {
                    &&& ptr == Some(run.free@[0])
                    &&& after.free@ == run.free@.skip(1)
                    &&& after.bump == run.bump
                    &&& after.live == run.live + 1
                }
            }),
            final(self).arena@[index].inner.runs.tidy(old(self).arena@[index].inner.runs, None),
            ptr matches Some(ptr) ==> ptr > 0 && old(self).arena@[index].inner.runs.runs@[slot].located(ptr) is Ok && !old(self).holds(
                ptr as int,
            ) && forall|addr: int| #[trigger]
                final(self).holds(addr) == (addr == ptr || old(self).holds(addr)),
            ptr is None ==> forall|addr: int| #[trigger]
                final(self).holds(addr) == old(self).holds(addr),
    {
        let ghost before = *self;
        proof {
            self.lemma_in_use(pages@, index);
        }
        let mut popped: Option<usize> = None;
        match self.arena.get_mut(index) {
            None => {},
            Some(heap) => {
                popped = heap.allocate_run(slot, pages);
            },
        }
        proof {
            self.lemma_changed(before, index, pages@, pages@);
            self.lemma_only_grown(before, index);
            match popped {
                Some(ptr) => {
                    self.lemma_added(before, index, pages@, ptr);
                },
                None => {
                    self.lemma_only_holds(before, index);
                },
            }
        }
        popped
    }

    /// Thread fresh blocks onto a run's free list.
    pub fn extend_run(&mut self, index: u32, slot: u32, pages: &PageMap) -> (extended: bool)
        requires
            old(self).wf(pages@),
            old(self).in_use(index),
            old(self).arena@[index].inner.runs.runs@.contains_key(slot),
        ensures
            final(self).wf(pages@),
            final(self).only(*old(self), index),
            final(self).grown(*old(self)),
            final(self).stack == old(self).stack,
            final(self).arena@[index].state == old(self).arena@[index].state,
            final(self).arena@[index].same_but_runs(old(self).arena@[index]),
            final(self).arena@[index].inner.runs.only(old(self).arena@[index].inner.runs, slot),
            ({
                let run = old(self).arena@[index].inner.runs.runs@[slot];
                let after = final(self).arena@[index].inner.runs.runs@[slot];
                &&& extended == (run.bump < run.capacity)
                &&& after.live == run.live
                &&& extended ==> after.free@.len() > 0 && after.free@[0] == run.block_addr(
                    run.bump as int,
                )
                &&& !extended ==> after == run
            }),
            final(self).arena@[index].inner.runs.tidy(old(self).arena@[index].inner.runs, None),
            forall|addr: int| #[trigger] final(self).holds(addr) == old(self).holds(addr),
    {
        let ghost before = *self;
        proof {
            self.lemma_in_use(pages@, index);
            assert(self.arena@[index].inner.runs.run_wf(slot, self.arena@[index].spec_index()));
        }
        let mut extended = false;
        match self.arena.get_mut(index) {
            None => {},
            Some(heap) => {
                extended = heap.extend_run(slot, pages);
            },
        }
        proof {
            self.lemma_changed(before, index, pages@, pages@);
            self.lemma_only_grown(before, index);
            self.lemma_only_holds(before, index);
            let run = before.arena@[index].inner.runs.runs@[slot];
            if extended {
                run.lemma_block(run.bump as int);
            }
        }
        extended
    }

    /// Pop a block, extending the run first when its free list is empty.
    pub fn allocate_or_extend(&mut self, index: u32, slot: u32, pages: &PageMap) -> (ptr: Option<
        usize,
    >)
        requires
            old(self).wf(pages@),
            old(self).in_use(index),
            old(self).arena@[index].inner.runs.runs@.contains_key(slot),
        ensures
            final(self).wf(pages@),
            final(self).only(*old(self), index),
            final(self).grown(*old(self)),
            final(self).stack == old(self).stack,
            final(self).arena@[index].state == old(self).arena@[index].state,
            final(self).arena@[index].same_but_runs(old(self).arena@[index]),
            final(self).arena@[index].inner.runs.only(old(self).arena@[index].inner.runs, slot),
            ptr is None ==> final(self).arena@[index].inner.runs.runs@[slot]
                == old(self).arena@[index].inner.runs.runs@[slot],
            ({
                let run = old(self).arena@[index].inner.runs.runs@[slot];
                ptr == if run.free@.len() > 0 {
                    Some(run.free@[0])
                } else if run.bump < run.capacity {
                    Some(run.block_addr(run.bump as int) as usize)
                } else {
                    None
                }
            }),
            final(self).arena@[index].inner.runs.tidy(old(self).arena@[index].inner.runs, None),
            ptr matches Some(ptr) ==> ptr > 0 && old(self).arena@[index].inner.runs.runs@[slot].located(ptr) is Ok && !old(self).holds(
                ptr as int,
            ) && forall|addr: int| #[trigger]
                final(self).holds(addr) == (addr == ptr || old(self).holds(addr)),
            ptr is None ==> forall|addr: int| #[trigger]
                final(self).holds(addr) == old(self).holds(addr),
    {
        let ghost before = *self;
        proof {
            self.lemma_in_use(pages@, index);
            assert(self.arena@[index].inner.runs.run_wf(slot, self.arena@[index].spec_index()));
        }
        match self.allocate_run(index, slot, pages) {
            Some(ptr) => Some(ptr),
            None => {
                let ghost missed = *self;
                let _extended = self.extend_run(index, slot, pages);
                let ghost extended = *self;
                let ptr = self.allocate_run(index, slot, pages);
                proof {
                    extended.lemma_grown_trans(missed, before);
                    self.lemma_grown_trans(extended, before);
                    assert(self.arena@ =~= before.arena@.insert(index, self.arena@[index]));
                    let runs = before.arena@[index].inner.runs.runs@;
                    assert(self.arena@[index].inner.runs.runs@ =~= runs.insert(
                        slot,
                        self.arena@[index].inner.runs.runs@[slot],
                    ));
                    let run = before.arena@[index].inner.runs.runs@[slot];
                    let after = extended.arena@[index].inner.runs.runs@[slot];
                    assert(after.same_shape(run));
                    match ptr {
                        Some(ptr) => {
                            assert(after.located(ptr) == run.located(ptr));
                            assert forall|addr: int| #[trigger] self.holds(addr) == (addr == ptr
                                || before.holds(addr)) by {
                                assert(extended.holds(addr) == missed.holds(addr));
                                assert(missed.holds(addr) == before.holds(addr));
                            }
                            assert(extended.holds(ptr as int) == before.holds(ptr as int));
                        },
                        None => {
                            assert forall|addr: int| #[trigger] self.holds(addr) == before.holds(
                                addr,
                            ) by {
                                assert(extended.holds(addr) == missed.holds(addr));
                            }
                        },
                    }
                }
                ptr
            },
        }
    }

    /// Owner-local free of a run's block. The run is not relisted or discarded.
    pub fn free_run(&mut self, index: u32, slot: u32, ptr: usize, pages: &PageMap) -> (freed: Result<
        RunFree,
        RunError,
    >)
        requires
            old(self).wf(pages@),
            old(self).in_use(index),
            old(self).arena@[index].inner.runs.runs@.contains_key(slot),
            old(self).arena@[index].inner.runs.runs@[slot].located(ptr) is Ok ==> old(self).arena@[index].inner.runs.runs@[slot].holds(ptr as int),
        ensures
            final(self).arena@[index].same_but_runs(old(self).arena@[index]),
            final(self).wf(pages@),
            final(self).only(*old(self), index),
            final(self).grown(*old(self)),
            final(self).stack == old(self).stack,
            final(self).arena@[index].state == old(self).arena@[index].state,
            ({
                let run = old(self).arena@[index].inner.runs.runs@[slot];
                let after = final(self).arena@[index].inner.runs.runs@[slot];
                match run.located(ptr) {
                    Err(error) => freed == Err::<RunFree, RunError>(error) && after == run
                        && forall|addr: int| #[trigger]
                        final(self).holds(addr) == old(self).holds(addr),
                    Ok(_) => {
                        &&& freed == Ok::<RunFree, RunError>(
                            if run.live == run.capacity {
                                RunFree::Available
                            } else {
                                RunFree::Unchanged
                            },
                        )
                        &&& old(self).holds(ptr as int)
                        &&& after.free@ == seq![ptr] + run.free@
                        &&& after.live == run.live - 1
                        &&& after.available == run.available
                        &&& forall|addr: int| #[trigger]
                            final(self).holds(addr) == (addr != ptr && old(self).holds(addr))
                    },
                }
            }),
            final(self).arena@[index].inner.runs.only(old(self).arena@[index].inner.runs, slot),
            ({
                let run = old(self).arena@[index].inner.runs.runs@[slot];
                let after = final(self).arena@[index].inner.runs.runs@[slot];
                after.same_shape(run) && after.link == run.link && after.claims == run.claims
                    && after.bump == run.bump
            }),
            final(self).arena@[index].inner.runs.tidy(
                old(self).arena@[index].inner.runs,
                Some(slot),
            ),
    {
        let ghost before = *self;
        proof {
            self.lemma_in_use(pages@, index);
        }
        let mut freed: Result<RunFree, RunError> = Err(RunError::OutOfRange);
        match self.arena.get_mut(index) {
            None => {},
            Some(heap) => {
                freed = heap.free_run(slot, ptr, pages);
            },
        }
        proof {
            self.lemma_changed(before, index, pages@, pages@);
            self.lemma_only_grown(before, index);
            if freed is Ok {
                self.lemma_removed(before, index, pages@, ptr);
            } else {
                self.lemma_only_holds(before, index);
            }
        }
        freed
    }

    /// After an owner-local free: list a run that left full, discard an empty
    /// payload.
    pub fn release_run(
        &mut self,
        index: u32,
        slot: u32,
        outcome: RunFree,
        pages: &PageMap,
        os: &mut Os,
    ) -> (released: Result<(), HeapError>)
        requires
            old(self).wf(pages@),
            old(self).in_use(index),
            old(self).arena@[index].inner.runs.runs@.contains_key(slot),
            old(os).wf(),
        ensures
            spares(
                old(self).arena@[index],
                final(self).arena@[index],
                old(os).effects@,
                final(os).effects@,
                old(os).discards,
                None,
            ),
            final(self).wf(pages@),
            final(self).only(*old(self), index),
            final(self).grown(*old(self)),
            final(self).stack == old(self).stack,
            final(self).arena@[index].state == old(self).arena@[index].state,
            final(os).wf(),
            final(os).grant == old(os).grant,
            final(os).discards == old(os).discards,
            ({
                let run = old(self).arena@[index].inner.runs.runs@[slot];
                released == if outcome == RunFree::Available && run.available
                    == AvailableLink::Unlisted && run.live == run.capacity {
                    Err::<(), HeapError>(HeapError::InvalidMetadata)
                } else {
                    Ok::<(), HeapError>(())
                }
            }),
            final(self).arena@[index].inner.runs.runs@[slot].live == old(self).arena@[index].inner.runs.runs@[slot].live,
            final(self).arena@[index].same_but_runs(old(self).arena@[index]),
            final(self).arena@[index].inner.runs.only(old(self).arena@[index].inner.runs, slot),
            final(self).arena@[index].inner.runs.tidy(old(self).arena@[index].inner.runs, None),
            final(os).wanted == old(os).wanted,
            ({
                let run = old(self).arena@[index].inner.runs.runs@[slot];
                let after = final(self).arena@[index].inner.runs.runs@[slot];
                let refused = outcome == RunFree::Available && run.available
                    == AvailableLink::Unlisted && run.live == run.capacity;
                &&& after.same_shape(run)
                &&& after.link == run.link
                &&& after.claims == run.claims
                &&& outcome == RunFree::Available && !refused ==> after.available
                    != AvailableLink::Unlisted
                &&& outcome == RunFree::Unchanged || refused ==> after.available == run.available
                &&& if !refused && run.policy == RunPolicy::Discard && run.live == 0 {
                    after.bump == 0 && after.free@ == Seq::<usize>::empty() && final(os).effects@
                        == old(os).effects@.push(Effect::Discard(run.spec_range()))
                } else {
                    after.bump == run.bump && after.free == run.free && final(os).effects
                        == old(os).effects
                }
            }),
            forall|addr: int| #[trigger] final(self).holds(addr) == old(self).holds(addr),
    {
        let ghost before = *self;
        proof {
            self.lemma_in_use(pages@, index);
        }
        let mut released: Result<(), HeapError> = Err(HeapError::InvalidMetadata);
        match self.arena.get_mut(index) {
            None => {},
            Some(heap) => {
                released = heap.release_run(slot, outcome, pages, os);
            },
        }
        proof {
            self.lemma_changed(before, index, pages@, pages@);
            self.lemma_only_grown(before, index);
            self.lemma_only_holds(before, index);
        }
        released
    }

    /// Put a run with room on its available list.
    pub fn push_available(&mut self, index: u32, slot: u32, pages: &PageMap) -> (pushed: Result<
        (),
        HeapError,
    >)
        requires
            old(self).wf(pages@),
            old(self).in_use(index),
            old(self).arena@[index].inner.runs.runs@.contains_key(slot),
        ensures
            final(self).wf(pages@),
            final(self).only(*old(self), index),
            final(self).grown(*old(self)),
            final(self).stack == old(self).stack,
            final(self).arena@[index].state == old(self).arena@[index].state,
            ({
                let run = old(self).arena@[index].inner.runs.runs@[slot];
                pushed == if run.available == AvailableLink::Unlisted && run.live == run.capacity {
                    Err::<(), HeapError>(HeapError::InvalidMetadata)
                } else {
                    Ok::<(), HeapError>(())
                }
            }),
            final(self).arena@[index].runs_kept(old(self).arena@[index]),
            final(self).arena@[index].same_but_runs(old(self).arena@[index]),
            final(self).arena@[index].runs_live == old(self).arena@[index].runs_live,
            final(self).arena@[index].inner.runs.only(old(self).arena@[index].inner.runs, slot),
            final(self).arena@[index].inner.runs.tidy(old(self).arena@[index].inner.runs, None),
            pushed is Ok ==> final(self).arena@[index].inner.runs.runs@[slot].available
                != AvailableLink::Unlisted,
            forall|addr: int| #[trigger] final(self).holds(addr) == old(self).holds(addr),
    {
        let ghost before = *self;
        proof {
            self.lemma_in_use(pages@, index);
        }
        let mut pushed: Result<(), HeapError> = Err(HeapError::InvalidMetadata);
        match self.arena.get_mut(index) {
            None => {},
            Some(heap) => {
                pushed = heap.push_available(slot, pages);
            },
        }
        proof {
            self.lemma_changed(before, index, pages@, pages@);
            self.lemma_only_grown(before, index);
            self.lemma_only_holds(before, index);
        }
        pushed
    }

    /// Checkout a run for `class` in one heap.
    pub fn acquire_run(
        &mut self,
        index: u32,
        class: SizeClass,
        pages: &mut PageMap,
        os: &mut Os,
    ) -> (slot: Option<u32>)
        requires
            old(self).wf(old(pages)@),
            old(self).in_use(index),
            class.wf(),
            old(os).wf(),
        ensures
            spares(
                old(self).arena@[index],
                final(self).arena@[index],
                old(os).effects@,
                final(os).effects@,
                old(os).discards,
                None,
            ),
            final(self).wf(final(pages)@),
            final(self).only(*old(self), index),
            final(self).grown(*old(self)),
            final(self).stack == old(self).stack,
            final(self).arena@[index].state == old(self).arena@[index].state,
            final(self).arena@[index].extent_inbox@ == old(self).arena@[index].extent_inbox@,
            final(self).arena@[index].same_but_runs(old(self).arena@[index]),
            final(self).arena@[index].inner.runs.tidy(old(self).arena@[index].inner.runs, slot),
            final(self).arena@[index].inner.runs.policy == old(self).arena@[index].inner.runs.policy,
            final(self).arena@[index].inner.runs.hints == old(self).arena@[index].inner.runs.hints,
            final(os).effects == old(os).effects,
            slot is None ==> wanting_map(final(self).arena@[index], *old(os), *final(os)),
            final(os).wf(),
            final(os).grant == old(os).grant || final(os).grant is None,
            final(os).discards == old(os).discards,
            final(self).arena@[index].inner.runs.drew(
                old(self).arena@[index].inner.runs,
                old(pages)@,
                final(pages)@,
                *old(os),
            ),
            slot matches Some(slot) ==> final(self).arena@[index].ready_run(slot, class),
            ({
                let runs = old(self).arena@[index].inner.runs;
                match runs.first_open(class.index as int) {
                    Some(open) => slot == Some(open) && final(pages)@ == old(pages)@ && *final(os)
                        == *old(os),
                    None => slot is Some == runs.can_make(old(pages)@, *old(os)) && runs.asked(
                        *old(os),
                        *final(os),
                    ),
                }
            }),
            forall|addr: int| #[trigger] final(self).holds(addr) == old(self).holds(addr),
    {
        let ghost before = *self;
        let ghost old_pages = pages@;
        proof {
            self.lemma_in_use(pages@, index);
        }
        let mut slot: Option<u32> = None;
        match self.arena.get_mut(index) {
            None => {},
            Some(heap) => {
                slot = heap.acquire_run(class, pages, os);
            },
        }
        proof {
            self.lemma_changed(before, index, old_pages, pages@);
            self.lemma_only_grown(before, index);
            self.lemma_only_holds(before, index);
        }
        slot
    }

    /// Allocate one large block in one heap.
    pub fn alloc_extent(
        &mut self,
        index: u32,
        spec: LayoutSpec,
        init: ExtentInit,
        pages: &mut PageMap,
        os: &mut Os,
    ) -> (allocated: Result<Option<usize>, HeapError>)
        requires
            old(self).wf(old(pages)@),
            old(self).in_use(index),
            spec.wf(),
            old(os).wf(),
        ensures
            spares(
                old(self).arena@[index],
                final(self).arena@[index],
                old(os).effects@,
                final(os).effects@,
                old(os).discards,
                old(os).grant,
            ),
            init == ExtentInit::Zeroed ==> (allocated matches Ok(Some(ptr)) ==> zeroed_block(
                old(self).arena@[index],
                old(os).grant,
                old(os).effects@,
                final(os).effects@,
                old(os).discards,
                ptr,
                spec.size,
            )),
            final(os).grant == old(os).grant || final(os).grant is None,
            !(allocated matches Ok(Some(_))) ==> forall|page: usize| #[trigger]
                final(pages)@.contains_key(page) ==> old(pages)@.contains_key(page),
            final(self).wf(final(pages)@),
            final(self).only(*old(self), index),
            final(self).grown(*old(self)),
            final(self).stack == old(self).stack,
            final(self).arena@[index].state == old(self).arena@[index].state,
            final(self).arena@[index].inner.runs.drew(
                old(self).arena@[index].inner.runs,
                old(pages)@,
                final(pages)@,
                *old(os),
            ),
            final(self).arena@[index].extent_inbox@.len() == 0,
            final(self).arena@[index].run_inbox@.len() == 0,
            final(self).arena@[index].inner.runs.maps_same(old(self).arena@[index].inner.runs),
            final(self).arena@[index].inner.runs.tidy(old(self).arena@[index].inner.runs, None),
            final(self).arena@[index].inner.extents.cache.config == old(self).arena@[index].inner.extents.cache.config,
            allocated matches Ok(None) ==> wanting_pages(spec, *old(os), *final(os)),
            final(os).wf(),
            final(os).discards == old(os).discards,
            ({
                let heap = old(self).arena@[index];
                &&& match first_error(heap.inner.extents.extents@, heap.extent_inbox@) {
                    Some(error) => allocated == Err::<Option<usize>, HeapError>(error),
                    None => allocated is Ok,
                }
                &&& heap.extent_inbox@.len() == 0 ==> allocated == Ok::<Option<usize>, HeapError>(
                    heap.inner.extents.allocation(spec, old(pages)@, *old(os)),
                )
                &&& allocated matches Ok(ptr) ==> exists|
                    flushed: Heap,
                    flushed_pages: Map<usize, PageOwner>,
                    flushed_os: Os,
                | #[trigger]
                    drained(heap, old(pages)@, *old(os), flushed, flushed_pages, flushed_os) && ptr
                        == flushed.inner.extents.allocation(spec, flushed_pages, flushed_os)
            }),
            allocated matches Ok(Some(ptr)) ==> {
                &&& ptr > 0
                &&& ptr % spec.align == 0
                &&& !old(self).holds(ptr as int)
                &&& exists|slot: u32| #[trigger]
                    super::extent::heap::allocated_at(
                        final(self).arena@[index].inner.extents,
                        slot,
                        ptr,
                        spec,
                    )
                &&& forall|addr: int| #[trigger]
                    final(self).holds(addr) == (addr == ptr || old(self).holds(addr))
            },
            !(allocated matches Ok(Some(_))) ==> forall|addr: int| #[trigger]
                final(self).holds(addr) == old(self).holds(addr),
    {
        let ghost before = *self;
        let ghost old_pages = pages@;
        proof {
            self.lemma_in_use(pages@, index);
        }
        let mut allocated: Result<Option<usize>, HeapError> = Err(HeapError::InvalidHeap);
        match self.arena.get_mut(index) {
            None => {},
            Some(heap) => {
                allocated = heap.alloc_extent(spec, init, pages, os);
            },
        }
        proof {
            self.lemma_changed(before, index, old_pages, pages@);
            self.lemma_only_grown(before, index);
            match allocated {
                Ok(Some(ptr)) => {
                    self.lemma_added(before, index, pages@, ptr);
                },
                _ => {
                    self.lemma_only_holds(before, index);
                },
            }
        }
        allocated
    }

    /// Owner-local free through one heap.
    pub fn free_local(&mut self, owner: PageOwner, ptr: usize, pages: &mut PageMap, os: &mut Os) -> (freed:
        Result<OwnerState, HeapError>)
        requires
            old(self).wf(old(pages)@),
            old(self).in_use(owner.spec_heap()),
            old(self).has_owner(owner),
            old(self).arena@[owner.spec_heap()].freeable(owner, ptr),
            old(os).wf(),
        ensures
            spares(
                old(self).arena@[owner.spec_heap()],
                final(self).arena@[owner.spec_heap()],
                old(os).effects@,
                final(os).effects@,
                old(os).discards,
                None,
            ),
            final(self).wf(final(pages)@),
            final(self).only(*old(self), owner.spec_heap()),
            final(self).grown(*old(self)),
            final(self).arena@[owner.spec_heap()].state == old(self).arena@[owner.spec_heap()].state,
            final(self).stack == old(self).stack,
            final(self).has_owner(owner),
            final(self).arena@[owner.spec_heap()].run_inbox == old(self).arena@[owner.spec_heap()].run_inbox,
            final(self).arena@[owner.spec_heap()].extent_inbox == old(self).arena@[owner.spec_heap()].extent_inbox,
            final(self).arena@[owner.spec_heap()].inner.runs.tidy(
                old(self).arena@[owner.spec_heap()].inner.runs,
                None,
            ),
            freed is Ok ==> put_back(
                old(self).arena@[owner.spec_heap()],
                final(self).arena@[owner.spec_heap()],
                owner,
                ptr,
                final(pages)@,
                old(pages)@,
                final(os).effects@,
                old(os).effects@,
            ),
            final(os).wf(),
            final(os).grant == old(os).grant,
            final(os).wanted == old(os).wanted,
            final(os).discards == old(os).discards,
            match old(self).arena@[owner.spec_heap()].free_error(owner, ptr) {
                Some(error) => freed == Err::<OwnerState, HeapError>(error),
                None => freed == Ok::<OwnerState, HeapError>(
                    if final(self).arena@[owner.spec_heap()].owner_live(owner) {
                        OwnerState::Live
                    } else {
                        OwnerState::Empty
                    },
                ) && old(self).holds(ptr as int),
            },
            forall|addr: int| #[trigger]
                final(self).holds(addr) == (old(self).holds(addr) && !(freed is Ok && addr == ptr)),
    {
        let ghost before = *self;
        let ghost old_pages = pages@;
        let index: u32 = owner.heap();
        proof {
            self.lemma_in_use(pages@, index);
        }
        let mut freed: Result<OwnerState, HeapError> = Err(HeapError::InvalidHeap);
        match self.arena.get_mut(index) {
            None => {},
            Some(heap) => {
                freed = heap.free(owner, ptr, pages, os);
            },
        }
        proof {
            self.lemma_changed(before, index, old_pages, pages@);
            self.lemma_only_grown(before, index);
            if freed is Ok {
                self.lemma_removed(before, index, old_pages, ptr);
            } else {
                self.lemma_only_holds(before, index);
            }
        }
        freed
    }

    /// Freer: claim a block before its owner is told.
    pub fn claim(&mut self, owner: PageOwner, ptr: usize, pages: &PageMap) -> (claimed: Result<
        (),
        HeapError,
    >)
        requires
            old(self).wf(pages@),
            old(self).in_use(owner.spec_heap()),
            old(self).has_owner(owner),
            old(self).arena@[owner.spec_heap()].claimable(owner, ptr),
        ensures
            quiet(old(self).arena@[owner.spec_heap()], final(self).arena@[owner.spec_heap()]),
            final(self).wf(pages@),
            final(self).only(*old(self), owner.spec_heap()),
            final(self).grown(*old(self)),
            final(self).stack == old(self).stack,
            final(self).arena@[owner.spec_heap()].state == old(self).arena@[owner.spec_heap()].state,
            final(self).has_owner(owner),
            final(self).arena@[owner.spec_heap()].is_queued(owner)
                == old(self).arena@[owner.spec_heap()].is_queued(owner),
            final(self).arena@[owner.spec_heap()].claimable(owner, ptr),
            final(self).arena@[owner.spec_heap()].run_inbox == old(self).arena@[owner.spec_heap()].run_inbox,
            final(self).arena@[owner.spec_heap()].extent_inbox == old(self).arena@[owner.spec_heap()].extent_inbox,
            claimed is Err ==> final(self).arena@[owner.spec_heap()].same_claims(
                old(self).arena@[owner.spec_heap()],
                owner,
            ),
            final(self).arena@[owner.spec_heap()].run_queue(Some(owner)) == old(self).arena@[owner.spec_heap()].run_queue(Some(owner)),
            final(self).arena@[owner.spec_heap()].extent_queue(Some(owner)) == old(self).arena@[owner.spec_heap()].extent_queue(Some(owner)),
            final(self).arena@[owner.spec_heap()].inner.runs.tidy(
                old(self).arena@[owner.spec_heap()].inner.runs,
                None,
            ),
            claimed == old(self).arena@[owner.spec_heap()].claim_result(owner, ptr),
            claimed is Ok ==> old(self).holds(ptr as int) && final(self).arena@[owner.spec_heap()].claim_result(owner, ptr) == Err::<(), HeapError>(
                HeapError::DoubleFree,
            ),
            forall|addr: int| #[trigger]
                final(self).holds(addr) == (old(self).holds(addr) && !(claimed is Ok && addr
                    == ptr)),
    {
        let ghost before = *self;
        let index: u32 = owner.heap();
        proof {
            self.lemma_in_use(pages@, index);
        }
        let mut claimed: Result<(), HeapError> = Err(HeapError::InvalidHeap);
        match self.arena.get_mut(index) {
            None => {},
            Some(heap) => {
                claimed = heap.claim(owner, ptr, pages);
            },
        }
        proof {
            self.lemma_changed(before, index, pages@, pages@);
            self.lemma_only_grown(before, index);
            if claimed is Ok {
                self.lemma_removed(before, index, pages@, ptr);
            } else {
                self.lemma_only_holds(before, index);
            }
        }
        claimed
    }

    /// Queue a claimed owner on its Active heap.
    pub fn enqueue(&mut self, id: HeapId, owner: PageOwner, pages: &PageMap) -> (enqueued: Result<
        (),
        HeapError,
    >)
        requires
            old(self).wf(pages@),
            old(self).in_use(owner.spec_heap()),
            old(self).has_owner(owner),
            id.slot == owner.spec_heap() + 1,
        ensures
            quiet(old(self).arena@[owner.spec_heap()], final(self).arena@[owner.spec_heap()]),
            final(self).wf(pages@),
            final(self).only(*old(self), owner.spec_heap()),
            final(self).grown(*old(self)),
            final(self).stack == old(self).stack,
            final(self).arena@[owner.spec_heap()].state@ == old(self).arena@[owner.spec_heap()].state@,
            final(self).has_owner(owner),
            ({
                let heap = old(self).arena@[owner.spec_heap()];
                enqueued == if heap.is_queued(owner) {
                    Ok::<(), HeapError>(())
                } else if heap.spec_id() != id || heap.state@.mode != HeapMode::Active {
                    Err::<(), HeapError>(HeapError::InvalidHeap)
                } else if heap.state@.leases == MAX_LEASES {
                    Err::<(), HeapError>(HeapError::InvalidMetadata)
                } else {
                    Ok::<(), HeapError>(())
                }
            }),
            final(self).arena@[owner.spec_heap()].inner.runs.tidy(
                old(self).arena@[owner.spec_heap()].inner.runs,
                None,
            ),
            forall|ptr: usize| #[trigger]
                final(self).arena@[owner.spec_heap()].claim_result(owner, ptr) == old(self).arena@[owner.spec_heap()].claim_result(owner, ptr),
            forall|ptr: usize| #[trigger]
                final(self).arena@[owner.spec_heap()].claimable(owner, ptr) == old(self).arena@[owner.spec_heap()].claimable(owner, ptr),
            enqueued is Ok ==> final(self).arena@[owner.spec_heap()].is_queued(owner) && final(self).arena@[owner.spec_heap()].run_inbox@ == old(self).arena@[owner.spec_heap()].run_queue(Some(owner)) && final(self).arena@[owner.spec_heap()].extent_inbox@ == old(self).arena@[owner.spec_heap()].extent_queue(Some(owner)),
            forall|addr: int| #[trigger] final(self).holds(addr) == old(self).holds(addr),
    {
        let ghost before = *self;
        let index: u32 = owner.heap();
        proof {
            self.lemma_in_use(pages@, index);
        }
        let mut enqueued: Result<(), HeapError> = Err(HeapError::InvalidHeap);
        match self.arena.get_mut(index) {
            None => {},
            Some(heap) => {
                enqueued = heap.enqueue(id, owner, pages);
            },
        }
        proof {
            self.lemma_changed(before, index, pages@, pages@);
            self.lemma_only_grown(before, index);
            self.lemma_only_holds(before, index);
        }
        enqueued
    }

    /// Accept one heap's inboxes, whatever its mode.
    pub fn flush_heap(
        &mut self,
        index: u32,
        owner: Option<PageOwner>,
        pages: &mut PageMap,
        os: &mut Os,
    ) -> (flushed: Result<(), HeapError>)
        requires
            old(self).wf(old(pages)@),
            old(self).in_use(index),
            owner matches Some(owner) ==> owner.spec_heap() == index && old(self).has_owner(owner),
            old(os).wf(),
        ensures
            spares(
                old(self).arena@[index],
                final(self).arena@[index],
                old(os).effects@,
                final(os).effects@,
                old(os).discards,
                None,
            ),
            forall|page: usize| #[trigger]
                final(pages)@.contains_key(page) ==> old(pages)@.contains_key(page),
            final(self).wf(final(pages)@),
            final(self).only(*old(self), index),
            final(self).grown(*old(self)),
            final(self).arena@[index].state == old(self).arena@[index].state,
            final(self).stack == old(self).stack,
            final(self).arena@[index].run_inbox@.len() == 0,
            final(self).arena@[index].extent_inbox@.len() == 0,
            final(self).arena@[index].inner.runs.tidy(old(self).arena@[index].inner.runs, None),
            owner is None && old(self).arena@[index].run_inbox@.len() == 0 && old(self).arena@[index].extent_inbox@.len()
                == 0 ==> final(self).arena@[index].inner == old(self).arena@[index].inner
                && final(pages)@ == old(pages)@ && final(os).effects == old(os).effects,
            final(os).wf(),
            final(os).grant == old(os).grant,
            final(os).wanted == old(os).wanted,
            final(os).discards == old(os).discards,
            super::service::flushed_all(
                old(self).arena@[index],
                final(self).arena@[index],
                owner,
                flushed is Ok,
            ),
            ({
                let heap = old(self).arena@[index];
                flushed == match first_error(
                    heap.inner.extents.extents@,
                    heap.extent_queue(owner),
                ) {
                    Some(error) => Err::<(), HeapError>(error),
                    None => Ok::<(), HeapError>(()),
                }
            }),
            forall|addr: int| #[trigger] final(self).holds(addr) == old(self).holds(addr),
    {
        let ghost before = *self;
        let ghost old_pages = pages@;
        proof {
            self.lemma_in_use(pages@, index);
        }
        let mut flushed: Result<(), HeapError> = Err(HeapError::InvalidHeap);
        match self.arena.get_mut(index) {
            None => {},
            Some(heap) => {
                flushed = heap.flush(owner, pages, os);
            },
        }
        proof {
            self.lemma_changed(before, index, old_pages, pages@);
            self.lemma_only_grown(before, index);
            self.lemma_only_holds(before, index);
        }
        flushed
    }

    /// Take `spec` as the layout of the block at `ptr` without moving it.
    pub fn resize_in_place(
        &mut self,
        owner: PageOwner,
        ptr: usize,
        spec: LayoutSpec,
        pages: &PageMap,
    ) -> (resized: Result<bool, HeapError>)
        requires
            old(self).wf(pages@),
            old(self).has_owner(owner),
            spec.wf(),
        ensures
            final(self).wf(pages@),
            final(self).only(*old(self), owner.spec_heap()),
            final(self).grown(*old(self)),
            final(self).arena@[owner.spec_heap()].state == old(self).arena@[owner.spec_heap()].state,
            final(self).has_owner(owner),
            resized == old(self).arena@[owner.spec_heap()].resize_result(owner, ptr, spec),
            final(self).stack == old(self).stack,
            final(self).arena.slots@.len() == old(self).arena.slots@.len(),
            resized_only(old(self).arena@[owner.spec_heap()], final(self).arena@[owner.spec_heap()]),
            owner is Run ==> final(self).arena@[owner.spec_heap()] == old(self).arena@[owner.spec_heap()],
            owner matches PageOwner::Extent { extent, .. }
                ==> final(self).arena@[owner.spec_heap()].inner.extents.extents@
                == old(self).arena@[owner.spec_heap()].inner.extents.extents@.insert(
                extent,
                Extent {
                    len: if resized == Ok::<bool, HeapError>(true) {
                        spec.size
                    } else {
                        old(self).arena@[owner.spec_heap()].inner.extents.extents@[extent].len
                    },
                    ..old(self).arena@[owner.spec_heap()].inner.extents.extents@[extent]
                },
            ),
            final(self).arena@[owner.spec_heap()].inner.runs == old(self).arena@[owner.spec_heap()].inner.runs,
            forall|addr: int| #[trigger] final(self).holds(addr) == old(self).holds(addr),
    {
        let ghost before = *self;
        let index: u32 = owner.heap();
        proof {
            assert(self.heap_wf(index, pages@));
            if self.stack@.contains(index) {
                let k = choose|k: int| 0 <= k < self.stack@.len() && self.stack@[k] == index;
                assert(super::heaps::free_ok(self.arena@, self.stack@, k));
            }
        }
        let mut resized: Result<bool, HeapError> = Err(HeapError::InvalidHeap);
        match self.arena.get_mut(index) {
            None => {},
            Some(heap) => {
                resized = heap.resize_in_place(owner, ptr, spec, pages);
            },
        }
        proof {
            self.lemma_changed(before, index, pages@, pages@);
            self.lemma_only_grown(before, index);
            self.lemma_only_holds(before, index);
        }
        resized
    }
}

/// A queued extent that cannot be accepted is an invalid pointer or a double free.
proof fn lemma_first_error_kinds(extents: Map<u32, Extent>, queue: Seq<u32>)
    ensures
        first_error(extents, queue) matches Some(error) ==> error
            == HeapError::InvalidExtentPointer || error == HeapError::DoubleFree,
    decreases queue.len(),
{
    if queue.len() > 0 {
        lemma_first_error_kinds(extents, queue.skip(1));
    }
}

/// The state of a heap once a reclaim was tried.
pub open spec fn tried_reclaim(heap: Heap, snap: Snapshot) -> Snapshot {
    if snap.mode == HeapMode::Draining && snap.leases == 0 && heap.idle() {
        reclaimed_snapshot(snap)
    } else {
        snap
    }
}

impl Heaps {
    /// What trying to reclaim heap `index` of `before` leaves.
    pub open spec fn reclaimed(self, before: Heaps, index: u32, reclaimed: bool) -> bool {
        let heap = before.arena@[index];
        let after = self.arena@[index];
        &&& reclaimed == (heap.state@.mode == HeapMode::Draining && heap.state@.leases == 0
            && heap.idle())
        &&& after.state@ == tried_reclaim(heap, heap.state@)
        &&& after == (Heap { state: after.state, free_next: after.free_next, ..heap })
        &&& self.stack@ == if reclaimed && after.state@.mode == HeapMode::Free {
            seq![index] + before.stack@
        } else {
            before.stack@
        }
    }

    /// A reclaimed heap is no longer found by its id. It is the one that is acquired next,
    /// under the next generation; after the last generation it retires for good. A heap
    /// that was not reclaimed is as it was.
    pub proof fn law_reclaimed_heap_is_stale_and_reusable(
        self,
        before: Heaps,
        pages: Map<usize, PageOwner>,
        index: u32,
        reclaimed: bool,
    )
        requires
            before.wf(pages),
            before.in_use(index),
            self.only(before, index),
            self.reclaimed(before, index, reclaimed),
        ensures
            ({
                let heap = before.arena@[index];
                let after = self.arena@[index];
                if !reclaimed {
                    after.state@ == heap.state@ && self.stack@ == before.stack@
                } else {
                    &&& self.found(heap.spec_id()) is None
                    &&& if heap.state@.generation < u32::MAX {
                        &&& after.state@.mode == HeapMode::Free
                        &&& after.state@.generation == heap.state@.generation + 1
                        &&& self.stack@[0] == index
                    } else {
                        &&& after.state@.mode == HeapMode::Retired
                        &&& !self.stack@.contains(index)
                    }
                }
            }),
    {
        before.lemma_in_use(pages, index);
        assert(before.heap_wf(index, pages));
    }

    /// Reclaim one heap if it is Draining and idle, and list it for reuse unless it
    /// retired.
    pub fn reclaim(&mut self, index: u32, pages: &PageMap) -> (reclaimed: bool)
        requires
            old(self).wf(pages@),
            old(self).in_use(index),
        ensures
            final(self).wf(pages@),
            final(self).only(*old(self), index),
            final(self).grown(*old(self)),
            final(self).reclaimed(*old(self), index, reclaimed),
            forall|addr: int| #[trigger] final(self).holds(addr) == old(self).holds(addr),
    {
        let ghost before = *self;
        proof {
            self.lemma_in_use(pages@, index);
        }
        let mut reclaimed = false;
        let mut retired = false;
        match self.arena.get_mut(index) {
            None => {},
            Some(heap) => {
                reclaimed = heap.reclaim();
                retired = heap.state.is_retired();
            },
        }
        let ghost middle = *self;
        proof {
            let heap = self.arena@[index];
            let was = before.arena@[index];
            heap.lemma_same_places(was, pages@);
            self.lemma_changed(before, index, pages@, pages@);
            self.lemma_only_grown(before, index);
            assert forall|addr: int| heap.holds(addr) == was.holds(addr) by {}
            self.lemma_only_holds(before, index);
        }
        if reclaimed && !retired {
            self.push_free(index, pages);
            proof {
                self.lemma_only_grown(middle, index);
                self.lemma_grown_trans(middle, before);
                assert(self.arena@ =~= before.arena@.insert(index, self.arena@[index]));
                assert forall|addr: int| #[trigger] self.holds(addr) == before.holds(addr) by {
                    assert(middle.holds(addr) == before.holds(addr));
                }
            }
        }
        reclaimed
    }

    /// The heap whose metadata a Draining operation on `id` may touch.
    pub open spec fn entered(self, id: HeapId, owner: Option<PageOwner>) -> Option<u32> {
        let index = match owner {
            Some(owner) => Some(owner.spec_heap()),
            None => self.found(id),
        };
        match index {
            Some(index) if self.arena@[index].spec_id() == id && self.arena@[index].state@.mode
                == HeapMode::Draining => Some(index),
            _ => None,
        }
    }

    /// Exclusive access while Draining. `owner` names its heap; without one `id` is
    /// looked up.
    pub fn enter(&self, id: HeapId, owner: Option<PageOwner>, pages: &PageMap) -> (entered: Result<
        u32,
        HeapError,
    >)
        requires
            self.wf(pages@),
            id.wf(),
            owner matches Some(owner) ==> self.has_owner(owner),
        ensures
            entered == match self.entered(id, owner) {
                Some(index) => Ok::<u32, HeapError>(index),
                None => Err::<u32, HeapError>(HeapError::InvalidHeap),
            },
            entered matches Ok(index) ==> self.in_use(index),
    {
        let index: u32 = match owner {
            Some(owner) => owner.heap(),
            None => match self.get(id) {
                Some(index) => index,
                None => {
                    return Err(HeapError::InvalidHeap);
                },
            },
        };
        assert(self.heap_wf(index, pages@));
        match self.arena.get(index) {
            None => Err(HeapError::InvalidHeap),
            Some(heap) => match heap.enter(id, owner) {
                Ok(()) => Ok(index),
                Err(error) => Err(error),
            },
        }
    }

    /// Late free while Draining. Then reclaim if this owner emptied.
    pub fn free(
        &mut self,
        id: HeapId,
        owner: PageOwner,
        ptr: usize,
        pages: &mut PageMap,
        os: &mut Os,
    ) -> (freed: Result<(), HeapError>)
        requires
            old(self).wf(old(pages)@),
            id.wf(),
            old(self).has_owner(owner),
            old(self).arena@[owner.spec_heap()].freeable(owner, ptr),
            old(os).wf(),
        ensures
            spares(
                old(self).arena@[owner.spec_heap()],
                final(self).arena@[owner.spec_heap()],
                old(os).effects@,
                final(os).effects@,
                old(os).discards,
                None,
            ),
            final(self).wf(final(pages)@),
            final(self).only(*old(self), owner.spec_heap()),
            final(self).grown(*old(self)),
            final(self).has_owner(owner),
            freed is Ok ==> put_back(
                old(self).arena@[owner.spec_heap()],
                final(self).arena@[owner.spec_heap()],
                owner,
                ptr,
                final(pages)@,
                old(pages)@,
                final(os).effects@,
                old(os).effects@,
            ),
            final(self).arena@[owner.spec_heap()].run_inbox == old(self).arena@[owner.spec_heap()].run_inbox,
            final(self).arena@[owner.spec_heap()].extent_inbox == old(self).arena@[owner.spec_heap()].extent_inbox,
            final(self).restacked(*old(self), owner.spec_heap()),
            final(self).arena@[owner.spec_heap()].inner.runs.tidy(
                old(self).arena@[owner.spec_heap()].inner.runs,
                None,
            ),
            final(os).wf(),
            final(os).grant == old(os).grant,
            final(os).wanted == old(os).wanted,
            final(os).discards == old(os).discards,
            freed == if old(self).entered(id, Some(owner)) is None {
                Err::<(), HeapError>(HeapError::InvalidHeap)
            } else {
                match old(self).arena@[owner.spec_heap()].free_error(owner, ptr) {
                    Some(error) => Err::<(), HeapError>(error),
                    None => Ok::<(), HeapError>(()),
                }
            },
            freed is Err ==> final(self).arena@[owner.spec_heap()].state@ == old(self).arena@[owner.spec_heap()].state@,
            freed is Ok ==> old(self).holds(ptr as int) && final(self).arena@[owner.spec_heap()].state@ == tried_reclaim(
                final(self).arena@[owner.spec_heap()],
                old(self).arena@[owner.spec_heap()].state@,
            ),
            old(self).entered(id, Some(owner)) is None ==> *final(self) == *old(self) && final(pages)@ == old(pages)@,
            forall|addr: int| #[trigger]
                final(self).holds(addr) == (old(self).holds(addr) && !(freed is Ok && addr == ptr)),
    {
        let ghost before = *self;
        let index: u32 = match self.enter(id, Some(owner), pages) {
            Ok(index) => index,
            Err(error) => {
                proof {
                    lemma_spares_refl(
                        self.arena@[owner.spec_heap()],
                        os.effects@,
                        os.discards,
                    );
                    assert(self.arena@ =~= before.arena@.insert(
                        owner.spec_heap(),
                        self.arena@[owner.spec_heap()],
                    ));
                }
                return Err(error);
            },
        };
        match self.free_local(owner, ptr, pages, os) {
            Err(error) => Err(error),
            Ok(state) => {
                let ghost middle = *self;
                if state == OwnerState::Empty {
                    let _reclaimed = self.reclaim(index, pages);
                    proof {
                        lemma_spares_inner(
                            before.arena@[index],
                            before.arena@[index],
                            middle.arena@[index],
                            self.arena@[index],
                            old(os).effects@,
                            os.effects@,
                            os.discards,
                        );
                        self.lemma_grown_trans(middle, before);
                        assert(self.arena@ =~= before.arena@.insert(index, self.arena@[index]));
                        assert forall|addr: int| #[trigger] self.holds(addr) == (before.holds(addr)
                            && addr != ptr) by {
                            assert(middle.holds(addr) == (before.holds(addr) && addr != ptr));
                        }
                    }
                } else {
                    proof {
                        self.lemma_in_use(pages@, index);
                        self.arena@[index].lemma_owner_live(owner);
                    }
                }
                Ok(())
            },
        }
    }

    /// Accept inboxes while Draining, then reclaim. `owner` is queued first.
    pub fn flush(
        &mut self,
        id: HeapId,
        owner: Option<PageOwner>,
        pages: &mut PageMap,
        os: &mut Os,
    ) -> (flushed: Result<(), HeapError>)
        requires
            old(self).wf(old(pages)@),
            id.wf(),
            owner matches Some(owner) ==> old(self).has_owner(owner),
            old(os).wf(),
        ensures
            final(self).wf(final(pages)@),
            final(self).grown(*old(self)),
            final(os).wf(),
            final(os).grant == old(os).grant,
            final(os).wanted == old(os).wanted,
            final(os).discards == old(os).discards,
            match old(self).entered(id, owner) {
                None => flushed == Err::<(), HeapError>(HeapError::InvalidHeap) && *final(self)
                    == *old(self) && final(pages)@ == old(pages)@ && final(os).effects == old(os).effects,
                Some(index) => {
                    let heap = old(self).arena@[index];
                    let after = final(self).arena@[index];
                    &&& spares(
                        heap,
                        after,
                        old(os).effects@,
                        final(os).effects@,
                        old(os).discards,
                        None,
                    )
                    &&& final(self).only(*old(self), index)
                    &&& flushed == match first_error(
                        heap.inner.extents.extents@,
                        heap.extent_queue(owner),
                    ) {
                        Some(error) => Err::<(), HeapError>(error),
                        None => Ok::<(), HeapError>(()),
                    }
                    &&& flushed is Ok ==> after.state@ == tried_reclaim(after, heap.state@)
                    &&& flushed is Err ==> after.state@ == heap.state@
                    &&& after.run_inbox@.len() == 0
                    &&& after.extent_inbox@.len() == 0
                    &&& flushed_all(heap, after, owner, flushed is Ok)
                    &&& after.inner.runs.tidy(heap.inner.runs, None)
                    &&& owner is None && heap.run_inbox@.len() == 0 && heap.extent_inbox@.len() == 0
                        ==> after.inner == heap.inner && final(pages)@ == old(pages)@ && final(os).effects == old(os).effects
                    &&& final(self).restacked(*old(self), index)
                },
            },
            forall|addr: int| #[trigger] final(self).holds(addr) == old(self).holds(addr),
    {
        let ghost before = *self;
        proof {
            self.lemma_grown_refl();
        }
        let index: u32 = match self.enter(id, owner, pages) {
            Ok(index) => index,
            Err(error) => {
                return Err(error);
            },
        };
        match self.flush_heap(index, owner, pages, os) {
            Err(error) => Err(error),
            Ok(()) => {
                let ghost middle = *self;
                let _reclaimed = self.reclaim(index, pages);
                proof {
                    lemma_spares_inner(
                        before.arena@[index],
                        before.arena@[index],
                        middle.arena@[index],
                        self.arena@[index],
                        old(os).effects@,
                        os.effects@,
                        os.discards,
                    );
                    self.lemma_grown_trans(middle, before);
                    assert(self.arena@ =~= before.arena@.insert(index, self.arena@[index]));
                    assert forall|addr: int| #[trigger] self.holds(addr) == before.holds(addr) by {
                        assert(middle.holds(addr) == before.holds(addr));
                    }
                }
                Ok(())
            },
        }
    }

    /// The heap is gone under its old id: it is the next one to be given out, under the next
    /// generation, or it has none left and is retired.
    pub open spec fn given_up(self, before: Heaps, index: u32) -> bool {
        let was = before.arena@[index].state@.generation;
        let now = self.arena@[index].state@;
        &&& self.found(before.arena@[index].spec_id()) is None
        &&& if was < u32::MAX {
            now.mode == HeapMode::Free && now.generation == was + 1 && self.stack@ == seq![index]
                + before.stack@
        } else {
            now.mode == HeapMode::Retired && self.stack@ == before.stack@
        }
    }

    /// A heap that came free is the next one to be given out; else the heaps to be given
    /// out are the same.
    pub open spec fn restacked(self, before: Heaps, index: u32) -> bool {
        self.stack@ == if self.arena@[index].state@.mode == HeapMode::Free
            && before.arena@[index].state@.mode != HeapMode::Free {
            seq![index] + before.stack@
        } else {
            before.stack@
        }
    }

    pub proof fn lemma_grown_refl(self)
        ensures
            self.grown(self),
    {
    }

    /// Whether enqueue leases on the heap that `id` names are still out.
    pub fn leases_out(&self, id: HeapId, pages: &PageMap) -> (out: bool)
        requires
            self.wf(pages@),
            id.wf(),
        ensures
            out == (self.found(id) matches Some(index) && self.arena@[index].state@.leases != 0),
    {
        match self.get(id) {
            None => false,
            Some(index) => {
                assert(self.heap_wf(index, pages@));
                match self.arena.get(index) {
                    None => false,
                    Some(heap) => heap.leases() != 0,
                }
            },
        }
    }

    /// Close one heap to new enqueues.
    pub fn close(&mut self, id: HeapId, index: u32, pages: &PageMap) -> (closed: Result<
        (),
        HeapError,
    >)
        requires
            old(self).wf(pages@),
            old(self).arena@.contains_key(index),
        ensures
            final(self).wf(pages@),
            final(self).only(*old(self), index),
            final(self).grown(*old(self)),
            final(self).arena@[index].same_but_state(old(self).arena@[index]),
            final(self).stack == old(self).stack,
            ({
                let snap = old(self).arena@[index].state@;
                if old(self).arena@[index].spec_id() == id && (snap.mode == HeapMode::Active
                    || snap.mode == HeapMode::Draining) {
                    closed == Ok::<(), HeapError>(()) && final(self).arena@[index].state@ == (
                    Snapshot { mode: HeapMode::Draining, ..snap })
                } else {
                    closed == Err::<(), HeapError>(HeapError::InvalidHeap) && final(self).arena@[index].state@ == snap
                }
            }),
            forall|addr: int| #[trigger] final(self).holds(addr) == old(self).holds(addr),
    {
        let ghost before = *self;
        assert(before.heap_wf(index, pages@));
        let mut closed: Result<(), HeapError> = Err(HeapError::InvalidHeap);
        match self.arena.get_mut(index) {
            None => {},
            Some(heap) => {
                closed = heap.close(id);
            },
        }
        proof {
            let heap = self.arena@[index];
            let was = before.arena@[index];
            heap.lemma_same_places(was, pages@);
            if before.stack@.contains(index) {
                let k = choose|k: int| 0 <= k < before.stack@.len() && before.stack@[k] == index;
                assert(free_ok(before.arena@, before.stack@, k));
            }
            self.lemma_changed(before, index, pages@, pages@);
            self.lemma_only_grown(before, index);
            assert forall|addr: int| heap.holds(addr) == was.holds(addr) by {}
            self.lemma_only_holds(before, index);
        }
        closed
    }

    /// Take a Draining heap over.
    pub fn adopt(&mut self, id: HeapId, index: u32, pages: &PageMap) -> (adopted: Result<
        (),
        HeapError,
    >)
        requires
            old(self).wf(pages@),
            old(self).arena@.contains_key(index),
        ensures
            final(self).wf(pages@),
            final(self).only(*old(self), index),
            final(self).grown(*old(self)),
            final(self).stack == old(self).stack,
            final(self).arena@[index].same_but_state(old(self).arena@[index]),
            ({
                let snap = old(self).arena@[index].state@;
                if old(self).arena@[index].spec_id() == id && snap.mode == HeapMode::Draining {
                    adopted == Ok::<(), HeapError>(()) && final(self).arena@[index].state@ == (
                    Snapshot { mode: HeapMode::Active, ..snap })
                } else {
                    adopted == Err::<(), HeapError>(HeapError::InvalidHeap) && final(self).arena@[index].state@ == snap
                }
            }),
            forall|addr: int| #[trigger] final(self).holds(addr) == old(self).holds(addr),
    {
        let ghost before = *self;
        assert(before.heap_wf(index, pages@));
        let mut adopted: Result<(), HeapError> = Err(HeapError::InvalidHeap);
        match self.arena.get_mut(index) {
            None => {},
            Some(heap) => {
                adopted = heap.adopt(id);
            },
        }
        proof {
            let heap = self.arena@[index];
            let was = before.arena@[index];
            heap.lemma_same_places(was, pages@);
            if before.stack@.contains(index) {
                let k = choose|k: int| 0 <= k < before.stack@.len() && before.stack@[k] == index;
                assert(free_ok(before.arena@, before.stack@, k));
            }
            self.lemma_changed(before, index, pages@, pages@);
            self.lemma_only_grown(before, index);
            assert forall|addr: int| heap.holds(addr) == was.holds(addr) by {}
            self.lemma_only_holds(before, index);
        }
        adopted
    }

    /// The owner gives a heap up: close it, flush it, and reclaim it if idle.
    ///
    /// `Ok(false)` when enqueue leases are still out: the heap is closed, and a flush
    /// has to follow once they are back.
    pub fn unbind(&mut self, id: HeapId, pages: &mut PageMap, os: &mut Os) -> (unbound: Result<
        bool,
        HeapError,
    >)
        requires
            old(self).wf(old(pages)@),
            id.wf(),
            old(os).wf(),
        ensures
            final(self).wf(final(pages)@),
            final(self).grown(*old(self)),
            final(os).wf(),
            final(os).grant == old(os).grant,
            final(os).wanted == old(os).wanted,
            final(os).discards == old(os).discards,
            match old(self).found(id) {
                None => unbound == Ok::<bool, HeapError>(true) && *final(self) == *old(self)
                    && final(pages)@ == old(pages)@ && final(os).effects == old(os).effects,
                Some(index) => {
                    let heap = old(self).arena@[index];
                    let after = final(self).arena@[index];
                    let closed = Snapshot { mode: HeapMode::Draining, ..heap.state@ };
                    &&& spares(
                        heap,
                        after,
                        old(os).effects@,
                        final(os).effects@,
                        old(os).discards,
                        None,
                    )
                    &&& final(self).only(*old(self), index)
                    &&& final(self).restacked(*old(self), index)
                    &&& after.inner.runs.tidy(heap.inner.runs, None)
                    &&& if heap.state@.mode == HeapMode::Free || heap.state@.leases != 0 {
                        after.inner == heap.inner && after.run_inbox == heap.run_inbox
                            && after.extent_inbox == heap.extent_inbox && final(pages)@ == old(pages)@ && final(os).effects == old(os).effects
                    } else {
                        after.run_inbox@.len() == 0 && after.extent_inbox@.len() == 0
                            && flushed_all(heap, after, None, unbound is Ok) && (
                        heap.run_inbox@.len() == 0 && heap.extent_inbox@.len() == 0
                            ==> after.inner == heap.inner && final(pages)@ == old(pages)@ && final(os).effects == old(os).effects)
                    }
                    &&& heap.state@.mode != HeapMode::Free && heap.state@.leases == 0
                        && first_error(heap.inner.extents.extents@, heap.extent_inbox@) is None
                        && claims_queued(heap) && (forall|addr: int| !#[trigger] heap.holds(addr))
                        ==> final(self).given_up(*old(self), index)
                    &&& if heap.state@.mode == HeapMode::Free {
                        unbound == Err::<bool, HeapError>(HeapError::InvalidHeap)
                    } else if heap.state@.leases != 0 {
                        unbound == Ok::<bool, HeapError>(false) && after.state@ == closed
                    } else {
                        match first_error(heap.inner.extents.extents@, heap.extent_inbox@) {
                            Some(error) => unbound == Err::<bool, HeapError>(error) && after.state@
                                == closed,
                            None => unbound == Ok::<bool, HeapError>(true) && after.state@
                                == tried_reclaim(after, closed),
                        }
                    }
                },
            },
            forall|addr: int| #[trigger] final(self).holds(addr) == old(self).holds(addr),
    {
        let ghost before = *self;
        proof {
            self.lemma_grown_refl();
        }
        let index: u32 = match self.get(id) {
            None => {
                return Ok(true);
            },
            Some(index) => index,
        };
        match self.close(id, index, pages) {
            Err(error) => {
                proof {
                    lemma_spares_refl(before.arena@[index], os.effects@, os.discards);
                    lemma_spares_inner(
                        before.arena@[index],
                        before.arena@[index],
                        before.arena@[index],
                        self.arena@[index],
                        os.effects@,
                        os.effects@,
                        os.discards,
                    );
                }
                return Err(error);
            },
            Ok(()) => {},
        }
        let ghost closed = *self;
        proof {
            lemma_spares_refl(before.arena@[index], os.effects@, os.discards);
            lemma_spares_inner(
                before.arena@[index],
                before.arena@[index],
                before.arena@[index],
                closed.arena@[index],
                os.effects@,
                os.effects@,
                os.discards,
            );
        }
        if self.leases_out(id, pages) {
            return Ok(false);
        }
        assert(closed.found(id) == Some(index));
        assert(closed.entered(id, None) == Some(index));
        let flushed = self.flush(id, None, pages, os);
        proof {
            let heap = before.arena@[index];
            lemma_spares_inner(
                closed.arena@[index],
                heap,
                self.arena@[index],
                self.arena@[index],
                old(os).effects@,
                os.effects@,
                os.discards,
            );
            lemma_first_error_kinds(heap.inner.extents.extents@, heap.extent_inbox@);
            assert(closed.arena@[index].extent_queue(None) == heap.extent_inbox@);
            assert(closed.arena@[index].inner == heap.inner);
            self.lemma_grown_trans(closed, before);
            if flushed is Ok && claims_queued(heap) && forall|addr: int| !#[trigger]
                heap.holds(addr) {
                assert(before.heap_wf(index, old(pages)@));
                assert(self.heap_wf(index, pages@));
                law_emptied_heap_is_idle(heap, self.arena@[index]);
            }
            assert(self.arena@ =~= before.arena@.insert(index, self.arena@[index]));
            assert forall|addr: int| #[trigger] self.holds(addr) == before.holds(addr) by {
                assert(closed.holds(addr) == before.holds(addr));
            }
        }
        match flushed {
            Ok(()) => Ok(true),
            Err(HeapError::InvalidHeap) => Ok(true),
            Err(error) => Err(error),
        }
    }
}

} // verus!
