//! A thread's frontend: the heaps it owns and its current run of each class.
//!
//! A hit pops or pushes on the current run. Everything else goes through the
//! process state.

use vstd::prelude::*;

use crate::arena::max_slots;
use crate::heap::dispatch::tried_reclaim;
use crate::heap::error::{Abort, HeapError};
use crate::heap::extent::heap::allocated_at;
use crate::heap::extent::{Extent, ExtentInit, ExtentState};
use crate::heap::heaps::{free_ok, Heaps};
use crate::heap::id::HeapId;
use crate::heap::run::{RunError, RunFree};
use crate::heap::service::{
    claims_queued,
    drained,
    first_error,
    flushed_all,
    lemma_extent_holder,
    lemma_relinked,
    lemma_relinked_same,
    lemma_run_holder,
    lemma_taken_in,
    put_back,
    relinked,
    taken_in,
    wanting_map,
    wanting_pages,
};
use crate::heap::spare::lemma_no_effect;
use crate::heap::state::{HeapMode, Snapshot};
use crate::heap::Heap;
use crate::layout::LayoutSpec;
use crate::memory::{after_all, Os, PageOwner};
use crate::process::{
    added,
    all_zero_ready,
    block_spared,
    drawn,
    fresh_grant,
    lemma_all_zero_ready,
    lemma_drawn,
    lemma_drawn_trans,
    lemma_holder,
    lemma_none_drawn,
    lemma_peers_only,
    lemma_peers_trans,
    lemma_spared,
    lemma_spared_inner,
    lemma_spared_trans,
    lemma_spared_untouched,
    lemma_states_only,
    lemma_states_trans,
    lemma_untouched,
    peers_kept,
    removed,
    same_held,
    spared,
    states_kept,
    untouched,
    zeroed,
    Process,
};
use crate::size_class::{small, SizeClass, SizeClasses, COUNT};

verus! {

/// One heap slot of a thread. `Active` keeps the id that the heap had when the thread
/// took it.
#[derive(Clone, Copy, Debug, PartialEq, Eq, Structural)]
pub enum ThreadHeap {
    Vacant,
    Active { heap: u32, id: HeapId },
}

/// The run that a thread allocates from, by heap and slot.
#[derive(Clone, Copy, Debug, PartialEq, Eq, Structural)]
pub struct CurrentRun {
    pub heap: u32,
    pub run: u32,
}

/// Why an owner-local free did not happen.
#[derive(Clone, Copy, Debug, PartialEq, Eq, Structural)]
pub enum ThreadFreeError {
    /// The block belongs to a heap of another thread, or of none.
    Remote(PageOwner),
    Heap(HeapError),
    Abort,
}

impl ThreadHeap {
    /// The slot holds heap `index`.
    pub open spec fn has(self, index: u32) -> bool {
        self matches ThreadHeap::Active { heap, .. } && heap == index
    }

    /// The slot is vacant, or its heap is Active under the id it was taken with.
    pub open spec fn ok(self, heaps: Heaps) -> bool {
        self matches ThreadHeap::Active { heap, id } ==> {
            &&& heaps.arena@.contains_key(heap)
            &&& heaps.arena@[heap].state@.mode == HeapMode::Active
            &&& heaps.arena@[heap].spec_id() == id
        }
    }

    pub fn heap(self) -> (heap: Option<u32>)
        ensures
            heap == match self {
                ThreadHeap::Vacant => None::<u32>,
                ThreadHeap::Active { heap, .. } => Some(heap),
            },
    {
        match self {
            ThreadHeap::Vacant => None,
            ThreadHeap::Active { heap, .. } => Some(heap),
        }
    }

    pub fn id(self) -> (id: Option<HeapId>)
        ensures
            id == match self {
                ThreadHeap::Vacant => None::<HeapId>,
                ThreadHeap::Active { id, .. } => Some(id),
            },
    {
        match self {
            ThreadHeap::Vacant => None,
            ThreadHeap::Active { id, .. } => Some(id),
        }
    }

    /// Whether this slot holds heap `owner` in its present incarnation.
    pub fn owns(self, owner: u32, process: &Process) -> (owns: bool)
        requires
            process.wf(),
            process.heaps.arena@.contains_key(owner),
        ensures
            owns == (self matches ThreadHeap::Active { heap, id } && heap == owner && id
                == process.heaps.arena@[owner].spec_id()),
    {
        proof {
            assert(process.heaps.heap_wf(owner, process.pages@));
        }
        match self {
            ThreadHeap::Vacant => false,
            ThreadHeap::Active { heap, id } => match process.heaps.arena.get(owner) {
                None => false,
                Some(found) => heap == owner && id == found.id(),
            },
        }
    }

    /// Whether this slot's heap holds no live work.
    pub fn is_idle(self, process: &Process) -> (idle: bool)
        requires
            process.wf(),
            self matches ThreadHeap::Active { heap, .. } ==> process.heaps.arena@.contains_key(
                heap,
            ),
        ensures
            idle == (self matches ThreadHeap::Active { heap, .. }
                && process.heaps.arena@[heap].idle()),
    {
        match self {
            ThreadHeap::Vacant => false,
            ThreadHeap::Active { heap, .. } => {
                proof {
                    assert(process.heaps.heap_wf(heap, process.pages@));
                }
                match process.heaps.arena.get(heap) {
                    None => false,
                    Some(found) => {
                        if !found.inboxes_empty() || found.occupied() {
                            return false;
                        }
                        proof {
                            found.lemma_counts();
                        }
                        !found.inner.has_live()
                    },
                }
            },
        }
    }
}

/// Heaps that one thread owns, and its current run of each class.
pub struct ThreadHeaps {
    pub slots: Vec<ThreadHeap>,
    pub current: Vec<Option<CurrentRun>>,
}

impl ThreadHeaps {
    /// Heap `index` is in one of the slots.
    pub open spec fn binds(self, index: u32) -> bool {
        self.slots@[0].has(index) || self.slots@[1].has(index)
    }

    /// The heaps in the slots.
    pub open spec fn bound(self) -> Set<u32> {
        Set::new(|index: u32| self.binds(index))
    }

    /// The current run of a class is a run of that class in a bound heap.
    pub open spec fn current_ok(self, class: int, heaps: Heaps) -> bool {
        self.current@[class] matches Some(run) ==> {
            &&& self.binds(run.heap)
            &&& heaps.arena@[run.heap].inner.runs.runs@.contains_key(run.run)
            &&& heaps.arena@[run.heap].inner.runs.runs@[run.run].class.index == class
        }
    }

    pub open spec fn wf(self, heaps: Heaps) -> bool {
        &&& self.slots@.len() == 2
        &&& self.current@.len() == COUNT
        &&& self.slots@[0].ok(heaps)
        &&& self.slots@[1].ok(heaps)
        &&& forall|index: u32| !(self.slots@[0].has(index) && #[trigger] self.slots@[1].has(index))
        &&& forall|class: int| 0 <= class < COUNT ==> #[trigger] self.current_ok(class, heaps)
    }

    /// The block at `ptr` lies in a heap that the thread has attached.
    pub open spec fn owns_block(self, process: Process, ptr: usize) -> bool {
        process.owner_at(ptr as int) matches Some(owner) && self.binds(owner.spec_heap())
    }

    /// A further heap can be attached.
    pub open spec fn has_vacancy(self) -> bool {
        self.slots@[0] is Vacant || self.slots@[1] is Vacant
    }

    /// The heap that allocation uses.
    pub open spec fn spec_active(self) -> Option<u32> {
        match self.slots@[0] {
            ThreadHeap::Active { heap, .. } => Some(heap),
            ThreadHeap::Vacant => match self.slots@[1] {
                ThreadHeap::Active { heap, .. } => Some(heap),
                ThreadHeap::Vacant => None,
            },
        }
    }

    /// A bound heap is Active, so its runs and extents may be worked on.
    pub proof fn lemma_bound(self, heaps: Heaps, index: u32)
        requires
            self.wf(heaps),
            self.binds(index),
        ensures
            heaps.arena@.contains_key(index),
            heaps.arena@[index].state@.mode == HeapMode::Active,
            heaps.in_use(index),
    {
    }

    /// A thread's slots stay good when its heaps keep mode, id, runs, and extents.
    pub proof fn lemma_wf_kept(self, before: Heaps, after: Heaps)
        requires
            self.wf(before),
            after.grown(before),
            forall|index: u32| #[trigger]
                self.binds(index) ==> after.arena@[index].state@.mode == HeapMode::Active
                    && after.arena@[index].spec_id() == before.arena@[index].spec_id(),
        ensures
            self.wf(after),
    {
        assert forall|k: int| 0 <= k < 2 implies #[trigger] self.slots@[k].ok(after) by {
            if self.slots@[k] is Active {
                let heap = self.slots@[k]->heap;
                assert(self.slots@[k].ok(before));
                assert(self.binds(heap));
                assert(before.arena@.contains_key(heap));
            }
        }
        assert(self.slots@[0].ok(after));
        assert(self.slots@[1].ok(after));
        assert forall|class: int| 0 <= class < COUNT implies #[trigger] self.current_ok(
            class,
            after,
        ) by {
            assert(self.current_ok(class, before));
            if let Some(run) = self.current@[class] {
                self.lemma_bound(before, run.heap);
                assert(after.arena@[run.heap].shapes_kept(before.arena@[run.heap]));
            }
        }
    }

    /// A thread's slots stay good when no state changed.
    pub proof fn lemma_states_kept(self, before: Heaps, after: Heaps)
        requires
            self.wf(before),
            states_kept(before, after),
        ensures
            self.wf(after),
    {
        assert forall|index: u32| #[trigger] self.binds(index) implies
            after.arena@[index].state@.mode == HeapMode::Active && after.arena@[index].spec_id()
            == before.arena@[index].spec_id() by {
            self.lemma_bound(before, index);
        }
        self.lemma_wf_kept(before, after);
    }

    pub fn new() -> (thread: Self)
        ensures
            forall|heaps: Heaps| #[trigger] thread.wf(heaps),
            thread.spec_active() is None,
            forall|index: u32| !#[trigger] thread.binds(index),
            forall|class: int| 0 <= class < COUNT ==> thread.current@[class] is None,
    {
        let none: Option<CurrentRun> = None;
        let thread = Self { slots: vec![ThreadHeap::Vacant; 2], current: vec![none; COUNT] };
        assert(thread.slots@[0] == ThreadHeap::Vacant);
        assert(thread.slots@[1] == ThreadHeap::Vacant);
        thread
    }

    /// Whether this thread owns heap `owner` in its present incarnation.
    pub fn owns(&self, owner: u32, process: &Process) -> (owns: bool)
        requires
            self.wf(process.heaps),
            process.wf(),
            process.heaps.arena@.contains_key(owner),
        ensures
            owns == self.binds(owner),
    {
        self.slots[0].owns(owner, process) || self.slots[1].owns(owner, process)
    }

    /// First vacant slot.
    pub fn vacant(&self) -> (slot: Option<usize>)
        requires
            self.slots@.len() == 2,
        ensures
            slot == if self.slots@[0] is Vacant {
                Some(0usize)
            } else if self.slots@[1] is Vacant {
                Some(1usize)
            } else {
                None
            },
    {
        if matches!(self.slots[0], ThreadHeap::Vacant) {
            Some(0)
        } else if matches!(self.slots[1], ThreadHeap::Vacant) {
            Some(1)
        } else {
            None
        }
    }

    /// First slot with a heap.
    pub fn active(&self) -> (slot: Option<ThreadHeap>)
        requires
            self.slots@.len() == 2,
        ensures
            match self.spec_active() {
                None => slot is None,
                Some(index) => slot matches Some(slot) && slot.has(index) && (slot
                    == self.slots@[0] || slot == self.slots@[1]),
            },
    {
        match self.slots[0] {
            ThreadHeap::Active { heap, id } => Some(ThreadHeap::Active { heap, id }),
            ThreadHeap::Vacant => match self.slots[1] {
                ThreadHeap::Active { heap, id } => Some(ThreadHeap::Active { heap, id }),
                ThreadHeap::Vacant => None,
            },
        }
    }

    /// The heap that allocation uses.
    pub fn heap(&self) -> (heap: Option<u32>)
        requires
            self.slots@.len() == 2,
        ensures
            heap == self.spec_active(),
    {
        match self.active() {
            None => None,
            Some(slot) => slot.heap(),
        }
    }

    pub fn current(&self, class: SizeClass) -> (run: Option<CurrentRun>)
        requires
            class.wf(),
            self.current@.len() == COUNT,
        ensures
            run == self.current@[class.index as int],
    {
        self.current[class.index()]
    }

    pub fn set_current(&mut self, class: SizeClass, run: Option<CurrentRun>)
        requires
            class.wf(),
            old(self).current@.len() == COUNT,
        ensures
            final(self).slots == old(self).slots,
            final(self).current@ == old(self).current@.update(class.index as int, run),
    {
        self.current.set(class.index(), run);
    }

    /// The block that a hit on `class` gives: the top of the current run's free list.
    pub open spec fn hit(self, class: SizeClass, process: Process) -> Option<usize> {
        match self.current@[class.index as int] {
            None => None,
            Some(run) => {
                let free = process.heaps.arena@[run.heap].inner.runs.runs@[run.run].free@;
                if free.len() > 0 {
                    Some(free[0])
                } else {
                    None
                }
            },
        }
    }

    /// The block that the current run of `class` gives, cutting fresh ones if need be.
    pub open spec fn extended(self, class: SizeClass, process: Process) -> Option<usize> {
        match self.current@[class.index as int] {
            None => None,
            Some(current) => {
                let run = process.heaps.arena@[current.heap].inner.runs.runs@[current.run];
                if run.free@.len() > 0 {
                    Some(run.free@[0])
                } else if run.bump < run.capacity {
                    Some(run.block_addr(run.bump as int) as usize)
                } else {
                    None
                }
            },
        }
    }

    /// A block of a run is as long as the blocks of its class.
    proof fn lemma_run_block(self, process: Process, heap: u32, run: u32, ptr: usize)
        requires
            process.wf(),
            process.heaps.arena@.contains_key(heap),
            process.heaps.arena@[heap].inner.runs.runs@.contains_key(run),
            process.heaps.arena@[heap].inner.runs.runs@[run].located(ptr) is Ok,
        ensures
            process.owner_at(ptr as int) == Some(PageOwner::Run { heap, run }),
            process.block_len(ptr as int)
                == process.heaps.arena@[heap].inner.runs.runs@[run].class.size,
            process.heaps.arena@[heap].inner.runs.runs@[run].class.wf(),
    {
        assert(process.heaps.heap_wf(heap, process.pages@));
        let found = process.heaps.arena@[heap];
        lemma_run_holder(found, process.pages@, run, ptr as int);
        assert(found.inner.runs.run_wf(run, found.spec_index()));
    }

    /// Owner-local small allocation from the current run. `None` is a miss.
    pub fn allocate(&self, class: SizeClass, process: &mut Process) -> (ptr: Option<usize>)
        requires
            self.wf(old(process).heaps),
            old(process).wf(),
            class.wf(),
        ensures
            none_lost(*old(process), *self, *final(process), *self),
            spared(*old(process), *final(process)),
            final(process).wf(),
            self.wf(final(process).heaps),
            states_kept(old(process).heaps, final(process).heaps),
            final(process).pages == old(process).pages,
            final(process).os == old(process).os,
            ptr == self.hit(class, *old(process)),
            ptr is None ==> same_held(*old(process), *final(process)) && alike(
                *old(process),
                *final(process),
            ),
            ptr matches Some(ptr) ==> added(*old(process), *final(process), ptr)
                && final(process).small_block(ptr, class) && self.owns_block(*final(process), ptr),
            strangers_kept(old(process).heaps, final(process).heaps, *self, *self),
            drawn(*old(process), *final(process)),
    {
        let ghost before = *process;
        match self.current(class) {
            None => {
                proof {
                    process.heaps.lemma_grown_refl();
                    lemma_none_lost_refl(before, *self);
                    lemma_spared_inner(*process, *process);
                    lemma_none_drawn(*process, *process);
                }
                None
            },
            Some(run) => {
                proof {
                    assert(self.current_ok(class.index as int, before.heaps));
                    self.lemma_bound(before.heaps, run.heap);
                }
                let ptr = process.heaps.allocate_run(run.heap, run.run, &process.pages);
                proof {
                    lemma_states_only(before.heaps, process.heaps, run.heap);
                    self.lemma_states_kept(before.heaps, process.heaps);
                    lemma_runs_only(before, *process, run.heap);
                    lemma_none_drawn(before, *process);
                    lemma_tidy_loses_none(before, *process, *self, run.heap, None);
                    match ptr {
                        Some(ptr) => {
                            self.lemma_run_block(*process, run.heap, run.run, ptr);
                        },
                        None => {
                            lemma_alike_run(before, *process, run.heap, run.run);
                        },
                    }
                }
                ptr
            },
        }
    }

    /// Owner-local small free to the current run of `class`. `Ok(false)` is a miss.
    pub fn free(&self, ptr: usize, class: SizeClass, process: &mut Process) -> (freed: Result<
        bool,
        Abort,
    >)
        requires
            self.wf(old(process).heaps),
            old(process).wf(),
            class.wf(),
            old(process).freeable(ptr as int),
        ensures
            none_lost(*old(process), *self, *final(process), *self),
            spared(*old(process), *final(process)),
            final(process).wf(),
            self.wf(final(process).heaps),
            states_kept(old(process).heaps, final(process).heaps),
            final(process).pages == old(process).pages,
            final(process).os == old(process).os,
            freed == match self.current@[class.index as int] {
                None => Ok::<bool, Abort>(false),
                Some(run) => match old(process).heaps.arena@[run.heap].inner.runs.runs@[run.run].located(ptr) {
                    Ok(_) => Ok(true),
                    Err(RunError::OutOfRange) => Ok(false),
                    Err(_) => Err(Abort),
                },
            },
            freed == Ok::<bool, Abort>(true) ==> removed(*old(process), *final(process), ptr)
                && self.hit(class, *final(process)) == Some(ptr),
            freed != Ok::<bool, Abort>(true) ==> *final(process) == *old(process),
    {
        let ghost before = *process;
        proof {
            lemma_none_lost_refl(before, *self);
        }
        match self.current(class) {
            None => {
                proof {
                    process.heaps.lemma_grown_refl();
                    lemma_spared_inner(*process, *process);
                }
                Ok(false)
            },
            Some(run) => {
                proof {
                    assert(self.current_ok(class.index as int, before.heaps));
                    self.lemma_bound(before.heaps, run.heap);
                    if before.heaps.arena@[run.heap].inner.runs.runs@[run.run].located(
                        ptr,
                    ) is Ok {
                        self.lemma_run_block(before, run.heap, run.run, ptr);
                    }
                }
                let located = match process.heaps.arena.get(run.heap) {
                    None => Err(RunError::OutOfRange),
                    Some(heap) => match heap.inner.runs.runs.get(run.run) {
                        None => Err(RunError::OutOfRange),
                        Some(found) => {
                            proof {
                                assert(before.heaps.heap_wf(run.heap, before.pages@));
                                assert(heap.inner.runs.run_wf(run.run, heap.spec_index()));
                            }
                            found.locate(ptr)
                        },
                    },
                };
                if let Err(error) = located {
                    proof {
                        process.heaps.lemma_grown_refl();
                        lemma_spared_inner(*process, *process);
                    }
                    return match error {
                        RunError::OutOfRange => Ok(false),
                        _ => Err(Abort),
                    };
                }
                let freed = process.heaps.free_run(run.heap, run.run, ptr, &process.pages);
                proof {
                    lemma_states_only(before.heaps, process.heaps, run.heap);
                    self.lemma_states_kept(before.heaps, process.heaps);
                    lemma_runs_only(before, *process, run.heap);
                    assert(self.current@[class.index as int] == Some(run));
                    assert(self.running(run.heap, run.run));
                    lemma_tidy_loses_none(before, *process, *self, run.heap, Some(run.run));
                }
                match freed {
                    Ok(_) => Ok(true),
                    Err(RunError::OutOfRange) => Ok(false),
                    Err(_) => Err(Abort),
                }
            },
        }
    }

    /// A block from the current run, cut from fresh space when its free list is empty.
    fn extend_current(&self, class: SizeClass, process: &mut Process) -> (ptr: Option<usize>)
        requires
            self.wf(old(process).heaps),
            old(process).wf(),
            class.wf(),
        ensures
            none_lost(*old(process), *self, *final(process), *self),
            spared(*old(process), *final(process)),
            final(process).wf(),
            self.wf(final(process).heaps),
            states_kept(old(process).heaps, final(process).heaps),
            final(process).pages == old(process).pages,
            final(process).os == old(process).os,
            ptr == self.extended(class, *old(process)),
            ptr is None ==> same_held(*old(process), *final(process)),
            ptr matches Some(ptr) ==> added(*old(process), *final(process), ptr)
                && final(process).small_block(ptr, class) && self.owns_block(*final(process), ptr),
            strangers_kept(old(process).heaps, final(process).heaps, *self, *self),
            drawn(*old(process), *final(process)),
            self.current@[class.index as int] is None ==> *final(process) == *old(process),
            self.current@[class.index as int] matches Some(run) ==> {
                let was = old(process).heaps.arena@[run.heap];
                let now = final(process).heaps.arena@[run.heap];
                &&& final(process).heaps.only(old(process).heaps, run.heap)
                &&& now.same_but_runs(was)
                &&& now.inner.runs.only(was.inner.runs, run.run)
                &&& ptr is None ==> now.inner.runs.runs@[run.run] == was.inner.runs.runs@[run.run]
            },
    {
        let ghost before = *process;
        match self.current(class) {
            None => {
                proof {
                    process.heaps.lemma_grown_refl();
                    lemma_none_lost_refl(before, *self);
                    lemma_spared_inner(*process, *process);
                    lemma_none_drawn(*process, *process);
                }
                None
            },
            Some(run) => {
                proof {
                    assert(self.current_ok(class.index as int, before.heaps));
                    self.lemma_bound(before.heaps, run.heap);
                }
                let ptr = process.heaps.allocate_or_extend(run.heap, run.run, &process.pages);
                proof {
                    lemma_states_only(before.heaps, process.heaps, run.heap);
                    self.lemma_states_kept(before.heaps, process.heaps);
                    lemma_runs_only(before, *process, run.heap);
                    lemma_none_drawn(before, *process);
                    lemma_tidy_loses_none(before, *process, *self, run.heap, None);
                    if let Some(ptr) = ptr {
                        self.lemma_run_block(*process, run.heap, run.run, ptr);
                    }
                }
                ptr
            },
        }
    }

    /// Freelist empty: cut the current run further, else take in remote frees and check
    /// out another run.
    #[verifier::rlimit(40)]
    pub fn alloc_miss(&mut self, class: SizeClass, process: &mut Process) -> (allocated: Result<
        Option<usize>,
        HeapError,
    >)
        requires
            old(self).wf(old(process).heaps),
            old(process).wf(),
            class.wf(),
        ensures
            gains_free(old(process).heaps, old(self).bound(), final(self).bound()),
            none_lost(*old(process), *old(self), *final(process), *final(self)),
            spared(*old(process), *final(process)),
            final(process).wf(),
            final(self).wf(final(process).heaps),
            final(self).slots == old(self).slots,
            states_kept(old(process).heaps, final(process).heaps),
            final(process).os.discards == old(process).os.discards,
            match old(self).spec_active() {
                None => allocated == Ok::<Option<usize>, HeapError>(None) && *final(process) == *old(
                    process,
                ) && *final(self) == *old(self),
                Some(index) => {
                    let heap = old(process).heaps.arena@[index];
                    if old(self).extended(class, *old(process)) is Some {
                        allocated == Ok::<Option<usize>, HeapError>(
                            old(self).extended(class, *old(process)),
                        )
                    } else {
                        match first_error(heap.inner.extents.extents@, heap.extent_inbox@) {
                            Some(error) => allocated == Err::<Option<usize>, HeapError>(error),
                            None => allocated is Ok && exists|middle: Process| #[trigger]
                                after_flush(*old(process), middle, index)
                                    && allocated->Ok_0 is Some == can_acquire(middle, index, class),
                        }
                    }
                },
            },
            final(process).os.grant == old(process).os.grant || (final(process).os.grant is None && old(process).os.can_map(
                crate::heap::run::MAP_SIZE as int,
                crate::heap::run::RUN_SIZE as int,
            )),
            allocated matches Ok(None) ==> (old(self).spec_active() matches Some(index)
                ==> final(process).heaps.arena@[index].extent_inbox@.len() == 0 && final(process).heaps.arena@[index].run_inbox@.len() == 0 && wanting_map(
                final(process).heaps.arena@[index],
                old(process).os,
                final(process).os,
            )),
            !(allocated matches Ok(Some(_))) ==> same_held(*old(process), *final(process)),
            allocated matches Ok(Some(ptr)) ==> added(*old(process), *final(process), ptr)
                && final(process).small_block(ptr, class) && final(self).owns_block(
                *final(process),
                ptr,
            ),
            strangers_kept(old(process).heaps, final(process).heaps, *old(self), *final(self)),
            drawn(*old(process), *final(process)),
    {
        let ghost before = *process;
        let ghost thread = *self;
        let index: u32 = match self.heap() {
            None => {
                proof {
                    process.heaps.lemma_grown_refl();
                    lemma_none_lost_refl(before, thread);
                    lemma_spared_inner(*process, *process);
                    lemma_none_drawn(*process, *process);
                }
                return Ok(None);
            },
            Some(index) => index,
        };
        assert(self.binds(index));
        if let Some(ptr) = self.extend_current(class, process) {
            return Ok(Some(ptr));
        }
        let ghost missed = *process;
        proof {
            self.lemma_bound(missed.heaps, index);
            self.lemma_bound(before.heaps, index);
            lemma_missed(*self, before, missed, class, index);
            assert(process.heaps.heap_wf(index, process.pages@));
        }
        let empty = match process.heaps.arena.get(index) {
            None => true,
            Some(heap) => heap.inboxes_empty(),
        };
        if !empty {
            match process.heaps.flush_heap(index, None, &mut process.pages, &mut process.os) {
                Ok(()) => {},
                Err(error) => {
                    proof {
                        lemma_states_only(missed.heaps, process.heaps, index);
                        lemma_states_trans(before.heaps, missed.heaps, process.heaps);
                        self.lemma_states_kept(before.heaps, process.heaps);
                        lemma_spared(missed, *process, index, None);
                        lemma_spared_trans(before, missed, *process);
                        lemma_none_drawn(missed, *process);
                        lemma_drawn_trans(before, missed, *process);
                        lemma_tidy_loses_none(missed, *process, thread, index, None);
                        lemma_none_lost_trans(before, thread, missed, thread, *process, thread);
                    }
                    return Err(error);
                },
            }
        }
        let ghost flushed = *process;
        proof {
            if empty {
                process.heaps.lemma_grown_refl();
                assert(missed.heaps.arena@ =~= missed.heaps.arena@.insert(
                    index,
                    missed.heaps.arena@[index],
                ));
                lemma_spared_inner(missed, flushed);
            } else {
                lemma_spared(missed, flushed, index, None);
            }
            lemma_states_only(missed.heaps, flushed.heaps, index);
            lemma_states_trans(before.heaps, missed.heaps, flushed.heaps);
            self.lemma_states_kept(before.heaps, flushed.heaps);
            lemma_spared_trans(before, missed, flushed);
            self.lemma_bound(flushed.heaps, index);
            assert(after_flush(before, flushed, index));
            lemma_none_drawn(missed, flushed);
            lemma_drawn_trans(before, missed, flushed);
            if empty {
                lemma_none_lost_refl(missed, thread);
            } else {
                lemma_tidy_loses_none(missed, flushed, thread, index, None);
            }
            lemma_none_lost_trans(before, thread, missed, thread, flushed, thread);
        }
        let taken = process.heaps.acquire_run(index, class, &mut process.pages, &mut process.os);
        proof {
            lemma_states_only(flushed.heaps, process.heaps, index);
            lemma_states_trans(before.heaps, flushed.heaps, process.heaps);
            lemma_spared(flushed, *process, index, None);
            lemma_spared_trans(before, flushed, *process);
            self.lemma_states_kept(before.heaps, process.heaps);
            assert(taken is Some == can_acquire(flushed, index, class));
            lemma_drawn(flushed, *process, index);
            lemma_drawn_trans(before, flushed, *process);
        }
        let run: u32 = match taken {
            None => {
                proof {
                    lemma_tidy_loses_none(flushed, *process, thread, index, None);
                    lemma_none_lost_trans(before, thread, flushed, thread, *process, thread);
                }
                return Ok(None);
            },
            Some(run) => run,
        };
        let ghost acquired = *process;
        self.set_current(class, Some(CurrentRun { heap: index, run }));
        proof {
            assert forall|at: int| 0 <= at < COUNT implies #[trigger] self.current_ok(
                at,
                acquired.heaps,
            ) by {
                if at != class.index {
                    assert(thread.current_ok(at, acquired.heaps));
                    if let Some(run) = self.current@[at] {
                        assert(thread.binds(run.heap));
                        assert(self.binds(run.heap));
                    }
                } else {
                    assert(self.binds(index));
                }
            }
            assert(acquired.heaps.heap_wf(index, acquired.pages@));
            let heap = acquired.heaps.arena@[index];
            assert(heap.inner.runs.run_wf(run, heap.spec_index()));
            assert(self.extended(class, acquired) is Some);
            assert(thread.extended(class, before) is None);
            assert forall|at: u32, slot: u32|
                acquired.heaps.arena@.contains_key(at)
                    && #[trigger] acquired.heaps.arena@[at].inner.runs.loose(
                    slot,
                ) implies before.heaps.arena@.contains_key(at)
                && before.heaps.arena@[at].inner.runs.loose(slot) || (at == index && slot == run) by {
                assert(flushed.heaps.arena@.contains_key(at));
                assert(missed.heaps.arena@.contains_key(at));
                assert(before.heaps.arena@.contains_key(at));
                if !(at == index && slot == run) {
                    assert(flushed.heaps.arena@[at].inner.runs.loose(slot));
                    assert(missed.heaps.arena@[at].inner.runs.loose(slot));
                    assert(before.heaps.arena@[at].inner.runs.loose(slot));
                }
            }
            lemma_switched_loses_none(
                before,
                acquired,
                thread,
                *self,
                class,
                CurrentRun { heap: index, run },
            );
            assert(strangers_kept(before.heaps, acquired.heaps, thread, *self));
        }
        let ptr = self.extend_current(class, process);
        proof {
            lemma_strangers_trans(
                before.heaps,
                acquired.heaps,
                process.heaps,
                thread,
                *self,
                *self,
            );
            lemma_states_trans(before.heaps, acquired.heaps, process.heaps);
            lemma_spared_trans(before, acquired, *process);
            lemma_drawn_trans(before, acquired, *process);
            lemma_none_lost_trans(before, thread, acquired, *self, *process, *self);
        }
        Ok(ptr)
    }

    /// Owner-local large allocation. `Ok(None)` without an attached heap.
    pub fn alloc_extent(&self, spec: LayoutSpec, init: ExtentInit, process: &mut Process) -> (
    allocated: Result<Option<usize>, HeapError>)
        requires
            self.wf(old(process).heaps),
            old(process).wf(),
            spec.wf(),
        ensures
            none_lost(*old(process), *self, *final(process), *self),
            untouched(*old(process), *final(process)),
            final(process).os.grant == old(process).os.grant || final(process).os.grant is None,
            fresh_grant(*old(process)) ==> spared(*old(process), *final(process)),
            init == ExtentInit::Zeroed ==> (allocated matches Ok(Some(ptr)) ==> zeroed(
                *old(process),
                *final(process),
                ptr,
                spec.size,
            )),
            !(allocated matches Ok(Some(_))) ==> idle_grant(*old(process), *final(process)),
            final(process).wf(),
            self.wf(final(process).heaps),
            states_kept(old(process).heaps, final(process).heaps),
            final(process).os.discards == old(process).os.discards,
            match self.spec_active() {
                None => allocated == Ok::<Option<usize>, HeapError>(None) && *final(process)
                    == *old(process),
                Some(index) => {
                    let heap = old(process).heaps.arena@[index];
                    &&& match first_error(heap.inner.extents.extents@, heap.extent_inbox@) {
                        Some(error) => allocated == Err::<Option<usize>, HeapError>(error),
                        None => allocated is Ok,
                    }
                    &&& heap.extent_inbox@.len() == 0 ==> allocated == Ok::<
                        Option<usize>,
                        HeapError,
                    >(
                        heap.inner.extents.allocation(
                            spec,
                            old(process).pages@,
                            old(process).os,
                        ),
                    )
                    &&& allocated matches Ok(ptr) ==> exists|
                        flushed: Heap,
                        flushed_pages: Map<usize, PageOwner>,
                        flushed_os: Os,
                    | #[trigger]
                        drained(
                            heap,
                            old(process).pages@,
                            old(process).os,
                            flushed,
                            flushed_pages,
                            flushed_os,
                        ) && ptr == flushed.inner.extents.allocation(
                            spec,
                            flushed_pages,
                            flushed_os,
                        )
                },
            },
            self.spec_active() matches Some(index) ==> final(process).heaps.arena@[index].extent_inbox@.len()
                == 0 && final(process).heaps.arena@[index].run_inbox@.len() == 0,
            self.spec_active() is Some && (allocated matches Ok(None)) ==> wanting_pages(
                spec,
                old(process).os,
                final(process).os,
            ),
            !(allocated matches Ok(Some(_))) ==> same_held(*old(process), *final(process)),
            allocated matches Ok(Some(ptr)) ==> added(*old(process), *final(process), ptr)
                && final(process).block_len(ptr as int) == spec.size && ptr % spec.align == 0
                && self.owns_block(*final(process), ptr),
            strangers_kept(old(process).heaps, final(process).heaps, *self, *self),
            drawn(*old(process), *final(process)),
    {
        proof {
            lemma_none_lost_refl(*process, *self);
        }
        let ghost before = *process;
        let index: u32 = match self.heap() {
            None => {
                proof {
                    process.heaps.lemma_grown_refl();
                    lemma_spared_inner(*process, *process);
                    lemma_spared_untouched(*process, *process);
                    lemma_none_drawn(*process, *process);
                }
                return Ok(None);
            },
            Some(index) => index,
        };
        proof {
            assert(self.binds(index));
            self.lemma_bound(before.heaps, index);
        }
        let allocated = process.heaps.alloc_extent(
            index,
            spec,
            init,
            &mut process.pages,
            &mut process.os,
        );
        proof {
            lemma_states_only(before.heaps, process.heaps, index);
            self.lemma_states_kept(before.heaps, process.heaps);
            lemma_untouched(before, *process, index);
            lemma_drawn(before, *process, index);
            lemma_tidy_loses_none(before, *process, *self, index, None);
            if fresh_grant(before) {
                lemma_spared(before, *process, index, before.os.grant);
            }
            assert forall|bytes: spec_fn(int) -> u8| #[trigger]
                all_zero_ready(
                    before,
                    after_all(before.os.effects@, before.os.discards, bytes),
                ) implies all_zero_ready(
                *process,
                after_all(process.os.effects@, process.os.discards, bytes),
            ) by {
                lemma_all_zero_ready(before, *process, index, before.os.grant, bytes);
            }
            if let Ok(Some(ptr)) = allocated {
                let heap = process.heaps.arena@[index];
                let slot = choose|slot: u32| #[trigger]
                    allocated_at(heap.inner.extents, slot, ptr, spec);
                assert(process.heaps.heap_wf(index, process.pages@));
                assert(heap.inner.extents.extents@[slot].wf());
                lemma_extent_holder(heap, process.pages@, slot);
            }
        }
        allocated
    }

    /// Owner-local free of a block of run `run` in heap `heap`.
    ///
    /// The run goes back to its heap when it left full or its payload can be discarded.
    pub fn free_run(&self, heap: u32, run: u32, ptr: usize, process: &mut Process) -> (freed: Result<
        (),
        ThreadFreeError,
    >)
        requires
            self.wf(old(process).heaps),
            old(process).wf(),
            old(process).heaps.has_owner(PageOwner::Run { heap, run }),
            old(process).heaps.arena@[heap].freeable(PageOwner::Run { heap, run }, ptr),
        ensures
            none_lost(*old(process), *self, *final(process), *self),
            spared(*old(process), *final(process)),
            final(process).wf(),
            self.wf(final(process).heaps),
            states_kept(old(process).heaps, final(process).heaps),
            final(process).pages == old(process).pages,
            final(process).os.grant == old(process).os.grant,
            final(process).os.discards == old(process).os.discards,
            freed == if !self.binds(heap) {
                Err::<(), ThreadFreeError>(
                    ThreadFreeError::Remote(PageOwner::Run { heap, run }),
                )
            } else if old(process).heaps.arena@[heap].inner.runs.runs@[run].located(ptr) is Err {
                Err::<(), ThreadFreeError>(ThreadFreeError::Abort)
            } else {
                Ok::<(), ThreadFreeError>(())
            },
            freed is Ok ==> removed(*old(process), *final(process), ptr) && final(process).heaps.arena@[heap].inner.runs.runs@[run].live == old(process).heaps.arena@[heap].inner.runs.runs@[run].live - 1,
            freed is Ok ==> gives_back(
                *old(process),
                *final(process),
                PageOwner::Run { heap, run },
                ptr,
            ),
            final(process).os.wanted == old(process).os.wanted,
            freed matches Err(ThreadFreeError::Remote(_)) ==> *final(process) == *old(process),
            freed is Err ==> same_held(*old(process), *final(process)),
            final(process).heaps.only(old(process).heaps, heap),
            final(process).heaps.arena@[heap].state@ == old(process).heaps.arena@[heap].state@,
    {
        proof {
            reveal(gives_back);
            lemma_none_lost_refl(*process, *self);
        }
        let ghost before = *process;
        proof {
            process.heaps.lemma_grown_refl();
            lemma_spared_inner(before, before);
            assert(before.heaps.arena@ =~= before.heaps.arena@.insert(
                heap,
                before.heaps.arena@[heap],
            ));
        }
        if !self.owns(heap, process) {
            return Err(ThreadFreeError::Remote(PageOwner::Run { heap, run }));
        }
        proof {
            self.lemma_bound(before.heaps, heap);
        }
        let outcome = match process.heaps.free_run(heap, run, ptr, &process.pages) {
            Err(_) => {
                proof {
                    lemma_states_only(before.heaps, process.heaps, heap);
                    self.lemma_states_kept(before.heaps, process.heaps);
                    lemma_runs_only(before, *process, heap);
                    lemma_tidy_loses_none(before, *process, *self, heap, None);
                }
                return Err(ThreadFreeError::Abort);
            },
            Ok(outcome) => outcome,
        };
        let ghost pushed = *process;
        proof {
            assert(before.heaps.heap_wf(heap, before.pages@));
            assert(before.heaps.arena@[heap].inner.runs.run_wf(
                run,
                before.heaps.arena@[heap].spec_index(),
            ));
            before.heaps.arena@[heap].inner.runs.runs@[run].lemma_live_bound();
            lemma_states_only(before.heaps, pushed.heaps, heap);
            self.lemma_states_kept(before.heaps, pushed.heaps);
            lemma_runs_only(before, pushed, heap);
            self.lemma_bound(pushed.heaps, heap);
        }
        let discardable = match process.heaps.arena.get(heap) {
            None => false,
            Some(found) => match found.inner.runs.runs.get(run) {
                None => false,
                Some(found) => found.is_discardable(),
            },
        };
        if outcome == RunFree::Available || discardable {
            proof {
                assert(before.heaps.heap_wf(heap, before.pages@));
                assert(before.heaps.arena@[heap].inner.runs.run_wf(
                    run,
                    before.heaps.arena@[heap].spec_index(),
                ));
                assert(pushed.heaps.arena@[heap].inner.runs.runs@[run].same_shape(
                    before.heaps.arena@[heap].inner.runs.runs@[run],
                ));
            }
            let released = process.heaps.release_run(
                heap,
                run,
                outcome,
                &process.pages,
                &mut process.os,
            );
            proof {
                lemma_states_only(pushed.heaps, process.heaps, heap);
                lemma_states_trans(before.heaps, pushed.heaps, process.heaps);
                lemma_spared(pushed, *process, heap, None);
                lemma_spared_trans(before, pushed, *process);
                self.lemma_states_kept(before.heaps, process.heaps);
                assert(process.heaps.arena@ =~= before.heaps.arena@.insert(
                    heap,
                    process.heaps.arena@[heap],
                ));
                assert(process.heaps.arena@[heap].inner.runs.runs@
                    =~= before.heaps.arena@[heap].inner.runs.runs@.insert(
                    run,
                    process.heaps.arena@[heap].inner.runs.runs@[run],
                ));
            }
            if released.is_err() {
                return Err(ThreadFreeError::Abort);
            }
        }
        proof {
            lemma_tidy_loses_none(before, *process, *self, heap, None);
        }
        Ok(())
    }

    /// Owner-local free of extent `extent` in heap `heap`.
    pub fn free_extent(&self, heap: u32, extent: u32, ptr: usize, process: &mut Process) -> (freed:
        Result<(), ThreadFreeError>)
        requires
            self.wf(old(process).heaps),
            old(process).wf(),
            old(process).heaps.has_owner(PageOwner::Extent { heap, extent }),
        ensures
            none_lost(*old(process), *self, *final(process), *self),
            spared(*old(process), *final(process)),
            final(process).wf(),
            self.wf(final(process).heaps),
            states_kept(old(process).heaps, final(process).heaps),
            final(process).os.grant == old(process).os.grant,
            final(process).os.discards == old(process).os.discards,
            freed == if !self.binds(heap) {
                Err::<(), ThreadFreeError>(
                    ThreadFreeError::Remote(PageOwner::Extent { heap, extent }),
                )
            } else {
                match old(process).heaps.arena@[heap].free_error(
                    PageOwner::Extent { heap, extent },
                    ptr,
                ) {
                    Some(error) => Err::<(), ThreadFreeError>(ThreadFreeError::Heap(error)),
                    None => Ok::<(), ThreadFreeError>(()),
                }
            },
            freed is Ok ==> removed(*old(process), *final(process), ptr),
            freed is Ok ==> gives_back(
                *old(process),
                *final(process),
                PageOwner::Extent { heap, extent },
                ptr,
            ),
            final(process).os.wanted == old(process).os.wanted,
            freed matches Err(ThreadFreeError::Remote(_)) ==> *final(process) == *old(process),
            freed is Err ==> same_held(*old(process), *final(process)),
            final(process).heaps.only(old(process).heaps, heap),
            final(process).heaps.arena@[heap].state@ == old(process).heaps.arena@[heap].state@,
    {
        proof {
            reveal(gives_back);
            lemma_none_lost_refl(*process, *self);
        }
        let ghost before = *process;
        proof {
            process.heaps.lemma_grown_refl();
            lemma_spared_inner(before, before);
            assert(before.heaps.arena@ =~= before.heaps.arena@.insert(
                heap,
                before.heaps.arena@[heap],
            ));
        }
        if !self.owns(heap, process) {
            return Err(ThreadFreeError::Remote(PageOwner::Extent { heap, extent }));
        }
        proof {
            self.lemma_bound(before.heaps, heap);
        }
        let freed = process.heaps.free_local(
            PageOwner::Extent { heap, extent },
            ptr,
            &mut process.pages,
            &mut process.os,
        );
        proof {
            lemma_states_only(before.heaps, process.heaps, heap);
            self.lemma_states_kept(before.heaps, process.heaps);
            lemma_spared(before, *process, heap, None);
            lemma_tidy_loses_none(before, *process, *self, heap, None);
        }
        match freed {
            Ok(_) => Ok(()),
            Err(error) => Err(ThreadFreeError::Heap(error)),
        }
    }

    /// Attach a heap: the one already attached, else one acquired into a vacant slot.
    pub fn bind(&mut self, process: &mut Process) -> (id: Option<HeapId>)
        requires
            old(self).wf(old(process).heaps),
            old(process).wf(),
        ensures
            gains_free(old(process).heaps, old(self).bound(), final(self).bound()),
            none_lost(*old(process), *old(self), *final(process), *final(self)),
            idle_grant(*old(process), *final(process)),
            spared(*old(process), *final(process)),
            final(process).wf(),
            final(self).wf(final(process).heaps),
            keeps_bound(*old(self), *final(self)),
            strangers_kept(old(process).heaps, final(process).heaps, *old(self), *final(self)),
            drawn(*old(process), *final(process)),
            final(self).current == old(self).current,
            final(process).pages == old(process).pages,
            final(process).os == old(process).os,
            peers_kept(old(process).heaps, final(process).heaps, old(self).bound()),
            same_held(*old(process), *final(process)),
            match old(self).spec_active() {
                Some(index) => id == Some(old(process).heaps.arena@[index].spec_id())
                    && *final(self) == *old(self) && *final(process) == *old(process),
                None => {
                    let heaps = old(process).heaps;
                    &&& id is Some == (heaps.stack@.len() > 0 || (heaps.arena.slots@.len()
                        < u32::MAX - 1 && heaps.arena.slots@.len() < max_slots::<Heap>()))
                    &&& id matches Some(id) ==> final(self).spec_active() matches Some(index)
                        && final(process).heaps.arena@[index].spec_id() == id
                        && final(process).heaps.arena@[index].idle() && attached(
                        heaps,
                        final(process).heaps,
                        index,
                    )
                    &&& id is None ==> final(self).spec_active() is None
                },
            },
    {
        let ghost before = *process;
        let ghost thread = *self;
        if let Some(slot) = self.active() {
            proof {
                process.heaps.lemma_grown_refl();
                lemma_none_lost_refl(before, thread);
                lemma_spared_inner(*process, *process);
                lemma_none_drawn(*process, *process);
            }
            return slot.id();
        }
        let acquired = process.heaps.acquire(&process.pages);
        proof {
            lemma_acquired(before.heaps, process.heaps, acquired);
            if before.heaps.stack@.len() > 0 {
                assert(free_ok(before.heaps.arena@, before.heaps.stack@, 0));
            }
            assert forall|bytes: spec_fn(int) -> u8| #[trigger]
                all_zero_ready(
                    before,
                    after_all(before.os.effects@, before.os.discards, bytes),
                ) implies all_zero_ready(
                *process,
                after_all(process.os.effects@, process.os.discards, bytes),
            ) by {
                lemma_bound_ready(
                    before,
                    *process,
                    after_all(before.os.effects@, before.os.discards, bytes),
                );
            }
            lemma_spared_inner(before, *process);
            lemma_none_drawn(before, *process);
            lemma_acquired_loses_none(before, *process, thread, acquired);
            assert forall|index: u32| #[trigger] thread.binds(index) implies false by {}
        }
        match acquired {
            None => {
                proof {
                    self.lemma_wf_kept(before.heaps, process.heaps);
                }
                None
            },
            Some(index) => {
                let id = match process.heaps.arena.get(index) {
                    None => {
                        return None;
                    },
                    Some(heap) => {
                        proof {
                            assert(process.heaps.heap_wf(index, process.pages@));
                        }
                        heap.id()
                    },
                };
                self.slots.set(0, ThreadHeap::Active { heap: index, id });
                proof {
                    assert forall|class: int| 0 <= class < COUNT implies #[trigger] self.current_ok(
                        class,
                        process.heaps,
                    ) by {
                        assert(thread.current_ok(class, before.heaps));
                    }
                    lemma_none_lost_like(before, thread, *process, thread, *process, *self);
                }
                Some(id)
            },
        }
    }

    /// Become the owner of a Draining heap. `Ok(false)` when no slot is vacant or the heap
    /// is not Draining.
    pub fn adopt(&mut self, heap: u32, process: &mut Process) -> (adopted: Result<bool, Abort>)
        requires
            old(self).wf(old(process).heaps),
            old(process).wf(),
            old(process).heaps.arena@.contains_key(heap),
        ensures
            gains_free(old(process).heaps, old(self).bound(), final(self).bound()),
            none_lost(*old(process), *old(self), *final(process), *final(self)),
            spared(*old(process), *final(process)),
            final(process).wf(),
            final(self).wf(final(process).heaps),
            final(self).current == old(self).current,
            final(process).heaps.grown(old(process).heaps),
            final(process).heaps.only(old(process).heaps, heap),
            final(process).heaps.stack@ == old(process).heaps.stack@,
            final(process).os.grant == old(process).os.grant,
            final(process).os.wanted == old(process).os.wanted,
            final(process).os.discards == old(process).os.discards,
            peers_kept(old(process).heaps, final(process).heaps, old(self).bound()),
            same_held(*old(process), *final(process)),
            ({
                let found = old(process).heaps.arena@[heap];
                if old(self).binds(heap) {
                    adopted == Ok::<bool, Abort>(true) && *final(self) == *old(self)
                        && *final(process) == *old(process)
                } else if (old(self).slots@[0] is Active && old(self).slots@[1] is Active)
                    || found.state@.mode != HeapMode::Draining {
                    adopted == Ok::<bool, Abort>(false) && *final(self) == *old(self)
                        && final(process).heaps.arena@[heap].state@ == found.state@
                        && final(process).heaps.arena@[heap].same_but_state(found)
                } else {
                    &&& final(self).binds(heap)
                    &&& forall|index: u32| #[trigger]
                        final(self).binds(index) == (index == heap || old(self).binds(index))
                    &&& adopted == match first_error(
                        found.inner.extents.extents@,
                        found.extent_inbox@,
                    ) {
                        Some(_) => Err::<bool, Abort>(Abort),
                        None => Ok::<bool, Abort>(true),
                    }
                    &&& flushed_all(
                        found,
                        final(process).heaps.arena@[heap],
                        None,
                        adopted is Ok,
                    )
                    &&& final(process).heaps.arena@[heap].run_inbox@.len() == 0
                    &&& final(process).heaps.arena@[heap].extent_inbox@.len() == 0
                    &&& final(process).heaps.arena@[heap].state@ == (Snapshot {
                        mode: HeapMode::Active,
                        ..found.state@
                    })
                    &&& (final(self).slots@[0] is Active && final(self).slots@[1] is Active) == (old(self).slots@[0] is Active || old(self).slots@[1] is Active)
                }
            }),
    {
        let ghost before = *process;
        let ghost thread = *self;
        proof {
            process.heaps.lemma_grown_refl();
            lemma_spared_inner(before, before);
            lemma_none_lost_refl(before, thread);
            assert(before.heaps.arena@ =~= before.heaps.arena@.insert(
                heap,
                before.heaps.arena@[heap],
            ));
        }
        if self.owns(heap, process) {
            return Ok(true);
        }
        let slot: usize = match self.vacant() {
            None => {
                return Ok(false);
            },
            Some(slot) => slot,
        };
        let id = match process.heaps.arena.get(heap) {
            None => {
                return Ok(false);
            },
            Some(found) => {
                proof {
                    assert(process.heaps.heap_wf(heap, process.pages@));
                }
                found.id()
            },
        };
        let adopted = process.heaps.adopt(id, heap, &process.pages);
        let ghost taken = *process;
        proof {
            lemma_spared_inner(before, taken);
            lemma_tidy_loses_none(before, taken, thread, heap, None);
        }
        if adopted.is_err() {
            proof {
                lemma_peers_only(before.heaps, taken.heaps, heap, thread.bound());
                lemma_states_only(before.heaps, taken.heaps, heap);
                self.lemma_states_kept(before.heaps, taken.heaps);
            }
            return Ok(false);
        }
        proof {
            lemma_peers_only(before.heaps, taken.heaps, heap, thread.bound());
            assert forall|index: u32| #[trigger] thread.binds(index) implies
                taken.heaps.arena@[index].state@.mode == HeapMode::Active
                && taken.heaps.arena@[index].spec_id() == before.heaps.arena@[index].spec_id() by {
                thread.lemma_bound(before.heaps, index);
            }
            thread.lemma_wf_kept(before.heaps, taken.heaps);
        }
        self.slots.set(slot, ThreadHeap::Active { heap, id });
        proof {
            assert forall|class: int| 0 <= class < COUNT implies #[trigger] self.current_ok(
                class,
                taken.heaps,
            ) by {
                assert(thread.current_ok(class, taken.heaps));
                if let Some(run) = thread.current@[class] {
                    assert(thread.binds(run.heap));
                }
            }
            assert(self.wf(taken.heaps));
            lemma_none_lost_like(before, thread, taken, thread, taken, *self);
        }
        let flushed = process.heaps.flush_heap(
            heap,
            None,
            &mut process.pages,
            &mut process.os,
        );
        proof {
            lemma_states_only(taken.heaps, process.heaps, heap);
            self.lemma_states_kept(taken.heaps, process.heaps);
            lemma_spared(taken, *process, heap, None);
            lemma_spared_trans(before, taken, *process);
            lemma_tidy_loses_none(taken, *process, *self, heap, None);
            lemma_none_lost_trans(before, thread, taken, *self, *process, *self);
            lemma_peers_states(taken.heaps, process.heaps, thread.bound());
            lemma_peers_trans(
                before.heaps,
                taken.heaps,
                process.heaps,
                thread.bound(),
                thread.bound(),
            );
            assert(process.heaps.arena@ =~= before.heaps.arena@.insert(
                heap,
                process.heaps.arena@[heap],
            ));
        }
        if flushed.is_err() {
            return Err(Abort);
        }
        Ok(true)
    }

    /// Heap `index` is the only one that changed, in no more than how its runs are listed.
    pub open spec fn relisted(before: Process, after: Process, index: u32) -> bool {
        &&& after.wf()
        &&& after.pages == before.pages
        &&& after.os == before.os
        &&& after.heaps.only(before.heaps, index)
        &&& states_kept(before.heaps, after.heaps)
        &&& after.heaps.arena@[index].state == before.heaps.arena@[index].state
        &&& after.heaps.arena@[index].same_but_runs(before.heaps.arena@[index])
        &&& after.heaps.arena@[index].runs_live == before.heaps.arena@[index].runs_live
        &&& relinked(before.heaps.arena@[index], after.heaps.arena@[index])
        &&& same_held(before, after)
        &&& spared(before, after)
    }

    /// Put this heap's current runs with room back on its lists and forget them.
    fn release_current(&mut self, owner: u32, process: &mut Process) -> (released: Result<
        (),
        Abort,
    >)
        requires
            old(self).wf(old(process).heaps),
            old(process).wf(),
            old(self).binds(owner),
        ensures
            final(self).wf(final(process).heaps),
            final(self).slots == old(self).slots,
            Self::relisted(*old(process), *final(process), owner),
            none_lost(*old(process), *old(self), *final(process), *final(self)),
            released is Ok,
            forall|class: int|
                0 <= class < COUNT ==> #[trigger] final(self).current@[class] == if (old(self).current@[class] matches Some(run) && run.heap == owner) {
                    None::<CurrentRun>
                } else {
                    old(self).current@[class]
                },
    {
        proof {
            reveal(relinked);
        }
        let ghost before = *process;
        let ghost thread = *self;
        proof {
            lemma_none_lost_refl(before, thread);
        }
        let mut class: usize = 0;
        proof {
            process.heaps.lemma_grown_refl();
            self.lemma_bound(before.heaps, owner);
            lemma_spared_inner(before, before);
            assert(before.heaps.arena@ =~= before.heaps.arena@.insert(
                owner,
                before.heaps.arena@[owner],
            ));
        }
        while class < COUNT
            invariant
                class <= COUNT,
                before == *old(process),
                thread == *old(self),
                thread.binds(owner),
                self.wf(process.heaps),
                self.slots == thread.slots,
                Self::relisted(before, *process, owner),
                none_lost(before, thread, *process, *self),
                forall|at: int|
                    0 <= at < class ==> #[trigger] self.current@[at] == if (
                    thread.current@[at] matches Some(run) && run.heap == owner) {
                        None::<CurrentRun>
                    } else {
                        thread.current@[at]
                    },
                forall|at: int| class <= at < COUNT ==> #[trigger] self.current@[at]
                    == thread.current@[at],
            decreases COUNT - class,
        {
            let ghost entered = *process;
            let ghost holding = *self;
            proof {
                reveal(relinked);
                assert(self.binds(owner));
                self.lemma_bound(process.heaps, owner);
                assert(self.current_ok(class as int, process.heaps));
            }
            if let Some(run) = self.current[class] {
                if run.heap == owner {
                    let full = match process.heaps.arena.get(owner) {
                        None => true,
                        Some(heap) => match heap.inner.runs.runs.get(run.run) {
                            None => true,
                            Some(found) => found.is_full(),
                        },
                    };
                    if !full {
                        let pushed = process.heaps.push_available(owner, run.run, &process.pages);
                        proof {
                            lemma_states_only(entered.heaps, process.heaps, owner);
                            lemma_states_trans(before.heaps, entered.heaps, process.heaps);
                            self.lemma_states_kept(entered.heaps, process.heaps);
                            lemma_runs_only(entered, *process, owner);
                            assert(process.heaps.arena@ =~= before.heaps.arena@.insert(
                                owner,
                                process.heaps.arena@[owner],
                            ));
                            assert forall|addr: int| #[trigger] process.holds(addr)
                                == before.holds(addr) by {
                                assert(entered.holds(addr) == before.holds(addr));
                                assert(process.heaps.holds(addr) == entered.heaps.holds(addr));
                            }
                            lemma_spared_trans(before, entered, *process);
                            lemma_tidy_loses_none(entered, *process, holding, owner, None);
                            lemma_none_lost_trans(
                                before,
                                thread,
                                entered,
                                holding,
                                *process,
                                holding,
                            );
                        }
                        if pushed.is_err() {
                            return Err(Abort);
                        }
                    }
                    let ghost listed = *self;
                    self.current.set(class, None);
                    proof {
                        assert forall|at: int| 0 <= at < COUNT implies #[trigger] self.current_ok(
                            at,
                            process.heaps,
                        ) by {
                            assert(listed.current_ok(at, process.heaps));
                            if let Some(run) = self.current@[at] {
                                assert(listed.binds(run.heap));
                            }
                        }
                        lemma_dropped_loses_none(*process, listed, *self, class as int);
                        lemma_none_lost_trans(before, thread, *process, listed, *process, *self);
                    }
                }
            }
            class = class + 1;
        }
        Ok(())
    }

    /// Give the heap in `slot` back: its current runs are relisted, the heap is closed, and
    /// what can be taken in or reclaimed at once is.
    pub fn unbind_slot(&mut self, slot: usize, process: &mut Process) -> (unbound: Result<(), Abort>)
        requires
            old(self).wf(old(process).heaps),
            old(process).wf(),
            slot < 2,
        ensures
            gains_free(old(process).heaps, old(self).bound(), final(self).bound()),
            none_lost(*old(process), *old(self), *final(process), *final(self)),
            spared(*old(process), *final(process)),
            final(process).wf(),
            final(self).wf(final(process).heaps),
            final(process).heaps.grown(old(process).heaps),
            final(process).os.grant == old(process).os.grant,
            final(process).os.discards == old(process).os.discards,
            final(self).slots@ == old(self).slots@.update(slot as int, ThreadHeap::Vacant),
            peers_kept(old(process).heaps, final(process).heaps, old(self).bound()),
            same_held(*old(process), *final(process)),
            unbound is Err == returns_broken(old(self).slots@[slot as int], old(process).heaps),
            given_back(
                old(self).slots@[slot as int],
                old(process).heaps,
                final(process).heaps,
            ),
            final(process).os.wanted == old(process).os.wanted,
            match old(self).slots@[slot as int] {
                ThreadHeap::Vacant => final(process).heaps == old(process).heaps,
                ThreadHeap::Active { heap, .. } => final(process).heaps.only(
                    old(process).heaps,
                    heap,
                ) && final(process).heaps.restacked(old(process).heaps, heap) && (emptied(
                    old(process).heaps.arena@[heap],
                ) ==> final(process).heaps.given_up(old(process).heaps, heap)) && (old(process).heaps.arena@[heap].idle()
                    ==> relinked(
                    old(process).heaps.arena@[heap],
                    final(process).heaps.arena@[heap],
                ) && final(process).pages@ == old(process).pages@ && final(process).os.effects
                    == old(process).os.effects),
            },
    {
        let ghost before = *process;
        let ghost thread = *self;
        match self.slots[slot] {
            ThreadHeap::Vacant => {
                proof {
                    process.heaps.lemma_grown_refl();
                    lemma_none_lost_refl(before, thread);
                    lemma_spared_inner(*process, *process);
                    assert(self.slots@ =~= self.slots@.update(slot as int, ThreadHeap::Vacant));
                }
                Ok(())
            },
            ThreadHeap::Active { heap, id } => {
                proof {
                    assert(thread.slots@[slot as int].ok(before.heaps));
                    assert(self.binds(heap));
                    assert(before.heaps.heap_wf(heap, before.pages@));
                }
                if self.release_current(heap, process).is_err() {
                    return Err(Abort);
                }
                let ghost relisted = *process;
                let ghost holding = *self;
                self.slots.set(slot, ThreadHeap::Vacant);
                proof {
                    let found = before.heaps.arena@[heap];
                    assert(relisted.heaps.heap_wf(heap, relisted.pages@));
                    assert(relisted.heaps.arena@[heap].state@ == found.state@);
                    assert(relisted.heaps.arena@[heap].spec_id() == id);
                    assert(id.spec_index() == heap);
                    assert(relisted.heaps.found(id) == Some(heap));
                }
                let unbound = process.heaps.unbind(id, &mut process.pages, &mut process.os);
                proof {
                    process.heaps.lemma_grown_trans(relisted.heaps, before.heaps);
                    assert(process.heaps.arena@ =~= before.heaps.arena@.insert(
                        heap,
                        process.heaps.arena@[heap],
                    ));
                    assert forall|index: u32| #[trigger] self.binds(index) implies index != heap
                        && holding.binds(index) by {
                        assert(!(thread.slots@[0].has(heap) && thread.slots@[1].has(heap)));
                    }
                    assert forall|class: int| 0 <= class < COUNT implies #[trigger] self.current_ok(
                        class,
                        relisted.heaps,
                    ) by {
                        assert(holding.current_ok(class, relisted.heaps));
                        assert(self.current@[class] == holding.current@[class]);
                        assert(holding.current@[class] matches Some(run) ==> run.heap != heap);
                    }
                    assert(self.wf(relisted.heaps));
                    assert forall|index: u32| #[trigger] self.binds(index) implies
                        process.heaps.arena@[index].state@.mode == HeapMode::Active
                        && process.heaps.arena@[index].spec_id()
                        == relisted.heaps.arena@[index].spec_id() by {
                        self.lemma_bound(relisted.heaps, index);
                    }
                    self.lemma_wf_kept(relisted.heaps, process.heaps);
                    lemma_peers_only(before.heaps, process.heaps, heap, thread.bound());
                    assert forall|addr: int| #[trigger] process.holds(addr) == before.holds(
                        addr,
                    ) by {
                        assert(relisted.holds(addr) == before.holds(addr));
                        assert(process.heaps.holds(addr) == relisted.heaps.holds(addr));
                    }
                    lemma_spared(relisted, *process, heap, None);
                    lemma_spared_trans(before, relisted, *process);
                    lemma_none_lost_like(before, thread, relisted, holding, relisted, *self);
                    lemma_tidy_loses_none(relisted, *process, *self, heap, None);
                    lemma_none_lost_trans(before, thread, relisted, *self, *process, *self);
                    let found = before.heaps.arena@[heap];
                    let listed = relisted.heaps.arena@[heap];
                    let now = process.heaps.arena@[heap];
                    lemma_relinked(found, listed);
                    if found.state@.leases == 0 {
                        lemma_taken_in(found, listed, now, unbound is Ok);
                        if found.idle() {
                            assert(now.run_inbox@ =~= listed.run_inbox@);
                            assert(now.extent_inbox@ =~= listed.extent_inbox@);
                            lemma_relinked_same(found, listed, now);
                        }
                    } else {
                        lemma_relinked_same(found, listed, now);
                    }
                }
                if unbound.is_err() {
                    return Err(Abort);
                }
                Ok(())
            },
        }
    }

    /// The slot of an attached heap without live work, as long as it is not the last one.
    pub fn idle(&self, owner: u32, process: &Process) -> (slot: Option<usize>)
        requires
            self.wf(process.heaps),
            process.wf(),
            process.heaps.arena@.contains_key(owner),
        ensures
            slot is Some == (self.slots@[0] is Active && self.slots@[1] is Active && self.binds(
                owner,
            ) && process.heaps.arena@[owner].idle()),
            slot matches Some(slot) ==> slot < 2 && self.slots@[slot as int].has(owner),
    {
        if self.slots[0].heap().is_none() || self.slots[1].heap().is_none() {
            return None;
        }
        if self.slots[0].owns(owner, process) && self.slots[0].is_idle(process) {
            return Some(0);
        }
        if self.slots[1].owns(owner, process) && self.slots[1].is_idle(process) {
            return Some(1);
        }
        None
    }

    /// Owner-local free. The owner is given back when that leaves it idle and another heap
    /// is attached.
    #[verifier::rlimit(80)]
    #[verifier::spinoff_prover]
    pub fn free_owner(&mut self, owner: PageOwner, ptr: usize, process: &mut Process) -> (freed:
        Result<(), ThreadFreeError>)
        requires
            old(self).wf(old(process).heaps),
            old(process).wf(),
            old(process).heaps.has_owner(owner),
            old(process).heaps.arena@[owner.spec_heap()].freeable(owner, ptr),
        ensures
            gains_free(old(process).heaps, old(self).bound(), final(self).bound()),
            none_lost(*old(process), *old(self), *final(process), *final(self)),
            spared(*old(process), *final(process)),
            final(process).wf(),
            final(self).wf(final(process).heaps),
            final(process).heaps.grown(old(process).heaps),
            final(process).heaps.only(old(process).heaps, owner.spec_heap()),
            final(process).os.grant == old(process).os.grant,
            final(process).os.discards == old(process).os.discards,
            peers_kept(old(process).heaps, final(process).heaps, old(self).bound()),
            freed == if !old(self).binds(owner.spec_heap()) {
                Err::<(), ThreadFreeError>(ThreadFreeError::Remote(owner))
            } else {
                match old(process).heaps.arena@[owner.spec_heap()].free_error(owner, ptr) {
                    None => Ok::<(), ThreadFreeError>(()),
                    Some(error) => Err::<(), ThreadFreeError>(
                        match owner {
                            PageOwner::Run { .. } => ThreadFreeError::Abort,
                            PageOwner::Extent { .. } => ThreadFreeError::Heap(error),
                        },
                    ),
                }
            },
            freed is Ok ==> removed(*old(process), *final(process), ptr),
            freed matches Err(ThreadFreeError::Remote(_)) ==> *final(process) == *old(process),
            freed is Err ==> same_held(*old(process), *final(process)) && *final(self) == *old(self)
                && states_kept(old(process).heaps, final(process).heaps),
            !(old(self).slots@[0] is Active && old(self).slots@[1] is Active) ==> final(self).slots@
                == old(self).slots@,
            forall|index: u32| #[trigger]
                final(self).binds(index) ==> old(self).binds(index),
            keeps_holders(*old(self), *final(self), *final(process)),
            final(process).os.wanted == old(process).os.wanted,
            freed is Ok ==> freed_by_owner(
                *old(process),
                *final(process),
                *old(self),
                *final(self),
                owner,
                ptr,
            ),
    {
        let ghost before = *process;
        let ghost thread = *self;
        let heap: u32 = owner.heap();
        let live = match owner {
            PageOwner::Run { heap, run } => {
                match self.free_run(heap, run, ptr, process) {
                    Err(error) => {
                        proof {
                            lemma_peers_states(before.heaps, process.heaps, thread.bound());
                        }
                        return Err(error);
                    },
                    Ok(()) => {},
                }
                match process.heaps.arena.get(heap) {
                    None => true,
                    Some(found) => match found.inner.runs.runs.get(run) {
                        None => true,
                        Some(run) => run.is_live(),
                    },
                }
            },
            PageOwner::Extent { heap, extent } => {
                match self.free_extent(heap, extent, ptr, process) {
                    Err(error) => {
                        proof {
                            lemma_peers_states(before.heaps, process.heaps, thread.bound());
                        }
                        return Err(error);
                    },
                    Ok(()) => {},
                }
                false
            },
        };
        let ghost freed = *process;
        proof {
            lemma_peers_states(before.heaps, freed.heaps, thread.bound());
        }
        proof {
            thread.lemma_bound(before.heaps, heap);
            if live {
                assert(freed.heaps.heap_wf(heap, freed.pages@));
                freed.heaps.arena@[heap].lemma_owner_live(owner);
            }
            assert(gives_back(before, freed, owner, ptr));
            assert(freed.heaps.arena@[heap].run_inbox@ == before.heaps.arena@[heap].run_inbox@
                && freed.heaps.arena@[heap].extent_inbox@
                == before.heaps.arena@[heap].extent_inbox@) by {
                reveal(gives_back);
            }
        }
        if !live {
            if let Some(slot) = self.idle(heap, process) {
                let unbound = self.unbind_slot(slot, process);
                proof {
                    assert(!self.binds(heap)) by {
                        assert(!(thread.slots@[0].has(heap) && thread.slots@[1].has(heap)));
                    }
                    lemma_idle_returned(
                        thread.slots@[slot as int],
                        freed,
                        *process,
                        heap,
                    );
                    process.heaps.lemma_grown_trans(freed.heaps, before.heaps);
                    lemma_peers_trans(
                        before.heaps,
                        freed.heaps,
                        process.heaps,
                        thread.bound(),
                        thread.bound(),
                    );
                    assert(process.heaps.arena@ =~= before.heaps.arena@.insert(
                        heap,
                        process.heaps.arena@[heap],
                    ));
                    assert forall|at: usize|
                        process.holds(at as int) && #[trigger] thread.owns_block(
                            *process,
                            at,
                        ) implies self.owns_block(*process, at) by {
                        lemma_holder(*process, at as int);
                        assert(freed.holds(at as int));
                        lemma_holder(freed, at as int);
                        assert(block_spared(freed, *process, at as int)) by {
                            reveal(spared);
                        }
                        assert(freed.heaps.heap_wf(heap, freed.pages@));
                        if process.owner_at(at as int)->0.spec_heap() == heap {
                            lemma_held_not_idle(freed, at as int);
                        }
                    }
                    assert forall|addr: int| #[trigger] process.holds(addr) == (addr != ptr
                        && before.holds(addr)) by {
                        assert(process.holds(addr) == freed.holds(addr));
                    }
                    lemma_spared_trans(before, freed, *process);
                    lemma_none_lost_trans(before, thread, freed, thread, *process, *self);
                }
                if unbound.is_err() {
                    return Err(ThreadFreeError::Abort);
                }
            }
        }
        Ok(())
    }

    /// Why freeing `ptr` with `spec` fails before any owner is reached.
    pub open spec fn missing(spec: LayoutSpec) -> HeapError {
        if small(spec) {
            HeapError::InvalidRunPointer
        } else {
            HeapError::MissingExtent
        }
    }

    /// Miss, large, or unbound: find the owner, then free as its owner.
    pub fn free_slow(&mut self, ptr: usize, spec: LayoutSpec, process: &mut Process) -> (freed:
        Result<(), ThreadFreeError>)
        requires
            old(self).wf(old(process).heaps),
            old(process).wf(),
            spec.wf(),
            old(process).freeable(ptr as int),
        ensures
            gains_free(old(process).heaps, old(self).bound(), final(self).bound()),
            none_lost(*old(process), *old(self), *final(process), *final(self)),
            spared(*old(process), *final(process)),
            final(process).wf(),
            final(self).wf(final(process).heaps),
            final(process).heaps.grown(old(process).heaps),
            final(process).os.grant == old(process).os.grant,
            final(process).os.discards == old(process).os.discards,
            peers_kept(old(process).heaps, final(process).heaps, old(self).bound()),
            freed == match old(process).looked_up(ptr, spec) {
                None => Err::<(), ThreadFreeError>(ThreadFreeError::Heap(Self::missing(spec))),
                Some(owner) => if !old(self).binds(owner.spec_heap()) {
                    Err::<(), ThreadFreeError>(ThreadFreeError::Remote(owner))
                } else {
                    match old(process).heaps.arena@[owner.spec_heap()].free_error(owner, ptr) {
                        None => Ok::<(), ThreadFreeError>(()),
                        Some(error) => Err::<(), ThreadFreeError>(
                            match owner {
                                PageOwner::Run { .. } => ThreadFreeError::Abort,
                                PageOwner::Extent { .. } => ThreadFreeError::Heap(error),
                            },
                        ),
                    }
                },
            },
            freed is Ok ==> removed(*old(process), *final(process), ptr) && freed_by_owner(
                *old(process),
                *final(process),
                *old(self),
                *final(self),
                old(process).looked_up(ptr, spec)->0,
                ptr,
            ),
            final(process).os.wanted == old(process).os.wanted,
            freed is Err ==> same_held(*old(process), *final(process)) && *final(self) == *old(self)
                && states_kept(old(process).heaps, final(process).heaps),
            freed matches Err(ThreadFreeError::Remote(_)) ==> *final(process) == *old(process),
    {
        match process.lookup(ptr, spec) {
            None => {
                proof {
                    process.heaps.lemma_grown_refl();
                    lemma_spared_inner(*process, *process);
                    lemma_none_lost_refl(*process, *self);
                }
                let error = if SizeClasses::class_for(spec).is_some() {
                    HeapError::InvalidRunPointer
                } else {
                    HeapError::MissingExtent
                };
                Err(ThreadFreeError::Heap(error))
            },
            Some(owner) => self.free_owner(owner, ptr, process),
        }
    }

    /// Give every attached heap back.
    pub fn unbind(&mut self, process: &mut Process) -> (unbound: Result<(), Abort>)
        requires
            old(self).wf(old(process).heaps),
            old(process).wf(),
        ensures
            gains_free(old(process).heaps, old(self).bound(), final(self).bound()),
            none_lost(*old(process), *old(self), *final(process), *final(self)),
            spared(*old(process), *final(process)),
            final(process).wf(),
            final(self).wf(final(process).heaps),
            final(process).heaps.grown(old(process).heaps),
            final(process).os.grant == old(process).os.grant,
            final(process).os.discards == old(process).os.discards,
            peers_kept(old(process).heaps, final(process).heaps, old(self).bound()),
            same_held(*old(process), *final(process)),
            unbound is Ok ==> final(self).spec_active() is None && forall|class: int|
                0 <= class < COUNT ==> #[trigger] final(self).current@[class] is None,
            unbound is Ok ==> forall|slot: int|
                0 <= slot < 2 ==> final(self).slots@[slot] is Vacant && given_back(
                    #[trigger] old(self).slots@[slot],
                    old(process).heaps,
                    final(process).heaps,
                ),
            unbound is Err == exists|slot: int|
                0 <= slot < 2 && returns_broken(
                    #[trigger] old(self).slots@[slot],
                    old(process).heaps,
                ),
    {
        let ghost before = *process;
        let ghost thread = *self;
        if self.unbind_slot(0, process).is_err() {
            assert(returns_broken(thread.slots@[0], before.heaps));
            return Err(Abort);
        }
        let ghost half = *process;
        let ghost rest = *self;
        let unbound = self.unbind_slot(1, process);
        proof {
            process.heaps.lemma_grown_trans(half.heaps, before.heaps);
            lemma_peers_trans(
                before.heaps,
                half.heaps,
                process.heaps,
                thread.bound(),
                rest.bound(),
            );
            assert forall|addr: int| #[trigger] process.holds(addr) == before.holds(addr) by {
                assert(process.holds(addr) == half.holds(addr));
            }
            lemma_spared_trans(before, half, *process);
            lemma_none_lost_trans(before, thread, half, rest, *process, *self);
            if thread.slots@[1] is Active {
                let index = thread.slots@[1]->heap;
                assert(thread.binds(index));
                assert(rest.slots@[1].has(index));
                assert(half.heaps.arena@[index] == before.heaps.arena@[index]);
            }
            assert(rest.slots@[1] == thread.slots@[1]);
            assert(returns_broken(rest.slots@[1], half.heaps) == returns_broken(
                thread.slots@[1],
                before.heaps,
            ));
            assert(given_back(thread.slots@[0], before.heaps, process.heaps));
            assert(given_back(thread.slots@[1], before.heaps, process.heaps));
            assert forall|class: int| 0 <= class < COUNT implies #[trigger] self.current@[class]
                is None by {
                assert(self.current_ok(class, process.heaps));
            }
        }
        if unbound.is_err() {
            return Err(Abort);
        }
        Ok(())
    }
}

/// No block of the heap is held, what other threads freed waits on its inboxes, and nobody
/// is about to queue more.
pub open spec fn emptied(heap: Heap) -> bool {
    &&& heap.state@.leases == 0
    &&& first_error(heap.inner.extents.extents@, heap.extent_inbox@) is None
    &&& claims_queued(heap)
    &&& forall|addr: int| !#[trigger] heap.holds(addr)
}

/// Freeing the block at `ptr` put it back where its owner gives it out again.
#[verifier::opaque]
pub open spec fn gives_back(before: Process, after: Process, owner: PageOwner, ptr: usize) -> bool {
    put_back(
        before.heaps.arena@[owner.spec_heap()],
        after.heaps.arena@[owner.spec_heap()],
        owner,
        ptr,
        after.pages@,
        before.pages@,
        after.os.effects@,
        before.os.effects@,
    )
}

/// A thread freed a block of its own: the block is back with its owner. A heap that this
/// leaves idle is itself given back as long as the thread has another.
pub open spec fn freed_by_owner(
    before: Process,
    after: Process,
    was: ThreadHeaps,
    now: ThreadHeaps,
    owner: PageOwner,
    ptr: usize,
) -> bool {
    let heap = owner.spec_heap();
    let two = was.slots@[0] is Active && was.slots@[1] is Active;
    &&& now.binds(heap) == !(two && after.heaps.arena@[heap].idle())
    &&& after.heaps.arena@[heap].run_inbox@ == before.heaps.arena@[heap].run_inbox@
    &&& after.heaps.arena@[heap].extent_inbox@ == before.heaps.arena@[heap].extent_inbox@
    &&& now.binds(heap) ==> gives_back(before, after, owner, ptr) && states_kept(
        before.heaps,
        after.heaps,
    ) && now == was
    &&& !now.binds(heap) && before.heaps.arena@[heap].state@.leases == 0
        ==> after.heaps.found(before.heaps.arena@[heap].spec_id()) is None
}

/// Giving the heap in `slot` back takes in a broken claim.
pub open spec fn returns_broken(slot: ThreadHeap, heaps: Heaps) -> bool {
    match slot {
        ThreadHeap::Vacant => false,
        ThreadHeap::Active { heap, .. } => {
            let found = heaps.arena@[heap];
            found.state@.leases == 0 && first_error(
                found.inner.extents.extents@,
                found.extent_inbox@,
            ) is Some
        },
    }
}

/// The heap in `slot` was given back: it is Draining, or was reclaimed when nothing of it
/// was in use.
pub open spec fn given_back(slot: ThreadHeap, before: Heaps, after: Heaps) -> bool {
    match slot {
        ThreadHeap::Vacant => true,
        ThreadHeap::Active { heap, .. } => {
            let found = before.arena@[heap];
            let now = after.arena@[heap];
            let closed = Snapshot { mode: HeapMode::Draining, ..found.state@ };
            let broken = first_error(found.inner.extents.extents@, found.extent_inbox@) is Some;
            &&& now.state@ == if found.state@.leases != 0 || broken {
                closed
            } else {
                tried_reclaim(now, closed)
            }
            &&& if found.state@.leases == 0 {
                taken_in(found, now, !broken)
            } else {
                relinked(found, now)
            }
            &&& emptied(found) ==> after.found(found.spec_id()) is None && now.state@.mode == (
            if found.state@.generation < u32::MAX {
                HeapMode::Free
            } else {
                HeapMode::Retired
            })
        },
    }
}

impl ThreadHeaps {
    /// The thread allocates from run `slot` of heap `index`.
    pub open spec fn running(self, index: u32, slot: u32) -> bool {
        exists|class: int|
            0 <= class < COUNT && #[trigger] self.current@[class] == Some(
                CurrentRun { heap: index, run: slot },
            )
    }
}

/// Run `slot` of heap `index` has room, but neither the heap's list nor the thread leads to
/// it.
pub open spec fn stray(process: Process, thread: ThreadHeaps, index: u32, slot: u32) -> bool {
    &&& process.heaps.arena@.contains_key(index)
    &&& process.heaps.arena@[index].inner.runs.loose(slot)
    &&& !thread.running(index, slot)
}

/// No run with room was lost: what neither a list nor the thread leads to now, neither led
/// to before.
#[verifier::opaque]
pub open spec fn none_lost(
    before: Process,
    was: ThreadHeaps,
    after: Process,
    now: ThreadHeaps,
) -> bool {
    forall|index: u32, slot: u32| #[trigger]
        stray(after, now, index, slot) ==> stray(before, was, index, slot)
}

pub proof fn lemma_none_lost_refl(process: Process, thread: ThreadHeaps)
    ensures
        none_lost(process, thread, process, thread),
{
    reveal(none_lost);
}

pub proof fn lemma_none_lost_trans(
    before: Process,
    was: ThreadHeaps,
    middle: Process,
    half: ThreadHeaps,
    after: Process,
    now: ThreadHeaps,
)
    requires
        none_lost(before, was, middle, half),
        none_lost(middle, half, after, now),
    ensures
        none_lost(before, was, after, now),
{
    reveal(none_lost);
    assert forall|index: u32, slot: u32| #[trigger] stray(after, now, index, slot) implies stray(
        before,
        was,
        index,
        slot,
    ) by {
        assert(stray(middle, half, index, slot));
    }
}

/// Runs are lost in the heaps only, and from the current runs only.
pub proof fn lemma_none_lost_like(
    before: Process,
    was: ThreadHeaps,
    middle: Process,
    half: ThreadHeaps,
    after: Process,
    now: ThreadHeaps,
)
    requires
        none_lost(before, was, middle, half),
        after.heaps == middle.heaps,
        now.current@ == half.current@,
    ensures
        none_lost(before, was, after, now),
{
    reveal(none_lost);
    assert forall|index: u32, slot: u32| #[trigger] stray(after, now, index, slot) implies stray(
        before,
        was,
        index,
        slot,
    ) by {
        if half.running(index, slot) {
            let class = choose|class: int|
                0 <= class < COUNT && #[trigger] half.current@[class] == Some(
                    CurrentRun { heap: index, run: slot },
                );
            assert(now.current@[class] == Some(CurrentRun { heap: index, run: slot }));
        }
        assert(stray(middle, half, index, slot));
    }
}

/// An operation on one heap that unlists no run with room loses none, and none but the run
/// that the thread allocates from.
pub proof fn lemma_tidy_loses_none(
    before: Process,
    after: Process,
    thread: ThreadHeaps,
    index: u32,
    except: Option<u32>,
)
    requires
        after.heaps.only(before.heaps, index),
        after.heaps.arena@[index].inner.runs.tidy(before.heaps.arena@[index].inner.runs, except),
        except matches Some(slot) ==> thread.running(index, slot),
    ensures
        none_lost(before, thread, after, thread),
{
    reveal(none_lost);
}

/// A current run that is full or listed can be dropped.
proof fn lemma_dropped_loses_none(
    process: Process,
    was: ThreadHeaps,
    now: ThreadHeaps,
    class: int,
)
    requires
        0 <= class < COUNT,
        was.current@.len() == COUNT,
        now.current@ == was.current@.update(class, None::<CurrentRun>),
        was.current@[class] matches Some(run) && !process.heaps.arena@[run.heap].inner.runs.loose(
            run.run,
        ),
    ensures
        none_lost(process, was, process, now),
{
    reveal(none_lost);
    assert forall|index: u32, slot: u32| #[trigger] stray(process, now, index, slot) implies stray(
        process,
        was,
        index,
        slot,
    ) by {
        if was.running(index, slot) {
            let at = choose|at: int|
                0 <= at < COUNT && #[trigger] was.current@[at] == Some(
                    CurrentRun { heap: index, run: slot },
                );
            if at != class {
                assert(now.current@[at] == was.current@[at]);
            }
        }
    }
}

/// A current run without a block left can be replaced by one that was taken off its list.
proof fn lemma_switched_loses_none(
    before: Process,
    after: Process,
    was: ThreadHeaps,
    now: ThreadHeaps,
    class: SizeClass,
    run: CurrentRun,
)
    requires
        before.wf(),
        was.wf(before.heaps),
        class.wf(),
        was.extended(class, before) is None,
        now.current@ == was.current@.update(class.index as int, Some(run)),
        forall|index: u32, slot: u32|
            after.heaps.arena@.contains_key(index)
                && #[trigger] after.heaps.arena@[index].inner.runs.loose(slot)
                ==> before.heaps.arena@.contains_key(index)
                && before.heaps.arena@[index].inner.runs.loose(slot) || (index == run.heap && slot
                == run.run),
    ensures
        none_lost(before, was, after, now),
{
    reveal(none_lost);
    let at = class.index as int;
    assert forall|index: u32, slot: u32| #[trigger] stray(after, now, index, slot) implies stray(
        before,
        was,
        index,
        slot,
    ) by {
        assert(now.current@[at] == Some(run));
        assert(after.heaps.arena@[index].inner.runs.loose(slot));
        if was.running(index, slot) {
            let held = choose|held: int|
                0 <= held < COUNT && #[trigger] was.current@[held] == Some(
                    CurrentRun { heap: index, run: slot },
                );
            if held != at {
                assert(now.current@[held] == was.current@[held]);
            } else {
                assert(was.current_ok(at, before.heaps));
                assert(was.binds(index));
                was.lemma_bound(before.heaps, index);
                assert(before.heaps.heap_wf(index, before.pages@));
                let runs = before.heaps.arena@[index].inner.runs;
                assert(runs.run_wf(slot, before.heaps.arena@[index].spec_index()));
            }
        }
    }
}

/// Acquiring a heap loses no run.
proof fn lemma_acquired_loses_none(
    before: Process,
    after: Process,
    thread: ThreadHeaps,
    acquired: Option<u32>,
)
    requires
        forall|other: u32|
            #![trigger after.heaps.arena@.contains_key(other)]
            #![trigger before.heaps.arena@.contains_key(other)]
            Some(other) != acquired ==> after.heaps.arena@.contains_key(other)
                == before.heaps.arena@.contains_key(other) && (before.heaps.arena@.contains_key(
                other,
            ) ==> after.heaps.arena@[other] == before.heaps.arena@[other]),
        acquired matches Some(index) ==> if before.heaps.arena@.contains_key(index) {
            after.heaps.arena@[index].inner == before.heaps.arena@[index].inner
        } else {
            after.heaps.arena@[index].inner.runs.runs@ == Map::<u32, crate::heap::run::Run>::empty()
        },
    ensures
        none_lost(before, thread, after, thread),
{
    reveal(none_lost);
}

/// An idle heap that a thread gave back is idle still, and gone under its id unless
/// somebody is about to queue on it.
proof fn lemma_idle_returned(slot: ThreadHeap, before: Process, after: Process, index: u32)
    requires
        before.wf(),
        after.wf(),
        slot matches ThreadHeap::Active { heap, .. } && heap == index,
        before.heaps.arena@.contains_key(index),
        after.heaps.arena@.contains_key(index),
        before.heaps.arena@[index].idle(),
        relinked(before.heaps.arena@[index], after.heaps.arena@[index]),
        given_back(slot, before.heaps, after.heaps),
    ensures
        after.heaps.arena@[index].idle(),
        after.heaps.arena@[index].run_inbox@ == before.heaps.arena@[index].run_inbox@,
        after.heaps.arena@[index].extent_inbox@ == before.heaps.arena@[index].extent_inbox@,
        before.heaps.arena@[index].state@.leases == 0 ==> after.heaps.found(
            before.heaps.arena@[index].spec_id(),
        ) is None,
{
    reveal(relinked);
    let was = before.heaps.arena@[index];
    let now = after.heaps.arena@[index];
    assert(before.heaps.heap_wf(index, before.pages@));
    assert(after.heaps.heap_wf(index, after.pages@));
    was.lemma_counts();
    now.lemma_counts();
    let runs = was.inner.runs.runs@;
    let extents = was.inner.extents.extents@;
    assert forall|slot: u32| #[trigger] runs.contains_key(slot) implies runs[slot].live == 0
        && runs[slot].claims.none() && forall|addr: int| !#[trigger] runs[slot].holds(addr) by {
        assert(was.inner.runs.run_wf(slot, was.spec_index()));
        runs[slot].lemma_none_outstanding();
        assert forall|addr: int| !#[trigger] runs[slot].holds(addr) by {
            if runs[slot].holds(addr) {
                let block = runs[slot].located(addr as usize)->Ok_0.index.index as int;
                assert(!runs[slot].outstanding(block));
            }
        }
    }
    assert forall|slot: u32| #[trigger]
        now.inner.runs.runs@.contains_key(slot) implies now.inner.runs.runs@[slot].live == 0 by {
        assert(runs.contains_key(slot));
    }
    assert forall|slot: u32| #[trigger] extents.contains_key(slot) implies extents[slot].state
        != ExtentState::Claimed && extents[slot].state != ExtentState::Allocated by {
        assert(!extents[slot].live());
    }
    assert(claims_queued(was));
    assert forall|addr: int| !#[trigger] was.holds(addr) by {}
}

/// A run of `class` can be checked out of heap `index`: one with room is listed, or
/// space for a new one is at hand.
pub open spec fn can_acquire(process: Process, index: u32, class: SizeClass) -> bool {
    let runs = process.heaps.arena@[index].inner.runs;
    runs.first_open(class.index as int) is Some || runs.can_make(process.pages@, process.os)
}

/// `middle` is `before` with the inboxes of heap `index` taken in.
pub open spec fn after_flush(before: Process, middle: Process, index: u32) -> bool {
    &&& middle.wf()
    &&& states_kept(before.heaps, middle.heaps)
    &&& flushed_all(before.heaps.arena@[index], middle.heaps.arena@[index], None, true)
    &&& middle.os.grant == before.os.grant
    &&& forall|page: usize| #[trigger]
        middle.pages@.contains_key(page) ==> before.pages@.contains_key(page)
}

/// Two heaps with the same runs, extents, and queues.
pub open spec fn alike_heap(left: Heap, right: Heap) -> bool {
    &&& right.state@ == left.state@
    &&& right.slot == left.slot
    &&& right.run_inbox@ == left.run_inbox@
    &&& right.extent_inbox@ == left.extent_inbox@
    &&& right.inner.runs.runs@ == left.inner.runs.runs@
    &&& right.inner.runs.maps_same(left.inner.runs)
    &&& right.inner.runs.slots_same(left.inner.runs)
    &&& right.inner.extents.extents@ == left.inner.extents.extents@
    &&& right.inner.extents.cache == left.inner.extents.cache
    &&& right.inner.extents.hollow == left.inner.extents.hollow
    &&& right.inner.extents.extents.holes == left.inner.extents.extents.holes
    &&& right.inner.extents.extents.slots@.len() == left.inner.extents.extents.slots@.len()
}

/// Two processes that hold the same in all their heaps, and see the same system.
pub open spec fn alike(left: Process, right: Process) -> bool {
    &&& right.wf()
    &&& right.pages == left.pages
    &&& right.os == left.os
    &&& right.heaps.stack@ == left.heaps.stack@
    &&& right.heaps.arena.slots@.len() == left.heaps.arena.slots@.len()
    &&& forall|index: u32|
        #![trigger left.heaps.arena@.contains_key(index)]
        #![trigger right.heaps.arena@.contains_key(index)]
        right.heaps.arena@.contains_key(index) == left.heaps.arena@.contains_key(index) && (
        left.heaps.arena@.contains_key(index) ==> alike_heap(
            left.heaps.arena@[index],
            right.heaps.arena@[index],
        ))
}

/// What is alike twice is alike.
pub proof fn lemma_alike_trans(left: Process, middle: Process, right: Process)
    requires
        alike(left, middle),
        alike(middle, right),
    ensures
        alike(left, right),
{
    assert forall|index: u32|
        #![trigger left.heaps.arena@.contains_key(index)]
        #![trigger right.heaps.arena@.contains_key(index)]
        right.heaps.arena@.contains_key(index) == left.heaps.arena@.contains_key(index) && (
        left.heaps.arena@.contains_key(index) ==> alike_heap(
            left.heaps.arena@[index],
            right.heaps.arena@[index],
        )) by {
        assert(middle.heaps.arena@.contains_key(index) == left.heaps.arena@.contains_key(index));
    }
}

/// A run that gave no block leaves its process alike.
proof fn lemma_alike_run(before: Process, after: Process, index: u32, slot: u32)
    requires
        after.wf(),
        after.pages == before.pages,
        after.os == before.os,
        after.heaps.stack == before.heaps.stack,
        after.heaps.arena.slots@.len() == before.heaps.arena.slots@.len(),
        after.heaps.only(before.heaps, index),
        after.heaps.arena@[index].same_but_runs(before.heaps.arena@[index]),
        after.heaps.arena@[index].inner.runs.only(before.heaps.arena@[index].inner.runs, slot),
        after.heaps.arena@[index].inner.runs.runs@[slot]
            == before.heaps.arena@[index].inner.runs.runs@[slot],
    ensures
        alike(before, after),
{
    assert(after.heaps.arena@[index].inner.runs.runs@
        =~= before.heaps.arena@[index].inner.runs.runs@);
}

/// A step on the runs of one heap without an effect spares every block.
pub proof fn lemma_runs_only(before: Process, after: Process, index: u32)
    requires
        before.wf(),
        after.wf(),
        after.heaps.only(before.heaps, index),
        after.heaps.grown(before.heaps),
        after.heaps.arena@[index].inner.extents == before.heaps.arena@[index].inner.extents,
        after.os.effects == before.os.effects,
    ensures
        spared(before, after),
{
    lemma_no_effect(
        before.heaps.arena@[index],
        after.heaps.arena@[index],
        before.os.effects@,
        before.os.discards,
    );
    lemma_spared(before, after, index, None);
}

/// A refused large allocation leaves a fresh grant fresh, and memory that heaps count on
/// zero.
pub open spec fn idle_grant(before: Process, after: Process) -> bool {
    &&& fresh_grant(before) ==> fresh_grant(after)
    &&& forall|bytes: spec_fn(int) -> u8| #[trigger]
        all_zero_ready(before, after_all(before.os.effects@, before.os.discards, bytes))
            ==> all_zero_ready(after, after_all(after.os.effects@, after.os.discards, bytes))
}

/// The heap at `index` is the newest Free one with what it retained, else a fresh one.
pub open spec fn attached(before: Heaps, after: Heaps, index: u32) -> bool {
    if before.stack@.len() > 0 {
        index == before.stack@[0] && after.arena@[index].inner == before.arena@[index].inner
            && after.stack@ == before.stack@.skip(1)
    } else {
        after.stack@ == before.stack@ && index == before.arena.slots@.len() && after.arena@[index].inner.runs.map_index is None
            && after.arena@[index].inner.extents.extents@ == Map::<u32, Extent>::empty()
    }
}

/// A heap in `now` that was not in `was` was nobody's.
pub open spec fn gains_free(before: Heaps, was: Set<u32>, now: Set<u32>) -> bool {
    forall|index: u32| #[trigger]
        now.contains(index) && !was.contains(index) ==> !(before.arena@.contains_key(index)
            && before.arena@[index].state@.mode == HeapMode::Active)
}

/// The thread still has every heap it had.
pub open spec fn keeps_bound(was: ThreadHeaps, now: ThreadHeaps) -> bool {
    forall|index: u32| #[trigger] was.binds(index) ==> now.binds(index)
}

/// The heap of a held block is not idle.
pub proof fn lemma_held_not_idle(process: Process, addr: int)
    requires
        process.wf(),
        process.holds(addr),
    ensures
        process.heaps.arena@.contains_key(process.owner_at(addr)->0.spec_heap()),
        !process.heaps.arena@[process.owner_at(addr)->0.spec_heap()].idle(),
{
    lemma_holder(process, addr);
    let owner = process.owner_at(addr)->0;
    let heap = process.heaps.arena@[owner.spec_heap()];
    assert(process.heaps.heap_wf(owner.spec_heap(), process.pages@));
    match owner {
        PageOwner::Run { run, .. } => {
            assert(heap.inner.runs.runs@.contains_key(run));
            assert(heap.inner.runs.holds(addr));
        },
        PageOwner::Extent { extent, .. } => {
            assert(heap.inner.extents.extents@.contains_key(extent));
            assert(heap.inner.extents.holds(addr));
        },
    }
    heap.lemma_holder_live(addr);
}

/// A heap that holds a block and that the thread had attached stays attached.
pub open spec fn keeps_holders(was: ThreadHeaps, now: ThreadHeaps, after: Process) -> bool {
    forall|ptr: usize|
        after.holds(ptr as int) && #[trigger] was.owns_block(after, ptr) ==> now.owns_block(
            after,
            ptr,
        )
}

/// A heap that the thread did not have attached is as it was and still not attached, unless
/// it was idle. The thread can attach a further heap if it could before.
pub open spec fn strangers_kept(
    before: Heaps,
    after: Heaps,
    was: ThreadHeaps,
    now: ThreadHeaps,
) -> bool {
    &&& now.has_vacancy() == was.has_vacancy()
    &&& forall|index: u32|
        #![trigger before.arena@.contains_key(index)]
        #![trigger after.arena@.contains_key(index)]
        before.arena@.contains_key(index) && !was.binds(index) && !before.arena@[index].idle()
            ==> !now.binds(index) && after.arena@.contains_key(index) && after.arena@[index]
            == before.arena@[index]
}

/// Keeping strangers twice keeps them.
pub proof fn lemma_strangers_trans(
    before: Heaps,
    middle: Heaps,
    after: Heaps,
    was: ThreadHeaps,
    half: ThreadHeaps,
    now: ThreadHeaps,
)
    requires
        strangers_kept(before, middle, was, half),
        strangers_kept(middle, after, half, now),
    ensures
        strangers_kept(before, after, was, now),
{
    assert forall|index: u32|
        #![trigger before.arena@.contains_key(index)]
        #![trigger after.arena@.contains_key(index)]
        before.arena@.contains_key(index) && !was.binds(index)
            && !before.arena@[index].idle() implies !now.binds(index)
        && after.arena@.contains_key(index) && after.arena@[index] == before.arena@[index] by {
        assert(middle.arena@.contains_key(index));
    }
}

/// Gaining twice gains.
pub proof fn lemma_gains_trans(
    before: Heaps,
    middle: Heaps,
    was: Set<u32>,
    half: Set<u32>,
    now: Set<u32>,
)
    requires
        gains_free(before, was, half),
        gains_free(middle, half, now),
        peers_kept(before, middle, was),
    ensures
        gains_free(before, was, now),
{
    assert forall|index: u32| #[trigger] now.contains(index) && !was.contains(index) implies !(
    before.arena@.contains_key(index) && before.arena@[index].state@.mode == HeapMode::Active) by {
        assert(half.contains(index) || !half.contains(index));
        if before.arena@.contains_key(index) && before.arena@[index].state@.mode
            == HeapMode::Active {
            assert(middle.arena@.contains_key(index));
        }
    }
}

/// What one thread does leaves another thread's heaps and current runs good, and the
/// two share no heap.
pub proof fn law_threads_stay_apart(
    before: Heaps,
    after: Heaps,
    was: ThreadHeaps,
    now: ThreadHeaps,
    other: ThreadHeaps,
)
    requires
        other.wf(before),
        was.bound().disjoint(other.bound()),
        peers_kept(before, after, was.bound()),
        gains_free(before, was.bound(), now.bound()),
    ensures
        other.wf(after),
        now.bound().disjoint(other.bound()),
{
    assert forall|index: u32| #[trigger] other.binds(index) implies
        after.arena@[index].state@.mode == HeapMode::Active && after.arena@[index].spec_id()
        == before.arena@[index].spec_id() by {
        other.lemma_bound(before, index);
        assert(other.bound().contains(index));
        assert(!was.bound().contains(index));
        assert(before.arena@.contains_key(index));
    }
    other.lemma_wf_kept(before, after);
    assert forall|index: u32| !(#[trigger] now.bound().contains(index) && other.bound().contains(
        index,
    )) by {
        if other.bound().contains(index) {
            other.lemma_bound(before, index);
            assert(!was.bound().contains(index));
        }
    }
}

/// Memory that heaps count on stays zero when a heap without extents joins them.
proof fn lemma_bound_ready(before: Process, after: Process, bytes: spec_fn(int) -> u8)
    requires
        all_zero_ready(before, bytes),
        after.os.grant == before.os.grant,
        forall|index: u32| #[trigger]
            after.heaps.arena@.contains_key(index) ==> if before.heaps.arena@.contains_key(index) {
                after.heaps.arena@[index].inner == before.heaps.arena@[index].inner
            } else {
                after.heaps.arena@[index].inner.extents.extents@ == Map::<u32, Extent>::empty()
            },
    ensures
        all_zero_ready(after, bytes),
{
}

/// Where no state changed, no peer lost its heap.
pub proof fn lemma_peers_states(before: Heaps, after: Heaps, mine: Set<u32>)
    requires
        states_kept(before, after),
    ensures
        peers_kept(before, after, mine),
{
}

/// An acquired heap was Free or new: no peer lost its heap.
proof fn lemma_acquired(before: Heaps, after: Heaps, acquired: Option<u32>)
    requires
        after.config == before.config,
        forall|other: u32|
            #![trigger after.arena@.contains_key(other)]
            #![trigger before.arena@.contains_key(other)]
            Some(other) != acquired ==> after.arena@.contains_key(other)
                == before.arena@.contains_key(other) && (before.arena@.contains_key(other)
                ==> after.arena@[other] == before.arena@[other]),
        acquired matches Some(index) ==> after.arena@.contains_key(index) && (
        before.arena@.contains_key(index) ==> before.arena@[index].state@.mode == HeapMode::Free
            && after.arena@[index].same_but_state(before.arena@[index])),
    ensures
        after.grown(before),
        forall|mine: Set<u32>| #[trigger] peers_kept(before, after, mine),
{
}

/// A current run that gives no block leaves its heap as it was.
proof fn lemma_missed(
    thread: ThreadHeaps,
    before: Process,
    missed: Process,
    class: SizeClass,
    index: u32,
)
    requires
        thread.wf(before.heaps),
        before.wf(),
        class.wf(),
        thread.binds(index),
        thread.current@[class.index as int] is None ==> missed == before,
        thread.current@[class.index as int] matches Some(run) ==> missed.heaps.only(
            before.heaps,
            run.heap,
        ) && missed.heaps.arena@[run.heap].same_but_runs(before.heaps.arena@[run.heap])
            && missed.heaps.arena@[run.heap].inner.runs.only(
            before.heaps.arena@[run.heap].inner.runs,
            run.run,
        ) && missed.heaps.arena@[run.heap].inner.runs.runs@[run.run]
            == before.heaps.arena@[run.heap].inner.runs.runs@[run.run],
    ensures
        missed.heaps.arena@[index].same_but_runs(before.heaps.arena@[index]),
        missed.heaps.arena@[index].inner.runs.runs@ == before.heaps.arena@[index].inner.runs.runs@,
        missed.heaps.arena@[index].inner.runs.maps_same(before.heaps.arena@[index].inner.runs),
        missed.heaps.arena@[index].inner.runs.slots_same(before.heaps.arena@[index].inner.runs),
{
    if let Some(run) = thread.current@[class.index as int] {
        assert(thread.current_ok(class.index as int, before.heaps));
        assert(missed.heaps.arena@[run.heap].inner.runs.runs@
            =~= before.heaps.arena@[run.heap].inner.runs.runs@);
    }
}

} // verus!
