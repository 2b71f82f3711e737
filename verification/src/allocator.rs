//! The allocator's entry points: route a request to the thread's heaps, the process
//! heaps, or the system.
//!
//! Addresses are plain integers, and zero is the null address. The caller performs the
//! effects that a call leaves in the process's mailbox.

use vstd::prelude::*;

use crate::config::AllocatorConfig;
use crate::heap::dispatch::tried_reclaim;
use crate::heap::error::{Abort, HeapError};
use crate::heap::extent::heap::ExtentHeap;
use crate::heap::extent::{law_own_mapping_fits, Extent, ExtentInit};
use crate::heap::run::heap::run_owner;
use crate::heap::run::{AvailableLink, RunError};
use crate::heap::service::{
    drained,
    first_error,
    lemma_run_holder,
    resized_only,
    wanting_map,
    wanting_pages,
};
use crate::heap::spare::lemma_quiet;
use crate::heap::state::{HeapMode, MAX_LEASES};
use crate::heap::thread::{
    after_flush,
    alike,
    alike_heap,
    attached,
    can_acquire,
    freed_by_owner,
    gains_free,
    keeps_bound,
    keeps_holders,
    lemma_alike_trans,
    lemma_gains_trans,
    lemma_held_not_idle,
    lemma_none_lost_like,
    lemma_none_lost_refl,
    lemma_none_lost_trans,
    lemma_tidy_loses_none,
    none_lost,
    stray,
    CurrentRun,
    lemma_peers_states,
    lemma_strangers_trans,
    strangers_kept,
    ThreadFreeError,
    ThreadHeaps,
};
use crate::heap::Heap;
use crate::layout::{law_mapping_length_is_tight, valid_layout, Layout, LayoutSpec};
use crate::memory::{
    after_all,
    answers,
    owned,
    unowned,
    AddressRange,
    Effect,
    Mapping,
    Os,
    PageOwner,
};
use crate::process::{
    added,
    all_zero_ready,
    fresh_grant,
    lemma_drawn_trans,
    lemma_holder,
    lemma_none_drawn,
    lemma_peers_only,
    lemma_peers_trans,
    lemma_small_aligned,
    lemma_spared,
    lemma_spared_inner,
    lemma_spared_trans,
    lemma_spared_untouched,
    lemma_untouched_spared,
    lemma_untouched_trans,
    lemma_write_untouched,
    block_spared,
    block_untouched,
    copied,
    drawn,
    law_held_bytes_are_kept,
    lemma_copy_spares,
    lemma_write_spares,
    peers_kept,
    removed,
    same_held,
    spared,
    states_kept,
    untouched,
    zeroed,
    Process,
};
use crate::size_class::{serves, small, SizeClass, SizeClasses};

verus! {

/// Entry points with one configuration.
pub struct Allocator {
    pub config: AllocatorConfig,
}

/// What an unbound thread asked for.
#[derive(Clone, Copy, Debug)]
pub enum AllocKind {
    Run(SizeClass),
    Extent(LayoutSpec, ExtentInit),
}

/// Every attached heap of the thread has a queued extent that cannot be taken in.
pub open spec fn broken_inbox(process: Process, index: u32) -> bool {
    let heap = process.heaps.arena@[index];
    first_error(heap.inner.extents.extents@, heap.extent_inbox@) is Some
}

/// The request is one that takes the claims on the thread's heap, and one of them is
/// broken.
pub open spec fn aborts(before: Process, was: ThreadHeaps, request: AllocKind) -> bool {
    match was.spec_active() {
        None => false,
        Some(index) => broken_inbox(before, index) && (request matches AllocKind::Run(class)
            ==> was.extended(class, before) is None),
    }
}

/// Allocating for `layout` meets a broken claim.
pub open spec fn stops(before: Process, was: ThreadHeaps, layout: Layout) -> bool {
    exists|request: AllocKind| #[trigger]
        asks(request, LayoutSpec::of(layout)) && aborts(before, was, request)
}

/// A claimed or held block of the owner's can be named again after other blocks moved.
proof fn lemma_freeable(process: Process, owner: PageOwner, ptr: usize)
    requires
        process.wf(),
        process.heaps.has_owner(owner),
        owner matches PageOwner::Run { heap, run } ==> (
        process.heaps.arena@[heap].inner.runs.runs@[run].located(ptr) is Ok ==> process.holds(
            ptr as int,
        )),
    ensures
        process.heaps.arena@[owner.spec_heap()].freeable(owner, ptr),
{
    if let PageOwner::Run { heap, run } = owner {
        let found = process.heaps.arena@[heap];
        if found.inner.runs.runs@[run].located(ptr) is Ok {
            assert(process.heaps.heap_wf(heap, process.pages@));
            lemma_run_holder(found, process.pages@, run, ptr as int);
            lemma_holder(process, ptr as int);
        }
    }
}

impl Default for Allocator {
    fn default() -> (allocator: Self)
        ensures
            allocator.config == crate::config::default_config(),
    {
        Self::new()
    }
}

impl Allocator {
    pub fn new() -> (allocator: Self)
        ensures
            allocator.config == crate::config::default_config(),
    {
        Self::with_config(AllocatorConfig::new())
    }

    /// First `init` in the process wins; later configs are ignored.
    pub fn with_config(config: AllocatorConfig) -> (allocator: Self)
        ensures
            allocator.config == config,
    {
        Self { config }
    }

    /// Install the process state. `os` is `None` when the system had no memory for it.
    pub fn init(&self, installed: &mut Option<Process>, os: Option<Os>) -> (ready: bool)
        requires
            *old(installed) matches Some(process) ==> process.wf(),
            os matches Some(os) ==> os.wf(),
        ensures
            ready == (*final(installed) is Some),
            *old(installed) is Some ==> *final(installed) == *old(installed),
            *old(installed) is None ==> *final(installed) is Some == os is Some,
            *final(installed) matches Some(process) ==> process.wf(),
            *old(installed) is None ==> (*final(installed) matches Some(process) ==> {
                &&& process.heaps.config == self.config
                &&& Some(process.os) == os
                &&& process.pages@ == Map::<usize, PageOwner>::empty()
                &&& forall|addr: int| !#[trigger] process.holds(addr)
            }),
    {
        if installed.is_some() {
            return true;
        }
        match os {
            None => false,
            Some(os) => {
                let mut process = Process::new(self.config, os.discards);
                let ghost fresh = process;
                process.os = os;
                proof {
                    assert forall|addr: int| !#[trigger] process.holds(addr) by {
                        assert(process.holds(addr) == fresh.holds(addr));
                    }
                }
                *installed = Some(process);
                true
            },
        }
    }

    /// Attach a heap to the thread, then allocate from it.
    fn bind_alloc(thread: &mut ThreadHeaps, process: &mut Process, request: AllocKind) -> (
    allocated: Result<Option<usize>, Abort>)
        requires
            old(thread).wf(old(process).heaps),
            old(process).wf(),
            request matches AllocKind::Run(class) ==> class.wf(),
            request matches AllocKind::Extent(spec, _) ==> spec.wf(),
        ensures
            gains_free(old(process).heaps, old(thread).bound(), final(thread).bound()),
            none_lost(*old(process), *old(thread), *final(process), *final(thread)),
            untouched(*old(process), *final(process)),
            fresh_grant(*old(process)) || request is Run ==> spared(*old(process), *final(process)),
            request matches AllocKind::Extent(spec, ExtentInit::Zeroed) ==> (
            allocated matches Ok(Some(ptr)) ==> zeroed(
                *old(process),
                *final(process),
                ptr,
                spec.size,
            )),
            final(process).wf(),
            final(thread).wf(final(process).heaps),
            peers_kept(old(process).heaps, final(process).heaps, old(thread).bound()),
            final(process).os.discards == old(process).os.discards,
            !(allocated matches Ok(Some(_))) ==> same_held(*old(process), *final(process)),
            allocated matches Ok(Some(ptr)) ==> {
                &&& added(*old(process), *final(process), ptr)
                &&& match request {
                    AllocKind::Run(class) => final(process).small_block(ptr, class),
                    AllocKind::Extent(spec, _) => final(process).block_len(ptr as int) == spec.size
                        && ptr % spec.align == 0,
                }
                &&& final(thread).owns_block(*final(process), ptr)
            },
            keeps_bound(*old(thread), *final(thread)),
            strangers_kept(
                old(process).heaps,
                final(process).heaps,
                *old(thread),
                *final(thread),
            ),
            drawn(*old(process), *final(process)),
            allocated is Err == aborts(*old(process), *old(thread), request),
            allocated matches Ok(None) ==> unserved(
                *old(process),
                *old(thread),
                *final(thread),
                request,
            ) && wants(*old(process), *final(process), *final(thread), request),
    {
        let ghost before = *process;
        let ghost was = *thread;
        if thread.bind(process).is_none() {
            proof {
                lemma_spared_untouched(before, *process);
            }
            return Ok(None);
        }
        let ghost bound = *process;
        let ghost held = *thread;
        let allocated = match request {
            AllocKind::Run(class) => thread.alloc_miss(class, process),
            AllocKind::Extent(spec, init) => thread.alloc_extent(spec, init, process),
        };
        proof {
            lemma_strangers_trans(
                before.heaps,
                bound.heaps,
                process.heaps,
                was,
                held,
                *thread,
            );
            lemma_drawn_trans(before, bound, *process);
            lemma_none_lost_trans(before, was, bound, held, *process, *thread);
            lemma_peers_states(bound.heaps, process.heaps, was.bound());
            lemma_peers_trans(
                before.heaps,
                bound.heaps,
                process.heaps,
                was.bound(),
                was.bound(),
            );
            assert forall|addr: int| #[trigger] bound.holds(addr) == before.holds(addr) by {}
            let index = held.spec_active()->0;
            if was.spec_active() is Some {
                assert(was.binds(index));
            } else {
                assert(bound.heaps.arena@[index].extent_inbox@.len() == 0);
            }
            assert(peers_kept(before.heaps, bound.heaps, was.bound()));
            if was.spec_active() is None {
                assert(served_from(before, bound, held, index));
            }
            if fresh_grant(before) || request is Run {
                lemma_spared_trans(before, bound, *process);
            }
            if request is Run {
                lemma_spared_untouched(before, *process);
            } else {
                lemma_spared_untouched(before, bound);
                lemma_untouched_trans(before, bound, *process);
            }
            if let AllocKind::Extent(spec, ExtentInit::Zeroed) = request {
                if let Ok(Some(ptr)) = allocated {
                    lemma_zeroed_after(before, bound, *process, ptr, spec.size);
                }
            }
        }
        match allocated {
            Ok(ptr) => Ok(ptr),
            Err(_) => Err(Abort),
        }
    }

    /// Current run empty, or the thread unbound.
    fn alloc_miss(thread: &mut ThreadHeaps, process: &mut Process, class: SizeClass) -> (allocated:
        Result<Option<usize>, Abort>)
        requires
            old(thread).wf(old(process).heaps),
            old(process).wf(),
            class.wf(),
        ensures
            gains_free(old(process).heaps, old(thread).bound(), final(thread).bound()),
            none_lost(*old(process), *old(thread), *final(process), *final(thread)),
            spared(*old(process), *final(process)),
            final(process).wf(),
            final(thread).wf(final(process).heaps),
            peers_kept(old(process).heaps, final(process).heaps, old(thread).bound()),
            final(process).os.discards == old(process).os.discards,
            !(allocated matches Ok(Some(_))) ==> same_held(*old(process), *final(process)),
            allocated matches Ok(Some(ptr)) ==> added(*old(process), *final(process), ptr)
                && final(process).small_block(ptr, class) && final(thread).owns_block(
                *final(process),
                ptr,
            ),
            strangers_kept(
                old(process).heaps,
                final(process).heaps,
                *old(thread),
                *final(thread),
            ),
            drawn(*old(process), *final(process)),
            old(thread).spec_active() is Some && old(thread).extended(class, *old(process)) is Some
                ==> allocated == Ok::<Option<usize>, Abort>(
                old(thread).extended(class, *old(process)),
            ),
            keeps_bound(*old(thread), *final(thread)),
            allocated is Err == aborts(*old(process), *old(thread), AllocKind::Run(class)),
            allocated matches Ok(None) ==> unserved(
                *old(process),
                *old(thread),
                *final(thread),
                AllocKind::Run(class),
            ) && wants(*old(process), *final(process), *final(thread), AllocKind::Run(class)),
    {
        let ghost before = *process;
        let ghost was = *thread;
        match thread.alloc_miss(class, process) {
            Ok(Some(ptr)) => {
                proof {
                    lemma_peers_states(before.heaps, process.heaps, was.bound());
                }
                return Ok(Some(ptr));
            },
            Ok(None) => {},
            Err(_) => {
                proof {
                    lemma_peers_states(before.heaps, process.heaps, was.bound());
                    before.heaps.lemma_grown_refl();
                }
                return Err(Abort);
            },
        }
        let ghost tried = *process;
        let ghost held = *thread;
        let allocated = Self::bind_alloc(thread, process, AllocKind::Run(class));
        proof {
            assert(held.bound() =~= was.bound());
            lemma_strangers_trans(before.heaps, tried.heaps, process.heaps, was, held, *thread);
            lemma_drawn_trans(before, tried, *process);
            lemma_none_lost_trans(before, was, tried, held, *process, *thread);
            lemma_peers_states(before.heaps, tried.heaps, was.bound());
            lemma_peers_trans(
                before.heaps,
                tried.heaps,
                process.heaps,
                was.bound(),
                was.bound(),
            );
            assert forall|addr: int| #[trigger] tried.holds(addr) == before.holds(addr) by {}
            lemma_spared_trans(before, tried, *process);
        }
        allocated
    }

    /// A large block: from the attached heap, else from one attached for it.
    fn alloc_extent(
        thread: &mut ThreadHeaps,
        process: &mut Process,
        spec: LayoutSpec,
        init: ExtentInit,
    ) -> (allocated: Result<Option<usize>, Abort>)
        requires
            old(thread).wf(old(process).heaps),
            old(process).wf(),
            spec.wf(),
        ensures
            gains_free(old(process).heaps, old(thread).bound(), final(thread).bound()),
            none_lost(*old(process), *old(thread), *final(process), *final(thread)),
            untouched(*old(process), *final(process)),
            fresh_grant(*old(process)) ==> spared(*old(process), *final(process)),
            init == ExtentInit::Zeroed ==> (allocated matches Ok(Some(ptr)) ==> zeroed(
                *old(process),
                *final(process),
                ptr,
                spec.size,
            )),
            final(process).wf(),
            final(thread).wf(final(process).heaps),
            peers_kept(old(process).heaps, final(process).heaps, old(thread).bound()),
            final(process).os.discards == old(process).os.discards,
            !(allocated matches Ok(Some(_))) ==> same_held(*old(process), *final(process)),
            allocated matches Ok(Some(ptr)) ==> added(*old(process), *final(process), ptr)
                && final(process).block_len(ptr as int) == spec.size && ptr % spec.align == 0
                && final(thread).owns_block(*final(process), ptr),
            strangers_kept(
                old(process).heaps,
                final(process).heaps,
                *old(thread),
                *final(thread),
            ),
            drawn(*old(process), *final(process)),
            old(thread).spec_active() matches Some(index) ==> {
                let heap = old(process).heaps.arena@[index];
                let first = heap.inner.extents.allocation(
                    spec,
                    old(process).pages@,
                    old(process).os,
                );
                heap.extent_inbox@.len() == 0 && first is Some ==> allocated == Ok::<
                    Option<usize>,
                    Abort,
                >(first)
            },
            keeps_bound(*old(thread), *final(thread)),
            allocated is Err == aborts(*old(process), *old(thread), AllocKind::Extent(spec, init)),
            allocated matches Ok(None) ==> unserved(
                *old(process),
                *old(thread),
                *final(thread),
                AllocKind::Extent(spec, init),
            ) && wants(
                *old(process),
                *final(process),
                *final(thread),
                AllocKind::Extent(spec, init),
            ),
    {
        let ghost before = *process;
        let ghost was = *thread;
        match thread.alloc_extent(spec, init, process) {
            Ok(Some(ptr)) => {
                proof {
                    lemma_peers_states(before.heaps, process.heaps, was.bound());
                }
                return Ok(Some(ptr));
            },
            Ok(None) => {},
            Err(_) => {
                proof {
                    lemma_peers_states(before.heaps, process.heaps, was.bound());
                    before.heaps.lemma_grown_refl();
                }
                return Err(Abort);
            },
        }
        let ghost tried = *process;
        let allocated = Self::bind_alloc(thread, process, AllocKind::Extent(spec, init));
        proof {
            lemma_strangers_trans(before.heaps, tried.heaps, process.heaps, was, was, *thread);
            lemma_drawn_trans(before, tried, *process);
            lemma_none_lost_trans(before, was, tried, was, *process, *thread);
            lemma_peers_states(before.heaps, tried.heaps, was.bound());
            lemma_peers_trans(
                before.heaps,
                tried.heaps,
                process.heaps,
                was.bound(),
                was.bound(),
            );
            assert forall|addr: int| #[trigger] tried.holds(addr) == before.holds(addr) by {}
            lemma_untouched_trans(before, tried, *process);
            if fresh_grant(before) {
                lemma_spared_trans(before, tried, *process);
            }
            if init == ExtentInit::Zeroed {
                if let Ok(Some(ptr)) = allocated {
                    lemma_zeroed_after(before, tried, *process, ptr, spec.size);
                }
            }
        }
        allocated
    }

    /// The block is new, as long as the layout asks, and aligned as it asks.
    pub open spec fn serves_layout(
        before: Process,
        after: Process,
        ptr: usize,
        layout: Layout,
    ) -> bool {
        &&& added(before, after, ptr)
        &&& after.block_len(ptr as int) >= LayoutSpec::of(layout).size
        &&& sized_for(after.block_len(ptr as int), layout)
        &&& ptr % layout.align == 0
    }

    /// The block at `ptr` is one that `thread` can give back with `layout`: looking it up for
    /// the layout finds its owner, in a heap that the thread has attached.
    pub open spec fn owned_for(
        thread: ThreadHeaps,
        process: Process,
        ptr: usize,
        layout: Layout,
    ) -> bool {
        &&& process.looked_up(ptr, LayoutSpec::of(layout)) is Some
        &&& thread.binds(process.owner_at(ptr as int)->0.spec_heap())
    }

    /// A block for `layout`. `Ok(None)` stands for null.
    pub fn allocate(&self, layout: Layout, thread: &mut ThreadHeaps, process: &mut Process) -> (
    allocated: Result<Option<usize>, Abort>)
        requires
            old(thread).wf(old(process).heaps),
            old(process).wf(),
            layout.wf(),
        ensures
            gains_free(old(process).heaps, old(thread).bound(), final(thread).bound()),
            none_lost(*old(process), *old(thread), *final(process), *final(thread)),
            left_alone(*old(process), *final(process), layout),
            final(process).wf(),
            final(thread).wf(final(process).heaps),
            peers_kept(old(process).heaps, final(process).heaps, old(thread).bound()),
            final(process).os.discards == old(process).os.discards,
            allocated matches Ok(Some(ptr)) ==> Self::serves_layout(
                *old(process),
                *final(process),
                ptr,
                layout,
            ) && Self::owned_for(*final(thread), *final(process), ptr, layout),
            strangers_kept(
                old(process).heaps,
                final(process).heaps,
                *old(thread),
                *final(thread),
            ),
            drawn(*old(process), *final(process)),
            !(allocated matches Ok(Some(_))) ==> same_held(*old(process), *final(process)),
            forall|class: SizeClass| #[trigger]
                class_of(LayoutSpec::of(layout), class) ==> (old(thread).hit(
                    class,
                    *old(process),
                ) is Some ==> allocated == Ok::<Option<usize>, Abort>(
                    old(thread).hit(class, *old(process)),
                )),
            forall|class: SizeClass| #[trigger]
                class_of(LayoutSpec::of(layout), class) && old(thread).hit(
                    class,
                    *old(process),
                ) is None && old(thread).spec_active() is Some && old(thread).extended(
                    class,
                    *old(process),
                ) is Some ==> allocated == Ok::<Option<usize>, Abort>(
                    old(thread).extended(class, *old(process)),
                ),
            keeps_bound(*old(thread), *final(thread)),
            allocated is Err == stops(*old(process), *old(thread), layout),
            allocated matches Ok(None) ==> refused(
                *old(process),
                *old(thread),
                *final(thread),
                layout,
            ) && asked_for(*old(process), *final(process), *final(thread), layout),
    {
        let ghost before = *process;
        let ghost was = *thread;
        let spec = LayoutSpec::from_layout(layout);
        if let Some(class) = SizeClasses::class_for(spec) {
            proof {
                assert forall|other: SizeClass| #[trigger] class_of(spec, other) implies other
                    == class by {
                    lemma_one_class(spec, other, class);
                }
            }
            if let Some(ptr) = thread.allocate(class, process) {
                proof {
                    lemma_peers_states(before.heaps, process.heaps, was.bound());
                    lemma_small_aligned(*process, ptr, class, spec);
                }
                proof {
                    lemma_stops(before, was, layout, AllocKind::Run(class));
                    lemma_spared_untouched(before, *process);
                }
                return Ok(Some(ptr));
            }
            let ghost missed = *process;
            let allocated = Self::alloc_miss(thread, process, class);
            proof {
                lemma_after_miss(before, missed, *process, was, allocated);
                lemma_drawn_trans(before, missed, *process);
                lemma_none_lost_trans(before, was, missed, was, *process, *thread);
                lemma_strangers_trans(
                    before.heaps,
                    missed.heaps,
                    process.heaps,
                    was,
                    was,
                    *thread,
                );
                lemma_spared_trans(before, missed, *process);
                lemma_spared_untouched(before, *process);
                if let Ok(Some(ptr)) = allocated {
                    lemma_small_aligned(*process, ptr, class, spec);
                }
                if allocated matches Ok(None) {
                    assert(alike(before, missed) && asks(AllocKind::Run(class), spec));
                }
                lemma_aborts(before, missed, was, AllocKind::Run(class));
                lemma_alike_extended(before, missed, was, class);
                lemma_stops(before, was, layout, AllocKind::Run(class));
            }
            return allocated;
        }
        proof {
            assert forall|other: SizeClass| !#[trigger] class_of(spec, other) by {}
            assert(alike(before, before) && asks(
                AllocKind::Extent(spec, ExtentInit::Uninit),
                spec,
            ));
            lemma_stops(before, was, layout, AllocKind::Extent(spec, ExtentInit::Uninit));
        }
        Self::alloc_extent(thread, process, spec, ExtentInit::Uninit)
    }

    /// What freeing a block of another thread's heap gives.
    ///
    /// An Active heap gets a claim on its inbox; a Draining heap is adopted, or served
    /// directly when the thread has no vacant slot.
    pub open spec fn remote_result(
        thread: ThreadHeaps,
        process: Process,
        owner: PageOwner,
        ptr: usize,
    ) -> Result<(), ThreadFreeError> {
        let heap = process.heaps.arena@[owner.spec_heap()];
        match heap.state@.mode {
            HeapMode::Active => match heap.claim_result(owner, ptr) {
                Err(error) => Err(ThreadFreeError::Heap(error)),
                Ok(()) => if !heap.is_queued(owner) && heap.state@.leases == MAX_LEASES {
                    Err(ThreadFreeError::Heap(HeapError::InvalidMetadata))
                } else {
                    Ok(())
                },
            },
            HeapMode::Draining => if thread.slots@[0] is Vacant || thread.slots@[1] is Vacant {
                if broken_inbox(process, owner.spec_heap()) {
                    Err(ThreadFreeError::Abort)
                } else {
                    Ok(())
                }
            } else {
                match heap.free_error(owner, ptr) {
                    Some(error) => Err(ThreadFreeError::Heap(error)),
                    None => Ok(()),
                }
            },
            _ => Err(ThreadFreeError::Heap(HeapError::InvalidMetadata)),
        }
    }

    /// What freeing a block of an adopted heap answers, once its claims are taken in.
    pub open spec fn adopted_result(adopted: Heap, owner: PageOwner, ptr: usize) -> Result<
        (),
        ThreadFreeError,
    > {
        match adopted.free_error(owner, ptr) {
            None => Ok(()),
            Some(error) => Err(
                match owner {
                    PageOwner::Run { .. } => ThreadFreeError::Abort,
                    PageOwner::Extent { .. } => ThreadFreeError::Heap(error),
                },
            ),
        }
    }

    /// What freeing a block of a heap that no thread owns does with the heap. A thread with
    /// a vacant slot takes the heap over, with its inboxes taken in, and keeps it unless it
    /// is idle now and the thread has another. Else the heap is reclaimed once it is idle.
    pub open spec fn taken_over(
        before: Process,
        after: Process,
        was: ThreadHeaps,
        now: ThreadHeaps,
        index: u32,
    ) -> bool {
        let heap = before.heaps.arena@[index];
        let left = after.heaps.arena@[index];
        if was.slots@[0] is Vacant || was.slots@[1] is Vacant {
            let another = was.slots@[0] is Active || was.slots@[1] is Active;
            &&& left.run_inbox@.len() == 0
            &&& left.extent_inbox@.len() == 0
            &&& now.binds(index) == !(another && left.idle())
            &&& !now.binds(index) && heap.state@.leases == 0 ==> after.heaps.found(
                heap.spec_id(),
            ) is None
        } else {
            &&& now == was
            &&& left.state@ == tried_reclaim(left, heap.state@)
            &&& after.heaps.restacked(before.heaps, index)
        }
    }

    /// Free a block through its heap's inbox. A heap that no thread owns is adopted or
    /// worked on directly.
    #[verifier::rlimit(60)]
    pub fn free_remote(
        thread: &mut ThreadHeaps,
        process: &mut Process,
        owner: PageOwner,
        ptr: usize,
    ) -> (freed: Result<(), ThreadFreeError>)
        requires
            old(thread).wf(old(process).heaps),
            old(process).wf(),
            old(process).heaps.has_owner(owner),
            if old(process).heaps.arena@[owner.spec_heap()].state@.mode == HeapMode::Active {
                old(process).heaps.arena@[owner.spec_heap()].claimable(owner, ptr)
            } else {
                old(process).heaps.arena@[owner.spec_heap()].freeable(owner, ptr)
            },
        ensures
            gains_free(old(process).heaps, old(thread).bound(), final(thread).bound()),
            none_lost(*old(process), *old(thread), *final(process), *final(thread)),
            spared(*old(process), *final(process)),
            final(process).wf(),
            final(thread).wf(final(process).heaps),
            peers_kept(old(process).heaps, final(process).heaps, old(thread).bound()),
            final(process).os.grant == old(process).os.grant,
            final(process).os.discards == old(process).os.discards,
            freed is Ok ==> removed(*old(process), *final(process), ptr),
            freed is Err ==> same_held(*old(process), *final(process)) || (removed(
                *old(process),
                *final(process),
                ptr,
            ) && old(process).heaps.arena@[owner.spec_heap()].state@.leases == MAX_LEASES),
            keeps_holders(*old(thread), *final(thread), *final(process)),
            old(process).heaps.arena@[owner.spec_heap()].state@.mode != HeapMode::Draining || !(old(thread).slots@[0] is Vacant || old(thread).slots@[1] is Vacant) || broken_inbox(
                *old(process),
                owner.spec_heap(),
            ) ==> freed == Self::remote_result(*old(thread), *old(process), owner, ptr),
            old(process).holds(ptr as int) && old(process).owner_at(ptr as int) == Some(owner)
                ==> freed == Self::remote_result(*old(thread), *old(process), owner, ptr),
            ({
                let was = old(process).heaps.arena@[owner.spec_heap()];
                let now = final(process).heaps.arena@[owner.spec_heap()];
                match was.state@.mode {
                    HeapMode::Active => if was.claim_result(owner, ptr) is Err {
                        &&& now.same_claims(was, owner)
                        &&& now.run_inbox@ == was.run_inbox@
                        &&& now.extent_inbox@ == was.extent_inbox@
                    } else {
                        freed is Ok ==> now.claimed_once(was, owner, ptr) && final(process).heaps.has_owner(owner)
                    },
                    HeapMode::Draining => (old(thread).slots@[0] is Vacant || old(
                        thread,
                    ).slots@[1] is Vacant) && !broken_inbox(*old(process), owner.spec_heap())
                        ==> exists|adopted: Heap| #[trigger]
                        crate::heap::service::flushed_all(was, adopted, None, true) && freed
                            == Self::adopted_result(adopted, owner, ptr),
                    _ => true,
                }
            }),
            freed is Ok && old(process).heaps.arena@[owner.spec_heap()].state@.mode
                == HeapMode::Draining ==> Self::taken_over(
                *old(process),
                *final(process),
                *old(thread),
                *final(thread),
                owner.spec_heap(),
            ),
    {
        let ghost before = *process;
        let ghost was = *thread;
        let index: u32 = owner.heap();
        proof {
            assert(before.heaps.heap_wf(index, before.pages@));
            before.heaps.lemma_grown_refl();
            lemma_spared_inner(before, before);
            lemma_none_lost_refl(before, was);
        }
        let (id, active) = match process.heaps.arena.get(index) {
            None => {
                return Err(ThreadFreeError::Heap(HeapError::InvalidMetadata));
            },
            Some(heap) => (heap.id(), heap.is_active()),
        };
        if !active {
            match thread.adopt(index, process) {
                Err(_) => {
                    return Err(ThreadFreeError::Abort);
                },
                Ok(true) => {
                    let ghost adopted = *process;
                    let ghost held = *thread;
                    proof {
                        lemma_adopted(before, adopted, owner, ptr);
                    }
                    let freed = thread.free_owner(owner, ptr, process);
                    proof {
                        lemma_peers_trans(
                            before.heaps,
                            adopted.heaps,
                            process.heaps,
                            was.bound(),
                            held.bound(),
                        );
                        assert forall|addr: int| #[trigger] adopted.holds(addr) == before.holds(
                            addr,
                        ) by {}
                        lemma_spared_trans(before, adopted, *process);
                        lemma_none_lost_trans(before, was, adopted, held, *process, *thread);
                        assert forall|at: usize|
                            process.holds(at as int) && #[trigger] was.owns_block(
                                *process,
                                at,
                            ) implies thread.owns_block(*process, at) by {
                            assert(held.owns_block(*process, at));
                        }
                        if before.holds(ptr as int) && before.owner_at(ptr as int) == Some(owner) {
                            lemma_adopted_free(before, adopted, owner, ptr);
                        }
                    }
                    return match freed {
                        Ok(()) => Ok(()),
                        Err(ThreadFreeError::Heap(error)) => Err(ThreadFreeError::Heap(error)),
                        Err(ThreadFreeError::Abort) => Err(ThreadFreeError::Abort),
                        Err(ThreadFreeError::Remote(_)) => Err(
                            ThreadFreeError::Heap(HeapError::InvalidMetadata),
                        ),
                    };
                },
                Ok(false) => {},
            }
            let ghost refused = *process;
            proof {
                let found = before.heaps.arena@[index];
                assert(refused.heaps.arena@[index].same_but_state(found));
                assert(refused.heaps.has_owner(owner));
                assert(refused.heaps.arena@[index].freeable(owner, ptr));
                assert(refused.heaps.heap_wf(index, refused.pages@));
            }
            let freed = process.heaps.free(id, owner, ptr, &mut process.pages, &mut process.os);
            proof {
                lemma_peers_only(refused.heaps, process.heaps, index, was.bound());
                lemma_peers_trans(
                    before.heaps,
                    refused.heaps,
                    process.heaps,
                    was.bound(),
                    was.bound(),
                );
                assert forall|addr: int| #[trigger] refused.holds(addr) == before.holds(addr) by {}
                lemma_spared(refused, *process, index, None);
                lemma_spared_trans(before, refused, *process);
                lemma_tidy_loses_none(refused, *process, was, index, None);
                lemma_none_lost_trans(before, was, refused, was, *process, was);
                assert forall|i: u32| #[trigger] thread.binds(i) implies
                    process.heaps.arena@[i].state@.mode == HeapMode::Active
                    && process.heaps.arena@[i].spec_id() == refused.heaps.arena@[i].spec_id() by {
                    thread.lemma_bound(refused.heaps, i);
                }
                thread.lemma_wf_kept(refused.heaps, process.heaps);
            }
            return match freed {
                Ok(()) => Ok(()),
                Err(HeapError::InvalidHeap) => Err(
                    ThreadFreeError::Heap(HeapError::InvalidMetadata),
                ),
                Err(error) => Err(ThreadFreeError::Heap(error)),
            };
        }
        let claimed = process.heaps.claim(owner, ptr, &process.pages);
        let ghost marked = *process;
        proof {
            crate::process::lemma_states_only(before.heaps, marked.heaps, index);
            lemma_peers_states(before.heaps, marked.heaps, was.bound());
            thread.lemma_states_kept(before.heaps, marked.heaps);
            lemma_quiet(
                before.heaps.arena@[index],
                marked.heaps.arena@[index],
                before.os.effects@,
                before.os.discards,
            );
            lemma_spared(before, marked, index, None);
            lemma_tidy_loses_none(before, marked, was, index, None);
        }
        if let Err(error) = claimed {
            return Err(ThreadFreeError::Heap(error));
        }
        let enqueued = process.heaps.enqueue(id, owner, &process.pages);
        proof {
            crate::process::lemma_states_only(marked.heaps, process.heaps, index);
            lemma_peers_states(marked.heaps, process.heaps, was.bound());
            lemma_peers_trans(
                before.heaps,
                marked.heaps,
                process.heaps,
                was.bound(),
                was.bound(),
            );
            thread.lemma_states_kept(marked.heaps, process.heaps);
            lemma_quiet(
                marked.heaps.arena@[index],
                process.heaps.arena@[index],
                before.os.effects@,
                before.os.discards,
            );
            lemma_spared(marked, *process, index, None);
            assert forall|addr: int| #[trigger] process.holds(addr) == (addr != ptr
                && before.holds(addr)) by {
                assert(process.heaps.holds(addr) == marked.heaps.holds(addr));
            }
            lemma_spared_trans(before, marked, *process);
            lemma_tidy_loses_none(marked, *process, was, index, None);
            lemma_none_lost_trans(before, was, marked, was, *process, was);
        }
        match enqueued {
            Ok(()) => Ok(()),
            Err(error) => Err(ThreadFreeError::Heap(error)),
        }
    }

    /// Whether the block at `ptr`, which `owner` holds, can be freed by this thread now.
    pub open spec fn can_free(
        thread: ThreadHeaps,
        process: Process,
        owner: PageOwner,
        ptr: usize,
    ) -> bool {
        thread.binds(owner.spec_heap()) || Self::remote_result(thread, process, owner, ptr) is Ok
    }

    /// Free the block at `ptr` of a known owner.
    fn free_owned(
        thread: &mut ThreadHeaps,
        process: &mut Process,
        owner: PageOwner,
        ptr: usize,
    ) -> (freed: Result<(), Abort>)
        requires
            old(thread).wf(old(process).heaps),
            old(process).wf(),
            old(process).heaps.has_owner(owner),
            old(process).heaps.arena@[owner.spec_heap()].freeable(owner, ptr),
        ensures
            gains_free(old(process).heaps, old(thread).bound(), final(thread).bound()),
            none_lost(*old(process), *old(thread), *final(process), *final(thread)),
            final(process).wf(),
            final(thread).wf(final(process).heaps),
            peers_kept(old(process).heaps, final(process).heaps, old(thread).bound()),
            spared(*old(process), *final(process)),
            final(process).os.grant == old(process).os.grant,
            final(process).os.discards == old(process).os.discards,
            freed is Ok ==> removed(*old(process), *final(process), ptr),
            freed is Err ==> forall|addr: int|
                addr != ptr ==> #[trigger] final(process).holds(addr) == old(process).holds(addr),
            keeps_holders(*old(thread), *final(thread), *final(process)),
            old(process).holds(ptr as int) && old(process).owner_at(ptr as int) == Some(owner)
                ==> freed is Ok == Self::can_free(*old(thread), *old(process), owner, ptr),
            freed is Ok && old(thread).binds(owner.spec_heap()) ==> freed_by_owner(
                *old(process),
                *final(process),
                *old(thread),
                *final(thread),
                owner,
                ptr,
            ),
    {
        let ghost before = *process;
        proof {
            if before.holds(ptr as int) {
                lemma_holder(before, ptr as int);
            }
        }
        match thread.free_owner(owner, ptr, process) {
            Ok(()) => Ok(()),
            Err(ThreadFreeError::Remote(_)) => {
                match Self::free_remote(thread, process, owner, ptr) {
                    Ok(()) => Ok(()),
                    Err(_) => Err(Abort),
                }
            },
            Err(_) => Err(Abort),
        }
    }

    /// Free the block at `ptr` that was allocated for `layout`.
    pub fn dealloc(
        &self,
        ptr: usize,
        layout: Layout,
        thread: &mut ThreadHeaps,
        process: &mut Process,
    ) -> (freed: Result<(), Abort>)
        requires
            old(thread).wf(old(process).heaps),
            old(process).wf(),
            layout.wf(),
            old(process).freeable(ptr as int),
        ensures
            gains_free(old(process).heaps, old(thread).bound(), final(thread).bound()),
            none_lost(*old(process), *old(thread), *final(process), *final(thread)),
            final(process).wf(),
            final(thread).wf(final(process).heaps),
            peers_kept(old(process).heaps, final(process).heaps, old(thread).bound()),
            spared(*old(process), *final(process)),
            final(process).os.grant == old(process).os.grant,
            final(process).os.discards == old(process).os.discards,
            freed is Ok ==> removed(*old(process), *final(process), ptr),
            freed is Err ==> forall|addr: int|
                addr != ptr ==> #[trigger] final(process).holds(addr) == old(process).holds(addr),
            keeps_holders(*old(thread), *final(thread), *final(process)),
            ptr == 0 ==> freed is Err,
            old(process).holds(ptr as int) ==> freed is Ok == (old(process).looked_up(
                ptr,
                LayoutSpec::of(layout),
            ) is Some && Self::can_free(
                *old(thread),
                *old(process),
                old(process).owner_at(ptr as int)->0,
                ptr,
            )),
            ({
                let owner = old(process).owner_at(ptr as int)->0;
                freed is Ok && old(thread).binds(owner.spec_heap()) ==> freed_by_owner(
                    *old(process),
                    *final(process),
                    *old(thread),
                    *final(thread),
                    owner,
                    ptr,
                ) || (*final(thread) == *old(thread) && small(LayoutSpec::of(layout)) && forall|
                    class: SizeClass,
                | #[trigger]
                    class_of(LayoutSpec::of(layout), class) ==> final(thread).hit(
                        class,
                        *final(process),
                    ) == Some(ptr))
            }),
    {
        let ghost before = *process;
        let ghost was = *thread;
        proof {
            before.heaps.lemma_grown_refl();
            lemma_spared_inner(before, before);
            lemma_none_lost_refl(before, was);
        }
        if ptr == 0 {
            return Err(Abort);
        }
        let spec = LayoutSpec::from_layout(layout);
        proof {
            if before.holds(ptr as int) {
                lemma_holder(before, ptr as int);
            }
        }
        if let Some(class) = SizeClasses::class_for(spec) {
            proof {
                if let Some(run) = thread.current@[class.index as int] {
                    assert(thread.current_ok(class.index as int, before.heaps));
                    lemma_current_holder(*thread, before, class, ptr);
                }
            }
            match thread.free(ptr, class, process) {
                Ok(true) => {
                    proof {
                        assert forall|other: SizeClass| #[trigger] class_of(
                            spec,
                            other,
                        ) implies other == class by {
                            lemma_one_class(spec, other, class);
                        }
                        lemma_peers_states(before.heaps, process.heaps, was.bound());
                    }
                    return Ok(());
                },
                Ok(false) => {},
                Err(abort) => {
                    return Err(abort);
                },
            }
        }
        match process.lookup(ptr, spec) {
            None => Err(Abort),
            Some(owner) => Self::free_owned(thread, process, owner, ptr),
        }
    }

    /// Free the block at `ptr`, whatever layout it was allocated for.
    pub fn free(&self, ptr: usize, thread: &mut ThreadHeaps, process: &mut Process) -> (freed: Result<
        (),
        Abort,
    >)
        requires
            old(thread).wf(old(process).heaps),
            old(process).wf(),
            old(process).freeable(ptr as int),
        ensures
            gains_free(old(process).heaps, old(thread).bound(), final(thread).bound()),
            none_lost(*old(process), *old(thread), *final(process), *final(thread)),
            final(process).wf(),
            final(thread).wf(final(process).heaps),
            peers_kept(old(process).heaps, final(process).heaps, old(thread).bound()),
            spared(*old(process), *final(process)),
            final(process).os.grant == old(process).os.grant,
            final(process).os.discards == old(process).os.discards,
            freed is Ok ==> removed(*old(process), *final(process), ptr),
            freed is Err ==> forall|addr: int|
                addr != ptr ==> #[trigger] final(process).holds(addr) == old(process).holds(addr),
            keeps_holders(*old(thread), *final(thread), *final(process)),
            old(process).holds(ptr as int) ==> freed is Ok == Self::can_free(
                *old(thread),
                *old(process),
                old(process).owner_at(ptr as int)->0,
                ptr,
            ),
            ({
                let owner = old(process).owner_at(ptr as int)->0;
                freed is Ok && old(thread).binds(owner.spec_heap()) ==> freed_by_owner(
                    *old(process),
                    *final(process),
                    *old(thread),
                    *final(thread),
                    owner,
                    ptr,
                )
            }),
    {
        let ghost before = *process;
        proof {
            before.heaps.lemma_grown_refl();
            lemma_spared_inner(before, before);
            lemma_none_lost_refl(before, *thread);
            if before.holds(ptr as int) {
                lemma_holder(before, ptr as int);
            }
        }
        match process.pages.get(ptr) {
            None => Err(Abort),
            Some(owner) => {
                proof {
                    process.heaps.lemma_page_owner(process.pages@, (ptr / 4096) as usize);
                }
                Self::free_owned(thread, process, owner, ptr)
            },
        }
    }

    /// The length of the block that starts at `ptr`, zero where none does.
    pub open spec fn usable(process: Process, ptr: usize) -> usize {
        if ptr == 0 {
            0
        } else {
            match process.owner_at(ptr as int) {
                None => 0,
                Some(PageOwner::Run { heap, run }) => {
                    let found = process.heaps.arena@[heap].inner.runs.runs@[run];
                    if found.located(ptr) is Ok {
                        found.stride
                    } else {
                        0
                    }
                },
                Some(PageOwner::Extent { heap, extent }) => {
                    let found = process.heaps.arena@[heap].inner.extents.extents@[extent];
                    if ptr == found.base {
                        found.len
                    } else {
                        0
                    }
                },
            }
        }
    }

    /// Usable bytes of the block at `ptr`. Zero for an address that is no block.
    pub fn usable_size(&self, ptr: usize, process: &Process) -> (size: usize)
        requires
            process.wf(),
        ensures
            process.holds(ptr as int) ==> size == process.block_len(ptr as int),
            size == Self::usable(*process, ptr),
    {
        if ptr == 0 {
            return 0;
        }
        proof {
            if process.holds(ptr as int) {
                lemma_holder(*process, ptr as int);
            }
            if process.pages@.contains_key((ptr / 4096) as usize) {
                process.heaps.lemma_page_owner(process.pages@, (ptr / 4096) as usize);
            }
        }
        match process.pages.get(ptr) {
            None => 0,
            Some(PageOwner::Run { heap, run }) => {
                proof {
                    assert(process.heaps.heap_wf(heap, process.pages@));
                }
                match process.heaps.arena.get(heap) {
                    None => 0,
                    Some(found) => match found.inner.runs.runs.get(run) {
                        None => 0,
                        Some(run_found) => {
                            proof {
                                assert(found.inner.runs.run_wf(run, found.spec_index()));
                            }
                            match run_found.locate(ptr) {
                                Ok(_) => run_found.stride,
                                Err(_) => 0,
                            }
                        },
                    },
                }
            },
            Some(PageOwner::Extent { heap, extent }) => {
                match process.heaps.arena.get(heap) {
                    None => 0,
                    Some(found) => match found.inner.extents.extents.get(extent) {
                        None => 0,
                        Some(extent) => if extent.starts_at(ptr) {
                            extent.len()
                        } else {
                            0
                        },
                    },
                }
            },
        }
    }

    /// The block at `ptr` has the new layout without having moved: nothing else changed.
    pub open spec fn fitted(before: Process, after: Process, ptr: usize, layout: Layout) -> bool {
        &&& same_held(before, after)
        &&& after.os == before.os
        &&& after.pages == before.pages
        &&& after.block_len(ptr as int) >= LayoutSpec::of(layout).size
        &&& after.block_len(ptr as int) == if before.owner_at(ptr as int)->0 is Run {
            before.block_len(ptr as int)
        } else {
            LayoutSpec::of(layout).size as int
        }
        &&& ptr % layout.align == 0
        &&& after.looked_up(ptr, LayoutSpec::of(layout)) is Some
        &&& forall|addr: int|
            addr != ptr && #[trigger] before.holds(addr) ==> after.block_len(addr)
                == before.block_len(addr)
    }

    /// `to` is a new block for `layout` that starts with the first `len` bytes of the block
    /// at `from`.
    pub open spec fn duplicated(
        before: Process,
        after: Process,
        from: usize,
        to: usize,
        len: int,
        layout: Layout,
    ) -> bool {
        &&& Self::serves_layout(before, after, to, layout)
        &&& fresh_grant(before) || small(LayoutSpec::of(layout)) ==> spared(before, after)
            && copied(before, after, from, to, len)
    }

    /// The block at `ptr` is not one that can be resized, or it does not fit where it is and
    /// allocating for `layout` meets a broken claim.
    pub open spec fn unfit(
        thread: ThreadHeaps,
        process: Process,
        owner: PageOwner,
        ptr: usize,
        layout: Layout,
    ) -> bool {
        match process.heaps.arena@[owner.spec_heap()].resize_result(
            owner,
            ptr,
            LayoutSpec::of(layout),
        ) {
            Err(_) => true,
            Ok(resized) => !resized && stops(process, thread, layout),
        }
    }

    /// Fit the block at `ptr` to `layout`: in place, else by copying `len` bytes, or as many
    /// as fit, to a new block. The old block stays held.
    #[verifier::rlimit(40)]
    fn refit(
        &self,
        ptr: usize,
        len: usize,
        owner: PageOwner,
        layout: Layout,
        thread: &mut ThreadHeaps,
        process: &mut Process,
    ) -> (fit: Result<Option<usize>, Abort>)
        requires
            old(thread).wf(old(process).heaps),
            old(process).wf(),
            layout.wf(),
            layout.size > 0,
            old(process).holds(ptr as int),
            old(process).owner_at(ptr as int) == Some(owner),
            len <= old(process).block_len(ptr as int),
        ensures
            gains_free(old(process).heaps, old(thread).bound(), final(thread).bound()),
            none_lost(*old(process), *old(thread), *final(process), *final(thread)),
            final(process).wf(),
            final(thread).wf(final(process).heaps),
            peers_kept(old(process).heaps, final(process).heaps, old(thread).bound()),
            fit != Ok::<Option<usize>, Abort>(Some(ptr)) ==> left_alone(
                *old(process),
                *final(process),
                layout,
            ),
            final(process).os.discards == old(process).os.discards,
            old(process).heaps.arena@[owner.spec_heap()].resize_result(
                owner,
                ptr,
                LayoutSpec::of(layout),
            ) == Ok::<bool, HeapError>(true) <==> fit == Ok::<Option<usize>, Abort>(Some(ptr)),
            fit matches Ok(Some(to)) ==> if to == ptr {
                Self::fitted(*old(process), *final(process), ptr, layout)
            } else {
                Self::duplicated(
                    *old(process),
                    *final(process),
                    ptr,
                    to,
                    if len < layout.size {
                        len as int
                    } else {
                        layout.size as int
                    },
                    layout,
                )
            },
            !(fit matches Ok(Some(_))) ==> same_held(*old(process), *final(process)),
            fit matches Ok(None) ==> refused(*old(process), *old(thread), *final(thread), layout)
                && asked_for(*old(process), *final(process), *final(thread), layout),
            keeps_bound(*old(thread), *final(thread)),
            fit matches Ok(Some(to)) ==> if to == ptr {
                *final(thread) == *old(thread)
            } else {
                &&& Self::owned_for(*final(thread), *final(process), to, layout)
                &&& Self::can_free(*final(thread), *final(process), owner, ptr) == Self::can_free(
                    *old(thread),
                    *old(process),
                    owner,
                    ptr,
                )
            },
            fit is Err == Self::unfit(*old(thread), *old(process), owner, ptr, layout),
    {
        let ghost before = *process;
        let ghost was = *thread;
        let spec = LayoutSpec::from_layout(layout);
        let index: u32 = owner.heap();
        proof {
            lemma_holder(before, ptr as int);
            assert(before.heaps.heap_wf(index, before.pages@));
        }
        let resized = process.heaps.resize_in_place(owner, ptr, spec, &process.pages);
        let ghost tried = *process;
        proof {
            lemma_resized(before, tried, owner, ptr, spec, resized);
            crate::process::lemma_states_only(before.heaps, tried.heaps, index);
            lemma_peers_states(before.heaps, tried.heaps, was.bound());
            thread.lemma_states_kept(before.heaps, tried.heaps);
            lemma_tidy_loses_none(before, tried, was, index, None);
        }
        match resized {
            Ok(true) => {
                return Ok(Some(ptr));
            },
            Ok(false) => {},
            Err(_) => {
                proof {
                    lemma_spared_untouched(before, tried);
                }
                return Err(Abort);
            },
        }
        assert(alike(before, tried)) by {
            lemma_alike_resized(before, tried, owner);
        }
        let allocated = self.allocate(layout, thread, process);
        let ghost fresh = *process;
        proof {
            lemma_peers_trans(
                before.heaps,
                tried.heaps,
                fresh.heaps,
                was.bound(),
                was.bound(),
            );
            assert forall|addr: int| #[trigger] tried.holds(addr) == before.holds(addr) by {}
            lemma_none_lost_trans(before, was, tried, was, fresh, *thread);
            if allocated matches Ok(None) {
                lemma_refused(before, tried, was, *thread, layout);
            }
            assert(stops(tried, was, layout) == stops(before, was, layout)) by {
                lemma_alike_stops(before, tried, was, layout);
            }
            assert(left_alone(before, fresh, layout)) by {
                lemma_left_alone(before, tried, fresh, layout);
            }
        }
        let to: usize = match allocated {
            Ok(Some(to)) => to,
            Ok(None) => {
                return Ok(None);
            },
            Err(abort) => {
                return Err(abort);
            },
        };
        let count: usize = if len < layout.size {
            len
        } else {
            layout.size
        };
        process.os.copy(ptr, to, count);
        proof {
            lemma_write_untouched(
                before,
                fresh,
                *process,
                to,
                Effect::Copy { from: ptr, to, len: count },
            );
            if fresh_grant(before) || small(spec) {
                lemma_copy_spares(before, fresh, *process, ptr, to, count);
            }
            assert forall|addr: int| #[trigger] process.holds(addr) == fresh.holds(addr) by {}
            lemma_none_lost_like(before, was, fresh, *thread, *process, *thread);
            assert(fresh.holds(to as int));
            assert(Self::can_free(*thread, *process, owner, ptr) == Self::can_free(
                was,
                before,
                owner,
                ptr,
            )) by {
                lemma_alike_can_free(before, tried, was, owner, ptr);
                assert(tried.holds(ptr as int) && fresh.holds(ptr as int));
                assert(block_untouched(before, fresh, ptr as int)) by {
                    reveal(untouched);
                }
                lemma_can_free_kept(tried, fresh, was, *thread, ptr);
            }
        }
        Ok(Some(to))
    }

    /// The block moved from `from` to `to`: only the latter is held, and it starts with the
    /// first `len` bytes of the former.
    pub open spec fn moved(
        before: Process,
        after: Process,
        from: usize,
        to: usize,
        len: int,
        layout: Layout,
    ) -> bool {
        &&& to > 0
        &&& !before.holds(to as int)
        &&& forall|addr: int| #[trigger]
            after.holds(addr) == (addr == to || (addr != from && before.holds(addr)))
        &&& to % layout.align == 0
        &&& after.block_len(to as int) >= LayoutSpec::of(layout).size
        &&& sized_for(after.block_len(to as int), layout)
        &&& fresh_grant(before) || small(LayoutSpec::of(layout)) ==> spared(before, after)
            && copied(before, after, from, to, len)
    }

    /// Change the size of the block at `ptr`, which was allocated for `old`. A null `ptr`
    /// allocates; a zero size frees.
    #[verifier::rlimit(40)]
    pub fn realloc(
        &self,
        ptr: usize,
        old_layout: Layout,
        new_size: usize,
        thread: &mut ThreadHeaps,
        process: &mut Process,
    ) -> (fit: Result<Option<usize>, Abort>)
        requires
            old(thread).wf(old(process).heaps),
            old(process).wf(),
            old_layout.wf(),
            ptr != 0 ==> old(process).holds(ptr as int) && old_layout.size <= old(process).block_len(ptr as int),
        ensures
            gains_free(old(process).heaps, old(thread).bound(), final(thread).bound()),
            none_lost(*old(process), *old(thread), *final(process), *final(thread)),
            final(process).wf(),
            final(thread).wf(final(process).heaps),
            peers_kept(old(process).heaps, final(process).heaps, old(thread).bound()),
            fit != Ok::<Option<usize>, Abort>(Some(ptr)) ==> left_alone(
                *old(process),
                *final(process),
                Layout { size: new_size, align: old_layout.align },
            ),
            ptr != 0 && new_size == 0 ==> spared(*old(process), *final(process)),
            ({
                let layout = Layout { size: new_size, align: old_layout.align };
                let valid = valid_layout(new_size as int, old_layout.align as int);
                if ptr == 0 {
                    &&& !valid ==> fit == Ok::<Option<usize>, Abort>(None) && *final(process) == *old(process)
                    &&& valid ==> (fit matches Ok(Some(to)) ==> Self::serves_layout(
                        *old(process),
                        *final(process),
                        to,
                        layout,
                    ) && Self::owned_for(*final(thread), *final(process), to, layout)) && (!(fit matches Ok(Some(_))) ==> same_held(
                        *old(process),
                        *final(process),
                    )) && (fit matches Ok(None) ==> refused(
                        *old(process),
                        *old(thread),
                        *final(thread),
                        layout,
                    ) && asked_for(*old(process), *final(process), *final(thread), layout)) && fit is Err == stops(*old(process), *old(thread), layout)
                } else if new_size == 0 {
                    &&& !(fit matches Ok(Some(_)))
                    &&& fit is Ok ==> removed(*old(process), *final(process), ptr)
                    &&& fit is Ok == (old(process).looked_up(
                        ptr,
                        LayoutSpec::of(old_layout),
                    ) is Some && Self::can_free(
                        *old(thread),
                        *old(process),
                        old(process).owner_at(ptr as int)->0,
                        ptr,
                    ))
                } else if !valid {
                    fit == Ok::<Option<usize>, Abort>(None) && *final(process) == *old(process)
                } else {
                    &&& fit matches Ok(Some(to)) ==> if to == ptr {
                        Self::fitted(*old(process), *final(process), ptr, layout)
                    } else {
                        Self::moved(
                            *old(process),
                            *final(process),
                            ptr,
                            to,
                            if old_layout.size < new_size {
                                old_layout.size as int
                            } else {
                                new_size as int
                            },
                            layout,
                        )
                    }
                    &&& fit matches Ok(None) ==> same_held(*old(process), *final(process)) && refused(
                        *old(process),
                        *old(thread),
                        *final(thread),
                        layout,
                    ) && asked_for(*old(process), *final(process), *final(thread), layout)
                    &&& old(process).looked_up(ptr, LayoutSpec::of(old_layout)) matches Some(owner)
                        ==> (old(process).heaps.arena@[owner.spec_heap()].resize_result(
                        owner,
                        ptr,
                        LayoutSpec::of(layout),
                    ) == Ok::<bool, HeapError>(true) <==> fit == Ok::<Option<usize>, Abort>(
                        Some(ptr),
                    ))
                    &&& old(process).looked_up(ptr, LayoutSpec::of(old_layout)) is None ==> fit is Err
                    &&& old(process).looked_up(ptr, LayoutSpec::of(old_layout)) matches Some(owner)
                        ==> (Self::unfit(*old(thread), *old(process), owner, ptr, layout)
                        ==> fit is Err) && (fit is Err ==> Self::unfit(
                        *old(thread),
                        *old(process),
                        owner,
                        ptr,
                        layout,
                    ) || !Self::can_free(*old(thread), *old(process), owner, ptr))
                    &&& fit matches Ok(Some(to)) ==> if to == ptr {
                        *final(thread) == *old(thread)
                    } else {
                        Self::owned_for(*final(thread), *final(process), to, layout)
                            && Self::can_free(
                            *old(thread),
                            *old(process),
                            old(process).owner_at(ptr as int)->0,
                            ptr,
                        )
                    }
                }
            }),
    {
        let ghost before = *process;
        let ghost was = *thread;
        proof {
            before.heaps.lemma_grown_refl();
            lemma_spared_inner(before, before);
            lemma_none_lost_refl(before, was);
            lemma_spared_untouched(before, before);
            if ptr != 0 {
                lemma_holder(before, ptr as int);
            }
        }
        if ptr == 0 {
            return match Layout::from_size_align(new_size, old_layout.align()) {
                None => Ok(None),
                Some(layout) => self.allocate(layout, thread, process),
            };
        }
        if new_size == 0 {
            let freed = self.dealloc(ptr, old_layout, thread, process);
            proof {
                lemma_spared_untouched(before, *process);
            }
            return match freed {
                Ok(()) => Ok(None),
                Err(abort) => Err(abort),
            };
        }
        let layout = match Layout::from_size_align(new_size, old_layout.align()) {
            None => {
                return Ok(None);
            },
            Some(layout) => layout,
        };
        let owner = match process.lookup(ptr, LayoutSpec::from_layout(old_layout)) {
            None => {
                return Err(Abort);
            },
            Some(owner) => owner,
        };
        let fit = self.refit(ptr, old_layout.size(), owner, layout, thread, process);
        let to: usize = match fit {
            Ok(Some(to)) => to,
            Ok(None) => {
                return Ok(None);
            },
            Err(abort) => {
                return Err(abort);
            },
        };
        if to == ptr {
            return Ok(Some(ptr));
        }
        let ghost copy = *process;
        let ghost held = *thread;
        proof {
            assert(copy.holds(ptr as int));
            lemma_holder(copy, ptr as int);
            assert(block_untouched(before, copy, ptr as int)) by {
                reveal(untouched);
            }
        }
        let freed = self.dealloc(ptr, old_layout, thread, process);
        proof {
            lemma_moved(before, copy, *process, ptr, to, old_layout.size, layout, freed);
            assert(Self::owned_for(*thread, *process, to, layout)) by {
                law_given_block_stays_ones_own(copy, *process, held, *thread, to, layout);
            }
            lemma_none_lost_trans(before, was, copy, held, *process, *thread);
            lemma_gains_trans(
                before.heaps,
                copy.heaps,
                was.bound(),
                held.bound(),
                thread.bound(),
            );
            assert(peers_kept(before.heaps, process.heaps, was.bound())) by {
                lemma_peers_trans(
                    before.heaps,
                    copy.heaps,
                    process.heaps,
                    was.bound(),
                    held.bound(),
                );
            }
        }
        match freed {
            Ok(()) => Ok(Some(to)),
            Err(abort) => Err(abort),
        }
    }

    /// Change the size of the block at `ptr`, whatever layout it was allocated for. The new
    /// block starts with as much of the old one as fits.
    #[verifier::rlimit(40)]
    pub fn resize(
        &self,
        ptr: usize,
        layout: Layout,
        thread: &mut ThreadHeaps,
        process: &mut Process,
    ) -> (fit: Result<Option<usize>, Abort>)
        requires
            old(thread).wf(old(process).heaps),
            old(process).wf(),
            layout.wf(),
            layout.size > 0,
            old(process).holds(ptr as int),
        ensures
            final(process).wf(),
            final(thread).wf(final(process).heaps),
            peers_kept(old(process).heaps, final(process).heaps, old(thread).bound()),
            gains_free(old(process).heaps, old(thread).bound(), final(thread).bound()),
            none_lost(*old(process), *old(thread), *final(process), *final(thread)),
            fit != Ok::<Option<usize>, Abort>(Some(ptr)) ==> left_alone(
                *old(process),
                *final(process),
                layout,
            ),
            fit matches Ok(Some(to)) ==> if to == ptr {
                Self::fitted(*old(process), *final(process), ptr, layout)
            } else {
                Self::moved(
                    *old(process),
                    *final(process),
                    ptr,
                    to,
                    if old(process).block_len(ptr as int) < layout.size {
                        old(process).block_len(ptr as int)
                    } else {
                        layout.size as int
                    },
                    layout,
                )
            },
            fit matches Ok(None) ==> same_held(*old(process), *final(process)) && refused(
                *old(process),
                *old(thread),
                *final(thread),
                layout,
            ) && asked_for(*old(process), *final(process), *final(thread), layout),
            ({
                let owner = old(process).owner_at(ptr as int)->0;
                &&& Self::unfit(*old(thread), *old(process), owner, ptr, layout) ==> fit is Err
                &&& fit is Err ==> Self::unfit(
                    *old(thread),
                    *old(process),
                    owner,
                    ptr,
                    layout,
                ) || !Self::can_free(*old(thread), *old(process), owner, ptr)
                &&& fit matches Ok(Some(to)) ==> if to == ptr {
                    *final(thread) == *old(thread)
                } else {
                    Self::owned_for(*final(thread), *final(process), to, layout)
                        && Self::can_free(*old(thread), *old(process), owner, ptr)
                }
            }),
            ({
                let owner = old(process).owner_at(ptr as int)->0;
                old(process).heaps.arena@[owner.spec_heap()].resize_result(
                    owner,
                    ptr,
                    LayoutSpec::of(layout),
                ) == Ok::<bool, HeapError>(true) <==> fit == Ok::<Option<usize>, Abort>(Some(ptr))
            }),
    {
        let ghost before = *process;
        let ghost was = *thread;
        proof {
            lemma_holder(before, ptr as int);
            lemma_none_lost_refl(before, was);
        }
        let len: usize = self.usable_size(ptr, process);
        let owner = match process.pages.get(ptr) {
            None => {
                return Err(Abort);
            },
            Some(owner) => owner,
        };
        let fit = self.refit(ptr, len, owner, layout, thread, process);
        let to: usize = match fit {
            Ok(Some(to)) => to,
            Ok(None) => {
                return Ok(None);
            },
            Err(abort) => {
                return Err(abort);
            },
        };
        if to == ptr {
            return Ok(Some(ptr));
        }
        let ghost copy = *process;
        let ghost held = *thread;
        proof {
            assert(copy.holds(ptr as int));
            lemma_holder(copy, ptr as int);
            assert(block_untouched(before, copy, ptr as int)) by {
                reveal(untouched);
            }
        }
        let freed = self.free(ptr, thread, process);
        proof {
            lemma_moved(before, copy, *process, ptr, to, len, layout, freed);
            assert(Self::owned_for(*thread, *process, to, layout)) by {
                law_given_block_stays_ones_own(copy, *process, held, *thread, to, layout);
            }
            lemma_none_lost_trans(before, was, copy, held, *process, *thread);
            lemma_gains_trans(
                before.heaps,
                copy.heaps,
                was.bound(),
                held.bound(),
                thread.bound(),
            );
            assert(peers_kept(before.heaps, process.heaps, was.bound())) by {
                lemma_peers_trans(
                    before.heaps,
                    copy.heaps,
                    process.heaps,
                    was.bound(),
                    held.bound(),
                );
            }
        }
        match freed {
            Ok(()) => Ok(Some(to)),
            Err(abort) => Err(abort),
        }
    }

    /// A zero-filled block for `layout`. `Ok(None)` stands for null.
    pub fn alloc_zeroed(&self, layout: Layout, thread: &mut ThreadHeaps, process: &mut Process) -> (
    allocated: Result<Option<usize>, Abort>)
        requires
            old(thread).wf(old(process).heaps),
            old(process).wf(),
            layout.wf(),
        ensures
            final(process).wf(),
            final(thread).wf(final(process).heaps),
            peers_kept(old(process).heaps, final(process).heaps, old(thread).bound()),
            gains_free(old(process).heaps, old(thread).bound(), final(thread).bound()),
            none_lost(*old(process), *old(thread), *final(process), *final(thread)),
            final(process).os.discards == old(process).os.discards,
            left_alone(*old(process), *final(process), layout),
            allocated matches Ok(Some(ptr)) ==> Self::serves_layout(
                *old(process),
                *final(process),
                ptr,
                layout,
            ) && zeroed(*old(process), *final(process), ptr, layout.size) && Self::owned_for(
                *final(thread),
                *final(process),
                ptr,
                layout,
            ),
            strangers_kept(
                old(process).heaps,
                final(process).heaps,
                *old(thread),
                *final(thread),
            ),
            drawn(*old(process), *final(process)),
            !(allocated matches Ok(Some(_))) ==> same_held(*old(process), *final(process)),
            forall|class: SizeClass| #[trigger]
                class_of(LayoutSpec::of(layout), class) ==> (old(thread).hit(
                    class,
                    *old(process),
                ) is Some ==> allocated == Ok::<Option<usize>, Abort>(
                    old(thread).hit(class, *old(process)),
                )),
            forall|class: SizeClass| #[trigger]
                class_of(LayoutSpec::of(layout), class) && old(thread).hit(
                    class,
                    *old(process),
                ) is None && old(thread).spec_active() is Some && old(thread).extended(
                    class,
                    *old(process),
                ) is Some ==> allocated == Ok::<Option<usize>, Abort>(
                    old(thread).extended(class, *old(process)),
                ),
            keeps_bound(*old(thread), *final(thread)),
            allocated is Err == stops(*old(process), *old(thread), layout),
            allocated matches Ok(None) ==> refused(
                *old(process),
                *old(thread),
                *final(thread),
                layout,
            ) && asked_for(*old(process), *final(process), *final(thread), layout),
    {
        let ghost before = *process;
        let ghost was = *thread;
        let spec = LayoutSpec::from_layout(layout);
        if SizeClasses::class_for(spec).is_none() {
            proof {
                assert forall|other: SizeClass| !#[trigger] class_of(spec, other) by {}
                assert(alike(before, before) && asks(
                    AllocKind::Extent(spec, ExtentInit::Zeroed),
                    spec,
                ));
                lemma_stops(before, *thread, layout, AllocKind::Extent(spec, ExtentInit::Zeroed));
            }
            return Self::alloc_extent(thread, process, spec, ExtentInit::Zeroed);
        }
        let allocated = self.allocate(layout, thread, process);
        if let Ok(Some(ptr)) = allocated {
            let ghost fresh = *process;
            process.os.zero(ptr, layout.size());
            proof {
                assert(fresh.holds(ptr as int));
                lemma_write_spares(
                    before,
                    fresh,
                    *process,
                    ptr,
                    Effect::Zero(AddressRange { base: ptr, len: layout.size }),
                );
                lemma_spared_untouched(before, *process);
                lemma_none_drawn(fresh, *process);
                lemma_none_lost_like(before, was, fresh, *thread, *process, *thread);
                lemma_drawn_trans(before, fresh, *process);
                assert forall|addr: int| #[trigger] process.holds(addr) == (addr == ptr
                    || before.holds(addr)) by {
                    assert(process.holds(addr) == fresh.holds(addr));
                }
                assert(process.os.effects@.last() == Effect::Zero(
                    AddressRange { base: ptr, len: layout.size },
                ));
            }
        }
        allocated
    }
}

/// Blocks that are held throughout keep their owner, their length and their bytes through a
/// request for `layout`. Only a mapping on offer that already had an owner, and is given
/// back, takes bytes away.
pub open spec fn left_alone(before: Process, after: Process, layout: Layout) -> bool {
    &&& untouched(before, after)
    &&& fresh_grant(before) || small(LayoutSpec::of(layout)) ==> spared(before, after)
}

/// What was left alone after a try that changed nothing was left alone.
proof fn lemma_left_alone(before: Process, tried: Process, after: Process, layout: Layout)
    requires
        spared(before, tried),
        same_held(before, tried),
        tried.os == before.os,
        tried.pages == before.pages,
        left_alone(tried, after, layout),
    ensures
        left_alone(before, after, layout),
{
    assert forall|addr: int| #[trigger] before.holds(addr) && after.holds(addr) implies tried.holds(
        addr,
    ) by {
        assert(tried.holds(addr) == before.holds(addr));
    }
    lemma_spared_untouched(before, tried);
    lemma_untouched_trans(before, tried, after);
    if fresh_grant(before) || small(LayoutSpec::of(layout)) {
        lemma_spared_trans(before, tried, after);
    }
}

/// `bound` is `before` with heap `index` attached to the thread.
pub open spec fn served_from(
    before: Process,
    bound: Process,
    thread: ThreadHeaps,
    index: u32,
) -> bool {
    &&& bound.wf()
    &&& thread.spec_active() == Some(index)
    &&& attached(before.heaps, bound.heaps, index)
    &&& bound.heaps.grown(before.heaps)
    &&& bound.pages == before.pages
    &&& bound.os == before.os
    &&& thread.wf(bound.heaps)
    &&& same_held(before, bound)
}

/// `class` is the class that serves `spec`.
pub open spec fn class_of(spec: LayoutSpec, class: SizeClass) -> bool {
    &&& class.wf()
    &&& serves(class.index as int, spec)
    &&& forall|i: int| 0 <= i < class.index ==> !#[trigger] serves(i, spec)
}

/// Only one class serves a layout first.
pub proof fn lemma_one_class(spec: LayoutSpec, left: SizeClass, right: SizeClass)
    requires
        class_of(spec, left),
        class_of(spec, right),
    ensures
        left == right,
{
    if left.index < right.index {
        assert(!serves(left.index as int, spec));
    }
    if right.index < left.index {
        assert(!serves(right.index as int, spec));
    }
}

/// `request` is what `spec` asks for.
pub open spec fn asks(request: AllocKind, spec: LayoutSpec) -> bool {
    match request {
        AllocKind::Run(class) => class_of(spec, class),
        AllocKind::Extent(asked, _) => asked == spec && !small(spec),
    }
}

/// What stops allocating for a layout is what aborts the one request it asks for.
proof fn lemma_stops(before: Process, was: ThreadHeaps, layout: Layout, request: AllocKind)
    requires
        layout.wf(),
        asks(request, LayoutSpec::of(layout)),
    ensures
        stops(before, was, layout) == aborts(before, was, request),
{
    let spec = LayoutSpec::of(layout);
    assert forall|other: AllocKind| #[trigger] asks(other, spec) && aborts(
        before,
        was,
        other,
    ) implies aborts(before, was, request) by {
        match (request, other) {
            (AllocKind::Run(left), AllocKind::Run(right)) => {
                lemma_one_class(spec, left, right);
            },
            _ => {},
        }
    }
}

/// What aborts in one process aborts in one that is alike.
proof fn lemma_aborts(before: Process, like: Process, was: ThreadHeaps, request: AllocKind)
    requires
        alike(before, like),
        was.wf(before.heaps),
        request matches AllocKind::Run(class) ==> class.wf(),
    ensures
        aborts(like, was, request) == aborts(before, was, request),
{
    if let Some(index) = was.spec_active() {
        assert(was.binds(index));
        assert(before.heaps.arena@.contains_key(index));
    }
    if let AllocKind::Run(class) = request {
        assert(was.current_ok(class.index as int, before.heaps));
        if let Some(run) = was.current@[class.index as int] {
            assert(was.binds(run.heap));
            assert(before.heaps.arena@.contains_key(run.heap));
        }
    }
}

/// The current run gives the same block in a process that is alike.
proof fn lemma_alike_extended(before: Process, like: Process, was: ThreadHeaps, class: SizeClass)
    requires
        alike(before, like),
        was.wf(before.heaps),
        class.wf(),
    ensures
        was.extended(class, like) == was.extended(class, before),
{
    assert(was.current_ok(class.index as int, before.heaps));
    if let Some(run) = was.current@[class.index as int] {
        assert(was.binds(run.heap));
        assert(before.heaps.arena@.contains_key(run.heap));
    }
}

/// What stops in one process stops in one that is alike.
proof fn lemma_alike_stops(before: Process, like: Process, was: ThreadHeaps, layout: Layout)
    requires
        alike(before, like),
        was.wf(before.heaps),
        layout.wf(),
    ensures
        stops(like, was, layout) == stops(before, was, layout),
{
    assert forall|request: AllocKind| #[trigger]
        asks(request, LayoutSpec::of(layout)) implies aborts(like, was, request) == aborts(
        before,
        was,
        request,
    ) by {
        lemma_aborts(before, like, was, request);
    }
}

/// A held block of an adopted heap can be freed by its new owner.
proof fn lemma_adopted(before: Process, adopted: Process, owner: PageOwner, ptr: usize)
    requires
        before.wf(),
        adopted.wf(),
        before.heaps.has_owner(owner),
        adopted.heaps.grown(before.heaps),
        same_held(before, adopted),
        before.heaps.arena@[owner.spec_heap()].freeable(owner, ptr),
    ensures
        adopted.heaps.has_owner(owner),
        adopted.heaps.arena@[owner.spec_heap()].freeable(owner, ptr),
{
    let index = owner.spec_heap();
    assert(before.heaps.arena@.contains_key(index));
    assert(adopted.heaps.arena@.contains_key(index));
    assert(adopted.heaps.arena@[index].shapes_kept(before.heaps.arena@[index]));
    if let PageOwner::Run { run, .. } = owner {
        let was = before.heaps.arena@[index].inner.runs.runs@[run];
        let now = adopted.heaps.arena@[index].inner.runs.runs@[run];
        assert(before.heaps.arena@[index].inner.runs.runs@.contains_key(run));
        assert(now.same_shape(was));
        assert(now.located(ptr) == was.located(ptr));
        if now.located(ptr) is Ok {
            assert(before.heaps.arena@[index].inner.runs.holds(ptr as int));
            assert(before.heaps.arena@[index].holds(ptr as int));
            assert(before.holds(ptr as int));
            assert(adopted.holds(ptr as int));
        }
    }
    lemma_freeable(adopted, owner, ptr);
}

/// Freeing a held block of an adopted heap succeeds.
proof fn lemma_adopted_free(before: Process, adopted: Process, owner: PageOwner, ptr: usize)
    requires
        before.wf(),
        adopted.wf(),
        before.heaps.has_owner(owner),
        adopted.heaps.has_owner(owner),
        adopted.heaps.only(before.heaps, owner.spec_heap()),
        adopted.heaps.grown(before.heaps),
        same_held(before, adopted),
        before.holds(ptr as int),
        before.owner_at(ptr as int) == Some(owner),
        crate::heap::service::flushed_all(
            before.heaps.arena@[owner.spec_heap()],
            adopted.heaps.arena@[owner.spec_heap()],
            None,
            true,
        ),
    ensures
        adopted.heaps.arena@[owner.spec_heap()].free_error(owner, ptr) is None,
{
    lemma_holder(before, ptr as int);
    lemma_holder(adopted, ptr as int);
    let index = owner.spec_heap();
    match owner {
        PageOwner::Run { run, .. } => {
            assert(before.heaps.arena@.contains_key(index));
            assert(adopted.heaps.arena@[index].shapes_kept(before.heaps.arena@[index]));
            assert(before.heaps.arena@[index].inner.runs.runs@.contains_key(run));
        },
        PageOwner::Extent { extent, .. } => {
            let found = before.heaps.arena@[index];
            assert(found.inner.extents.extents@.contains_key(extent));
            assert(found.inner.extents.extents@[extent].state
                == crate::heap::extent::ExtentState::Allocated);
        },
    }
}

/// What trying a resize in place leaves.
proof fn lemma_resized(
    before: Process,
    after: Process,
    owner: PageOwner,
    ptr: usize,
    spec: LayoutSpec,
    resized: Result<bool, HeapError>,
)
    requires
        before.wf(),
        after.wf(),
        before.holds(ptr as int),
        before.owner_at(ptr as int) == Some(owner),
        spec.wf(),
        after.pages == before.pages,
        after.os == before.os,
        after.heaps.only(before.heaps, owner.spec_heap()),
        after.heaps.grown(before.heaps),
        after.heaps.arena@[owner.spec_heap()].inner.runs
            == before.heaps.arena@[owner.spec_heap()].inner.runs,
        resized == before.heaps.arena@[owner.spec_heap()].resize_result(owner, ptr, spec),
        owner is Run ==> after.heaps.arena@[owner.spec_heap()]
            == before.heaps.arena@[owner.spec_heap()],
        owner matches PageOwner::Extent { extent, .. }
            ==> after.heaps.arena@[owner.spec_heap()].inner.extents.extents@
            == before.heaps.arena@[owner.spec_heap()].inner.extents.extents@.insert(
            extent,
            Extent {
                len: if resized == Ok::<bool, HeapError>(true) {
                    spec.size
                } else {
                    before.heaps.arena@[owner.spec_heap()].inner.extents.extents@[extent].len
                },
                ..before.heaps.arena@[owner.spec_heap()].inner.extents.extents@[extent]
            },
        ),
        same_held(before, after),
    ensures
        resized is Ok,
        resized == Ok::<bool, HeapError>(true) ==> after.block_len(ptr as int) >= spec.size && ptr
            % spec.align == 0 && after.block_len(ptr as int) == if owner is Run {
            before.block_len(ptr as int)
        } else {
            spec.size as int
        },
        forall|addr: int|
            addr != ptr && #[trigger] before.holds(addr) ==> after.block_len(addr)
                == before.block_len(addr),
        resized == Ok::<bool, HeapError>(false) ==> spared(before, after),
{
    lemma_holder(before, ptr as int);
    let index = owner.spec_heap();
    assert(before.heaps.heap_wf(index, before.pages@));
    assert forall|addr: int| addr != ptr && #[trigger] before.holds(addr) implies after.block_len(
        addr,
    ) == before.block_len(addr) by {
        lemma_holder(before, addr);
        if let Some(PageOwner::Extent { heap, extent }) = before.owner_at(addr) {
            if heap == index {
                if let PageOwner::Extent { extent: same, .. } = owner {
                    assert(extent != same);
                }
            }
        }
    }
    if resized == Ok::<bool, HeapError>(false) {
        let was = before.heaps.arena@[index];
        let now = after.heaps.arena@[index];
        if let PageOwner::Extent { extent, .. } = owner {
            assert(now.inner.extents.extents@ =~= was.inner.extents.extents@);
        }
        lemma_quiet(was, now, before.os.effects@, before.os.discards);
        lemma_spared(before, after, index, None);
    }
}

/// A copy, then a free of the block that was copied from.
proof fn lemma_moved(
    before: Process,
    copy: Process,
    after: Process,
    from: usize,
    to: usize,
    len: usize,
    layout: Layout,
    freed: Result<(), Abort>,
)
    requires
        copy.wf(),
        before.holds(from as int),
        layout.wf(),
        from != to,
        copy.os.discards == before.os.discards,
        Allocator::duplicated(
            before,
            copy,
            from,
            to,
            if len < layout.size {
                len as int
            } else {
                layout.size as int
            },
            layout,
        ),
        spared(copy, after),
        freed is Ok ==> removed(copy, after, from),
        left_alone(before, copy, layout),
        forall|addr: int| addr != from ==> #[trigger] after.holds(addr) == copy.holds(addr),
    ensures
        left_alone(before, after, layout),
        freed is Ok ==> Allocator::moved(
            before,
            after,
            from,
            to,
            if len < layout.size {
                len as int
            } else {
                layout.size as int
            },
            layout,
        ),
{
    assert(copy.holds(from as int));
    assert forall|addr: int| #[trigger] before.holds(addr) && after.holds(addr) implies copy.holds(
        addr,
    ) by {}
    lemma_untouched_spared(before, copy, after);
    if fresh_grant(before) || small(LayoutSpec::of(layout)) {
        lemma_spared_trans(before, copy, after);
    }
    if freed is Ok {
        let count: int = if len < layout.size {
            len as int
        } else {
            layout.size as int
        };
        assert(copy.holds(to as int));
        assert(after.holds(to as int));
        assert(block_spared(copy, after, to as int)) by {
            reveal(spared);
        }
        assert forall|addr: int| #[trigger] after.holds(addr) == (addr == to || (addr != from
            && before.holds(addr))) by {
            assert(copy.holds(addr) == (addr == to || before.holds(addr)));
        }
        if fresh_grant(before) || small(LayoutSpec::of(layout)) {
            assert forall|bytes: spec_fn(int) -> u8, i: int| 0 <= i < count implies #[trigger] after_all(
                after.os.effects@,
                before.os.discards,
                bytes,
            )(to + i) == #[trigger] after_all(before.os.effects@, before.os.discards, bytes)(
                from + i,
            ) by {
                law_held_bytes_are_kept(copy, after, bytes, to as int, i);
                assert(after_all(copy.os.effects@, before.os.discards, bytes)(to + i) == after_all(
                    before.os.effects@,
                    before.os.discards,
                    bytes,
                )(from + i));
            }
        }
    }
}

/// A held block that starts in the current run is one of its blocks, and that run is
/// the one its page names.
proof fn lemma_current_holder(thread: ThreadHeaps, process: Process, class: SizeClass, ptr: usize)
    requires
        thread.wf(process.heaps),
        process.wf(),
        class.wf(),
        thread.current@[class.index as int] is Some,
        thread.current_ok(class.index as int, process.heaps),
    ensures
        ({
            let run = thread.current@[class.index as int]->0;
            let found = process.heaps.arena@[run.heap].inner.runs.runs@[run.run];
            &&& process.holds(ptr as int) && found.located(ptr) is Err ==> found.located(ptr)->Err_0
                == RunError::OutOfRange
            &&& found.located(ptr) is Ok ==> process.owner_at(ptr as int) == Some(
                PageOwner::Run { heap: run.heap, run: run.run },
            ) && thread.binds(run.heap)
        }),
{
    let run = thread.current@[class.index as int]->0;
    thread.lemma_bound(process.heaps, run.heap);
    assert(process.heaps.heap_wf(run.heap, process.pages@));
    let heap = process.heaps.arena@[run.heap];
    assert(heap.inner.runs.run_wf(run.run, heap.spec_index()));
    let found = heap.inner.runs.runs@[run.run];
    if found.located(ptr) is Ok {
        lemma_run_holder(heap, process.pages@, run.run, ptr as int);
    }
    if process.holds(ptr as int) && found.located(ptr) is Err && found.base <= ptr < found.base
        + found.span {
        lemma_holder(process, ptr as int);
        let range = found.spec_range();
        assert(owned(process.pages@, range, run_owner(heap.spec_index(), run.run)));
        assert(crate::memory::covers(range, ptr as int / 4096));
        assert(process.pages@.contains_key((ptr as int / 4096) as usize));
    }
}

/// A block zeroed after a step that kept memory ready was zeroed.
proof fn lemma_zeroed_after(before: Process, middle: Process, after: Process, ptr: usize, size: usize)
    requires
        zeroed(middle, after, ptr, size),
        forall|bytes: spec_fn(int) -> u8| #[trigger]
            all_zero_ready(before, after_all(before.os.effects@, before.os.discards, bytes))
                ==> all_zero_ready(
                middle,
                after_all(middle.os.effects@, middle.os.discards, bytes),
            ),
    ensures
        zeroed(before, after, ptr, size),
{
    assert forall|bytes: spec_fn(int) -> u8, addr: int|
        all_zero_ready(
            before,
            #[trigger] after_all(before.os.effects@, before.os.discards, bytes),
        ) && ptr <= addr < ptr + size implies #[trigger] after_all(
        after.os.effects@,
        after.os.discards,
        bytes,
    )(addr) == 0 by {
        assert(all_zero_ready(
            middle,
            after_all(middle.os.effects@, middle.os.discards, bytes),
        ));
    }
}

/// A miss, then an allocation.
proof fn lemma_after_miss(
    before: Process,
    missed: Process,
    after: Process,
    thread: ThreadHeaps,
    allocated: Result<Option<usize>, Abort>,
)
    requires
        states_kept(before.heaps, missed.heaps),
        same_held(before, missed),
        peers_kept(missed.heaps, after.heaps, thread.bound()),
        !(allocated matches Ok(Some(_))) ==> same_held(missed, after),
        allocated matches Ok(Some(ptr)) ==> added(missed, after, ptr),
    ensures
        peers_kept(before.heaps, after.heaps, thread.bound()),
        !(allocated matches Ok(Some(_))) ==> same_held(before, after),
        allocated matches Ok(Some(ptr)) ==> added(before, after, ptr),
{
    lemma_peers_states(before.heaps, missed.heaps, thread.bound());
    lemma_peers_trans(before.heaps, missed.heaps, after.heaps, thread.bound(), thread.bound());
    assert forall|addr: int| #[trigger] missed.holds(addr) == before.holds(addr) by {}
}

/// Heap `index`, attached to the thread, has no block for the request, even after it took
/// in what other threads freed.
pub open spec fn has_none(process: Process, thread: ThreadHeaps, index: u32, request: AllocKind) -> bool {
    match request {
        AllocKind::Run(class) => thread.extended(class, process) is None && exists|middle: Process|
            #[trigger]
            after_flush(process, middle, index) && !can_acquire(middle, index, class),
        AllocKind::Extent(spec, _) => exists|
            flushed: Heap,
            flushed_pages: Map<usize, PageOwner>,
            flushed_os: Os,
        | #[trigger]
            drained(
                process.heaps.arena@[index],
                process.pages@,
                process.os,
                flushed,
                flushed_pages,
                flushed_os,
            ) && flushed.inner.extents.allocation(spec, flushed_pages, flushed_os) is None,
    }
}

/// No heap could be attached to a thread without one, or the one that was attached has no
/// block for the request.
pub open spec fn starved(before: Process, now: ThreadHeaps, request: AllocKind) -> bool {
    match now.spec_active() {
        None => before.heaps.stack@.len() == 0 && !(before.heaps.arena.slots@.len() < u32::MAX - 1
            && before.heaps.arena.slots@.len() < crate::arena::max_slots::<Heap>()),
        Some(index) => exists|bound: Process, held: ThreadHeaps| #[trigger]
            served_from(before, bound, held, index) && has_none(bound, held, index, request),
    }
}

/// The thread's heap has no block for the request, or, for a thread without one, no heap
/// with such a block could be attached.
pub open spec fn unserved(
    before: Process,
    was: ThreadHeaps,
    now: ThreadHeaps,
    request: AllocKind,
) -> bool {
    match was.spec_active() {
        None => starved(before, now, request),
        Some(index) => has_none(before, was, index, request),
    }
}

/// A block that was not resized leaves its process alike.
proof fn lemma_alike_resized(before: Process, tried: Process, owner: PageOwner)
    requires
        before.heaps.has_owner(owner),
        tried.wf(),
        tried.pages == before.pages,
        tried.os == before.os,
        tried.heaps.stack == before.heaps.stack,
        tried.heaps.arena.slots@.len() == before.heaps.arena.slots@.len(),
        tried.heaps.only(before.heaps, owner.spec_heap()),
        tried.heaps.arena@[owner.spec_heap()].state == before.heaps.arena@[owner.spec_heap()].state,
        tried.heaps.arena@[owner.spec_heap()].slot == before.heaps.arena@[owner.spec_heap()].slot,
        resized_only(
            before.heaps.arena@[owner.spec_heap()],
            tried.heaps.arena@[owner.spec_heap()],
        ),
        owner is Run ==> tried.heaps.arena@[owner.spec_heap()]
            == before.heaps.arena@[owner.spec_heap()],
        owner matches PageOwner::Extent { heap, extent } ==> {
            let was = before.heaps.arena@[heap].inner.extents.extents@;
            tried.heaps.arena@[heap].inner.extents.extents@ == was.insert(
                extent,
                Extent { len: was[extent].len, ..was[extent] },
            )
        },
    ensures
        alike(before, tried),
{
    if let PageOwner::Extent { heap, extent } = owner {
        let was = before.heaps.arena@[heap].inner.extents.extents@;
        assert(was.contains_key(extent));
        assert(was.insert(extent, Extent { len: was[extent].len, ..was[extent] }) =~= was);
    }
}

/// What one process refuses, one that is alike refuses.
proof fn lemma_refused(
    before: Process,
    tried: Process,
    was: ThreadHeaps,
    now: ThreadHeaps,
    layout: Layout,
)
    requires
        alike(before, tried),
        refused(tried, was, now, layout),
    ensures
        refused(before, was, now, layout),
{
    let (like, request) = choose|like: Process, request: AllocKind| #[trigger]
        alike(tried, like) && #[trigger] asks(request, LayoutSpec::of(layout)) && unserved(
            like,
            was,
            now,
            request,
        );
    lemma_alike_trans(before, tried, like);
    assert(alike(before, like) && asks(request, LayoutSpec::of(layout)));
}

/// There is no block for `layout`: the request that it makes is not served.
pub open spec fn refused(
    before: Process,
    was: ThreadHeaps,
    now: ThreadHeaps,
    layout: Layout,
) -> bool {
    exists|like: Process, request: AllocKind| #[trigger]
        alike(before, like) && #[trigger] asks(request, LayoutSpec::of(layout)) && unserved(
            like,
            was,
            now,
            request,
        )
}

/// What a request that was not served left behind: the inboxes of the thread's heap are
/// taken in, and the system is asked for the mapping that would serve.
pub open spec fn wants(
    before: Process,
    after: Process,
    now: ThreadHeaps,
    request: AllocKind,
) -> bool {
    now.spec_active() matches Some(index) ==> {
        let heap = after.heaps.arena@[index];
        &&& heap.run_inbox@.len() == 0
        &&& heap.extent_inbox@.len() == 0
        &&& match request {
            AllocKind::Run(_) => wanting_map(heap, before.os, after.os),
            AllocKind::Extent(spec, _) => wanting_pages(spec, before.os, after.os),
        }
    }
}

/// What a refused request for `layout` left behind: the inboxes of the thread's heap are
/// taken in, and the system is asked for the mapping that would serve.
pub open spec fn asked_for(
    before: Process,
    after: Process,
    now: ThreadHeaps,
    layout: Layout,
) -> bool {
    let spec = LayoutSpec::of(layout);
    now.spec_active() matches Some(index) ==> {
        let heap = after.heaps.arena@[index];
        &&& heap.run_inbox@.len() == 0
        &&& heap.extent_inbox@.len() == 0
        &&& if small(spec) {
            wanting_map(heap, before.os, after.os)
        } else {
            wanting_pages(spec, before.os, after.os)
        }
    }
}

/// A block of `len` bytes is what `layout` gets: one of its class, or one of its size.
pub open spec fn sized_for(len: int, layout: Layout) -> bool {
    let spec = LayoutSpec::of(layout);
    if small(spec) {
        forall|class: SizeClass| #[trigger] class_of(spec, class) ==> len == class.size
    } else {
        len == spec.size
    }
}

/// Heap `index` has a place for what `layout` would be served from, and neither space nor a
/// mapping on offer for it.
pub open spec fn lacks_mapping(before: Process, after: Process, index: u32, layout: Layout) -> bool {
    let spec = LayoutSpec::of(layout);
    let inner = after.heaps.arena@[index].inner;
    if small(spec) {
        &&& inner.runs.part() is None
        &&& inner.runs.maps.has_room()
        &&& inner.runs.runs.has_room()
        &&& !before.os.can_map(2097152, 65536)
    } else {
        &&& ExtentHeap::mappable(spec)
        &&& inner.extents.hollow@.len() > 0 || inner.extents.extents.has_room()
        &&& !before.os.can_map(spec.spec_mapping_len(4096), 4096)
    }
}

/// A request that was refused for want of a mapping asked the system for one of exactly the
/// right shape: for a large layout the whole pages that its block and its padding take, no
/// more and no less, aligned to a page; for a small one a map of runs, by the configured
/// hints. Granted just that, in pages that nobody owns, the next try gets a block.
pub proof fn law_granting_what_was_asked_for_serves(
    before: Process,
    after: Process,
    now: ThreadHeaps,
    next: ThreadHeaps,
    index: u32,
    layout: Layout,
    mapping: Mapping,
)
    requires
        after.wf(),
        now.wf(after.heaps),
        now.spec_active() == Some(index),
        layout.wf(),
        asked_for(before, after, now, layout),
        lacks_mapping(before, after, index, layout),
        after.os.wanted matches Some(request) ==> answers(mapping, request) && unowned(
            after.pages@,
            mapping.spec_range(),
        ),
    ensures
        after.os.wanted is Some,
        after.os.grant == before.os.grant,
        ({
            let request = after.os.wanted->0;
            let spec = LayoutSpec::of(layout);
            if small(spec) {
                request.len == 2097152 && request.align == 65536 && request.hints
                    == after.heaps.config.hints
            } else {
                &&& request.align == 4096
                &&& request.len as int % 4096 == 0
                &&& spec.size + spec.align - 1 <= request.len
                &&& request.len < spec.size + spec.align - 1 + 4096
            }
        }),
        ({
            let granted = Process { os: Os { grant: Some(mapping), ..after.os }, ..after };
            !stops(granted, now, layout) && !refused(granted, now, next, layout)
        }),
{
    let spec = LayoutSpec::of(layout);
    let granted = Process { os: Os { grant: Some(mapping), ..after.os }, ..after };
    now.lemma_bound(after.heaps, index);
    assert(after.heaps.arena@.contains_key(index));
    assert(after.heaps.arena@[index].configured(after.heaps.config));
    assert(granted.wf());
    let heap = after.heaps.arena@[index];
    assert(first_error(heap.inner.extents.extents@, heap.extent_inbox@) is None);
    if small(spec) {
        assert(heap.inner.runs.can_make(granted.pages@, granted.os));
        law_room_for_a_run_serves(granted, now, next, index, layout);
    } else {
        law_mapping_length_is_tight(spec, 4096);
        if refused(granted, now, next, layout) {
            let (like, request) = choose|like: Process, request: AllocKind| #[trigger]
                alike(granted, like) && #[trigger] asks(request, spec) && unserved(
                    like,
                    now,
                    next,
                    request,
                );
            assert(granted.heaps.arena@.contains_key(index));
            assert(alike_heap(heap, like.heaps.arena@[index]));
            let (flushed, flushed_pages, flushed_os) = choose|
                flushed: Heap,
                flushed_pages: Map<usize, PageOwner>,
                flushed_os: Os,
            | #[trigger]
                drained(
                    like.heaps.arena@[index],
                    like.pages@,
                    like.os,
                    flushed,
                    flushed_pages,
                    flushed_os,
                ) && flushed.inner.extents.allocation(spec, flushed_pages, flushed_os) is None;
            let extents = flushed.inner.extents;
            if extents.is_hit(spec) {
                extents.lemma_hit_serves(spec, flushed.spec_index(), flushed_pages, flushed_os);
            } else {
                law_own_mapping_fits(mapping, spec, 4096);
                assert(unowned(flushed_pages, mapping.spec_range()));
                assert(extents.can_grow(spec.spec_mapping_len(4096), flushed_pages, flushed_os));
            }
        }
    }
}

/// A block of an Active heap that was freed remotely is admitted once: until its owner
/// takes the claim in, freeing it again is a double free, from whatever thread.
pub proof fn law_second_remote_free_is_refused(
    before: Process,
    after: Process,
    thread: ThreadHeaps,
    owner: PageOwner,
    ptr: usize,
)
    requires
        before.heaps.arena@[owner.spec_heap()].state@.mode == HeapMode::Active,
        after.heaps.arena@[owner.spec_heap()].claimed_once(
            before.heaps.arena@[owner.spec_heap()],
            owner,
            ptr,
        ),
    ensures
        after.heaps.arena@[owner.spec_heap()].state@.mode == HeapMode::Active,
        after.heaps.arena@[owner.spec_heap()].claimable(owner, ptr),
        Allocator::remote_result(thread, after, owner, ptr) == Err::<(), ThreadFreeError>(
            ThreadFreeError::Heap(HeapError::DoubleFree),
        ),
{
}

/// A request that was refused leaves every held block as it was: still held, as long as
/// before, and with the same bytes. So a block that could not be resized is not lost.
pub proof fn law_refused_request_keeps_blocks(
    before: Process,
    after: Process,
    layout: Layout,
    bytes: spec_fn(int) -> u8,
    ptr: int,
    offset: int,
)
    requires
        before.wf(),
        before.holds(ptr),
        0 <= offset < before.block_len(ptr),
        fresh_grant(before) || small(LayoutSpec::of(layout)),
        same_held(before, after),
        left_alone(before, after, layout),
    ensures
        after.holds(ptr),
        after.owner_at(ptr) == before.owner_at(ptr),
        after.block_len(ptr) == before.block_len(ptr),
        after_all(after.os.effects@, before.os.discards, bytes)(ptr + offset) == after_all(
            before.os.effects@,
            before.os.discards,
            bytes,
        )(ptr + offset),
{
    assert(after.holds(ptr) == before.holds(ptr));
    assert(block_spared(before, after, ptr)) by {
        reveal(spared);
    }
    law_held_bytes_are_kept(before, after, bytes, ptr, offset);
}

/// What a thread was given for a layout it can give back with that layout: freeing the block
/// is allowed, finds its owner, and succeeds.
pub proof fn law_given_block_can_be_given_back(
    thread: ThreadHeaps,
    process: Process,
    ptr: usize,
    layout: Layout,
)
    requires
        process.wf(),
        thread.wf(process.heaps),
        process.holds(ptr as int),
        Allocator::owned_for(thread, process, ptr, layout),
    ensures
        process.freeable(ptr as int),
        process.looked_up(ptr, LayoutSpec::of(layout)) is Some,
        Allocator::can_free(thread, process, process.owner_at(ptr as int)->0, ptr),
{
    lemma_holder(process, ptr as int);
}

/// Any thread can free any held block: one of its own heaps directly, one of another
/// thread's heap through that heap's inbox, one of an abandoned heap by taking that over.
/// Only leases that ran out or a broken claim on that heap stand in the way.
pub proof fn law_held_block_can_be_freed_by_any_thread(
    thread: ThreadHeaps,
    process: Process,
    ptr: usize,
)
    requires
        process.wf(),
        thread.wf(process.heaps),
        process.holds(ptr as int),
        process.heaps.arena@[process.owner_at(ptr as int)->0.spec_heap()].state@.leases
            < MAX_LEASES,
        !broken_inbox(process, process.owner_at(ptr as int)->0.spec_heap()),
    ensures
        process.freeable(ptr as int),
        Allocator::can_free(thread, process, process.owner_at(ptr as int)->0, ptr),
{
    lemma_holder(process, ptr as int);
    lemma_held_not_idle(process, ptr as int);
    let index = process.owner_at(ptr as int)->0.spec_heap();
    assert(process.heaps.heap_wf(index, process.pages@));
}

/// What a thread was given it can still give back after other requests of its own, as long
/// as it holds the block.
pub proof fn law_given_block_stays_ones_own(
    before: Process,
    after: Process,
    was: ThreadHeaps,
    now: ThreadHeaps,
    ptr: usize,
    layout: Layout,
)
    requires
        before.holds(ptr as int),
        after.holds(ptr as int),
        untouched(before, after) || spared(before, after),
        keeps_bound(was, now) || keeps_holders(was, now, after),
        Allocator::owned_for(was, before, ptr, layout),
    ensures
        Allocator::owned_for(now, after, ptr, layout),
{
    if untouched(before, after) {
        assert(block_untouched(before, after, ptr as int)) by {
            reveal(untouched);
        }
    } else {
        assert(block_spared(before, after, ptr as int)) by {
            reveal(spared);
        }
    }
    assert(was.owns_block(after, ptr));
}

/// A block that another thread's heap holds can be freed after a request of one's own if,
/// and only if, it could be freed before it.
proof fn lemma_can_free_kept(
    before: Process,
    after: Process,
    was: ThreadHeaps,
    now: ThreadHeaps,
    ptr: usize,
)
    requires
        before.wf(),
        before.holds(ptr as int),
        after.owner_at(ptr as int) == before.owner_at(ptr as int),
        keeps_bound(was, now),
        strangers_kept(before.heaps, after.heaps, was, now),
    ensures
        ({
            let owner = before.owner_at(ptr as int)->0;
            Allocator::can_free(now, after, owner, ptr) == Allocator::can_free(
                was,
                before,
                owner,
                ptr,
            )
        }),
{
    lemma_held_not_idle(before, ptr as int);
    let index = before.owner_at(ptr as int)->0.spec_heap();
    assert(before.heaps.arena@.contains_key(index));
}

/// A block can be freed in one process if, and only if, it can be in one that is alike.
proof fn lemma_alike_can_free(
    before: Process,
    like: Process,
    was: ThreadHeaps,
    owner: PageOwner,
    ptr: usize,
)
    requires
        alike(before, like),
        before.heaps.has_owner(owner),
    ensures
        Allocator::can_free(was, like, owner, ptr) == Allocator::can_free(was, before, owner, ptr),
{
    let index = owner.spec_heap();
    assert(before.heaps.arena@.contains_key(index));
    assert(alike_heap(before.heaps.arena@[index], like.heaps.arena@[index]));
}

/// A small block is refused only when every run of its class that the thread's heap or the
/// thread leads to is full: a run with room would have served, except one that was lost. No
/// request loses one.
pub proof fn law_refused_small_request_finds_full_runs(
    before: Process,
    was: ThreadHeaps,
    now: ThreadHeaps,
    index: u32,
    slot: u32,
    layout: Layout,
    class: SizeClass,
)
    requires
        before.wf(),
        was.wf(before.heaps),
        was.spec_active() == Some(index),
        class_of(LayoutSpec::of(layout), class),
        refused(before, was, now, layout),
        before.heaps.arena@[index].inner.runs.runs@.contains_key(slot),
        before.heaps.arena@[index].inner.runs.runs@[slot].class == class,
        before.heaps.arena@[index].inner.runs.runs@[slot].live
            < before.heaps.arena@[index].inner.runs.runs@[slot].capacity,
    ensures
        stray(before, was, index, slot),
{
    let spec = LayoutSpec::of(layout);
    let (like, request) = choose|like: Process, request: AllocKind| #[trigger]
        alike(before, like) && #[trigger] asks(request, spec) && unserved(like, was, now, request);
    was.lemma_bound(before.heaps, index);
    assert(before.heaps.arena@.contains_key(index));
    assert(alike_heap(before.heaps.arena@[index], like.heaps.arena@[index]));
    assert(small(spec)) by {
        assert(serves(class.index as int, spec));
    }
    assert(request is Run);
    lemma_one_class(spec, request->Run_0, class);
    let middle = choose|middle: Process| #[trigger]
        after_flush(like, middle, index) && !can_acquire(middle, index, class);
    let heap = before.heaps.arena@[index];
    let runs = heap.inner.runs;
    let run = runs.runs@[slot];
    let after = middle.heaps.arena@[index].inner.runs;
    assert(before.heaps.heap_wf(index, before.pages@));
    assert(runs.run_wf(slot, heap.spec_index()));
    assert(middle.heaps.arena@.contains_key(index));
    assert(middle.heaps.heap_wf(index, middle.pages@));
    if run.available != AvailableLink::Unlisted {
        assert(like.heaps.arena@[index].inner.runs.runs@.contains_key(slot));
        assert(after.runs@.contains_key(slot));
        after.lemma_listed_is_found(slot, middle.heaps.arena@[index].spec_index());
    }
    if was.running(index, slot) {
        let at = choose|at: int|
            0 <= at < crate::size_class::COUNT && #[trigger] was.current@[at] == Some(
                CurrentRun { heap: index, run: slot },
            );
        assert(was.current_ok(at, before.heaps));
    }
}

/// The usable size of a held block is its length, so at least what its layout asked for.
pub proof fn law_usable_size_is_the_block_length(process: Process, ptr: usize)
    requires
        process.wf(),
        process.holds(ptr as int),
    ensures
        Allocator::usable(process, ptr) == process.block_len(ptr as int),
{
    lemma_holder(process, ptr as int);
}

/// A request for a small block is served when the thread's heap can make a run.
pub proof fn law_room_for_a_run_serves(
    before: Process,
    was: ThreadHeaps,
    now: ThreadHeaps,
    index: u32,
    layout: Layout,
)
    requires
        before.wf(),
        was.wf(before.heaps),
        was.spec_active() == Some(index),
        small(LayoutSpec::of(layout)),
        before.heaps.arena@[index].inner.runs.can_make(before.pages@, before.os),
    ensures
        !refused(before, was, now, layout),
{
    if refused(before, was, now, layout) {
        let (like, request) = choose|like: Process, request: AllocKind| #[trigger]
            alike(before, like) && #[trigger] asks(request, LayoutSpec::of(layout)) && unserved(
                like,
                was,
                now,
                request,
            );
        was.lemma_bound(before.heaps, index);
        assert(before.heaps.arena@.contains_key(index));
        assert(request is Run);
        let class = request->Run_0;
        let middle = choose|middle: Process| #[trigger]
            after_flush(like, middle, index) && !can_acquire(middle, index, class);
        let runs = middle.heaps.arena@[index].inner.runs;
        let was_runs = before.heaps.arena@[index].inner.runs;
        assert(runs.part() == was_runs.part());
        assert(runs.can_make(middle.pages@, middle.os));
    }
}

} // verus!
