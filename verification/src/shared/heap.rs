//! The shared heap: small blocks from runs, large ones from extents, and frees that cross
//! threads.

use vstd::prelude::*;

use crate::allocation::{Allocation, ZeroStatus};
use crate::config::{AllocatorConfig, Hints, HugePage, Numa};
use crate::extent::allocator::{
    gave_back,
    other_pages_same,
    page_ok,
    published,
    slot_ok,
    ExtentAllocator,
    ExtentAllocatorError,
};
use crate::extent::slot_store::Slot;
use crate::heap::extent::{Extent, ExtentId};
use crate::heap::id::HeapId;
use crate::heap::run::config::RunPolicy;
use crate::heap::run::{lemma_stepped_aligned, RUN_SIZE};
use crate::layout::{law_mapping_length_is_tight, valid_layout, Layout, LayoutSpec};
use crate::memory::{
    answers,
    covers,
    owned,
    page_of,
    unowned,
    with_owner,
    without_owner,
    AddressRange,
    Effect,
    Mapping,
    Os,
    PageMap,
    PageOwner,
};
use crate::shared::registry::{HeapRegistry, LocalHeap, RemoteFree, REMOTE_CAPACITY};
use crate::shared::run::{BlockState, RunHeapError, RunOwner, SharedRun};
use crate::size_class::{
    class_size,
    lemma_class_bounds,
    serves,
    small,
    SizeClass,
    SizeClasses,
    COUNT,
};

verus! {

/// How many runs and how many extents there may be.
pub const DEFAULT_METADATA_CAPACITY: u32 = 65_536;

#[derive(Clone, Copy, Debug, PartialEq, Eq, Structural)]
pub enum HeapError {
    UnknownPointer,
    MissingExtent,
    InvalidRunPointer,
    InvalidExtentPointer,
    DoubleFree,
    InvalidMetadata,
}

/// What an error of a run means for the heap.
pub open spec fn run_error_of(error: RunHeapError) -> HeapError {
    match error {
        RunHeapError::InvalidPointer => HeapError::InvalidRunPointer,
        RunHeapError::DoubleFree => HeapError::DoubleFree,
        RunHeapError::InvalidMetadata => HeapError::InvalidMetadata,
    }
}

/// What an error of an extent means for the heap.
pub open spec fn extent_error_of(error: ExtentAllocatorError) -> HeapError {
    match error {
        ExtentAllocatorError::MissingExtent => HeapError::MissingExtent,
        ExtentAllocatorError::InvalidPointer => HeapError::InvalidExtentPointer,
        ExtentAllocatorError::InvalidMetadata => HeapError::InvalidMetadata,
    }
}

impl From<RunHeapError> for HeapError {
    fn from(error: RunHeapError) -> (converted: Self) {
        match error {
            RunHeapError::InvalidPointer => HeapError::InvalidRunPointer,
            RunHeapError::DoubleFree => HeapError::DoubleFree,
            RunHeapError::InvalidMetadata => HeapError::InvalidMetadata,
        }
    }
}

impl vstd::std_specs::convert::FromSpecImpl<RunHeapError> for HeapError {
    open spec fn obeys_from_spec() -> bool {
        true
    }

    open spec fn from_spec(error: RunHeapError) -> Self {
        run_error_of(error)
    }
}

impl From<ExtentAllocatorError> for HeapError {
    fn from(error: ExtentAllocatorError) -> (converted: Self) {
        match error {
            ExtentAllocatorError::MissingExtent => HeapError::MissingExtent,
            ExtentAllocatorError::InvalidPointer => HeapError::InvalidExtentPointer,
            ExtentAllocatorError::InvalidMetadata => HeapError::InvalidMetadata,
        }
    }
}

impl vstd::std_specs::convert::FromSpecImpl<ExtentAllocatorError> for HeapError {
    open spec fn obeys_from_spec() -> bool {
        true
    }

    open spec fn from_spec(error: ExtentAllocatorError) -> Self {
        extent_error_of(error)
    }
}

/// Runs, extents, pages and thread heaps behind one lock.
pub struct SharedHeap {
    pub runs: Vec<SharedRun>,
    pub run_capacity: u32,
    pub run_policy: RunPolicy,
    /// Shared runs with room, by class.
    pub available: Vec<Vec<usize>>,
    pub extents: ExtentAllocator,
    pub pages: PageMap,
    pub heaps: HeapRegistry,
    pub os: Os,
}

/// How the page map names run `index`.
pub open spec fn run_owner(index: int) -> PageOwner {
    PageOwner::Run { heap: 0, run: index as u32 }
}

/// Run `index` is sound and owns its pages.
pub open spec fn run_ok(runs: Seq<SharedRun>, pages: Map<usize, PageOwner>, index: int) -> bool {
    runs[index].wf() && owned(pages, runs[index].spec_range(), run_owner(index))
}

/// A page that is owned by a run lies in that run.
pub open spec fn run_page_ok(
    runs: Seq<SharedRun>,
    pages: Map<usize, PageOwner>,
    page: usize,
) -> bool {
    pages[page] matches PageOwner::Run { heap, run } ==> heap == 0 && run < runs.len() && covers(
        runs[run as int].spec_range(),
        page as int,
    )
}

/// Runs and pages agree.
pub open spec fn runs_ok(runs: Seq<SharedRun>, pages: Map<usize, PageOwner>) -> bool {
    &&& forall|index: int| 0 <= index < runs.len() ==> #[trigger] run_ok(runs, pages, index)
    &&& forall|page: usize| #[trigger] pages.contains_key(page) ==> run_page_ok(runs, pages, page)
}

/// Entry `k` of the list of class `class` is a shared run of that class.
pub open spec fn listed(runs: Seq<SharedRun>, class: int, run: usize) -> bool {
    run < runs.len() && runs[run as int].class.index == class && runs[run as int].owner
        == RunOwner::Shared
}

/// Lists hold shared runs of their class.
pub open spec fn lists_ok(available: Seq<Vec<usize>>, runs: Seq<SharedRun>) -> bool {
    &&& available.len() == COUNT
    &&& forall|class: int, k: int|
        0 <= class < COUNT && 0 <= k < available[class]@.len() ==> listed(
            runs,
            class,
            #[trigger] available[class]@[k],
        )
}

/// A waiting free names a block that is on its way back.
pub open spec fn message_ok(runs: Seq<SharedRun>, free: RemoteFree) -> bool {
    free.run < runs.len() && runs[free.run as int].pending(free.ptr as int)
}

/// Waiting frees name blocks on their way back, each once; thread heaps own runs that exist.
pub open spec fn waiting_ok(heaps: Seq<LocalHeap>, runs: Seq<SharedRun>) -> bool {
    &&& forall|h: int, k: int|
        0 <= h < heaps.len() && 0 <= k < heaps[h].queue@.len() ==> message_ok(
            runs,
            #[trigger] heaps[h].queue@[k],
        )
    &&& forall|h: int, k: int, g: int, j: int|
        0 <= h < heaps.len() && 0 <= k < heaps[h].queue@.len() && 0 <= g < heaps.len() && 0 <= j
            < heaps[g].queue@.len() && (h != g || k != j) ==> #[trigger] heaps[h].queue@[k]
            != #[trigger] heaps[g].queue@[j]
    &&& forall|h: int, k: int|
        0 <= h < heaps.len() && 0 <= k < heaps[h].runs@.len() ==> #[trigger] heaps[h].runs@[k]
            < runs.len()
}

/// Same blocks and owners in every run.
pub open spec fn shapes_same(before: Seq<SharedRun>, after: Seq<SharedRun>) -> bool {
    before.len() == after.len() && forall|r: int|
        0 <= r < before.len() ==> (#[trigger] after[r]).same_shape(before[r])
}

/// Blocks that are live throughout keep their owner and their length.
#[verifier::opaque]
pub open spec fn blocks_kept(before: SharedHeap, after: SharedHeap) -> bool {
    forall|addr: int|
        #![trigger before.live(addr)]
        #![trigger after.live(addr)]
        before.live(addr) && after.live(addr) ==> after.owner_at(addr) == before.owner_at(addr)
            && after.block_len(addr) == before.block_len(addr)
}

/// The bytes were copied, and at most a mapping or its pages were given up after that.
pub open spec fn copied_over(
    before: Seq<Effect>,
    after: Seq<Effect>,
    from: usize,
    to: usize,
    len: usize,
) -> bool {
    let copied = before.push(Effect::Copy { from, to, len });
    ||| after == copied
    ||| after.len() == copied.len() + 1 && after.drop_last() == copied && (after.last() is Unmap
        || after.last() is Discard)
}

/// Where pages, runs and extents are kept, blocks are.
proof fn lemma_blocks_kept(before: SharedHeap, after: SharedHeap)
    requires
        before.wf(),
        forall|page: usize| #[trigger]
            before.pages@.contains_key(page) ==> after.pages@.contains_key(page)
                && after.pages@[page] == before.pages@[page],
        forall|r: int|
            0 <= r < before.runs@.len() ==> (#[trigger] after.runs@[r]).class
                == before.runs@[r].class,
        forall|index: int| #[trigger]
            before.extents.extents.slots.holds(index) ==> after.extents.extents.slots.value(index)
                == before.extents.extents.slots.value(index),
    ensures
        blocks_kept(before, after),
{
    reveal(blocks_kept);
    assert forall|addr: int|
        #![trigger before.live(addr)]
        #![trigger after.live(addr)]
        before.live(addr) && after.live(addr) implies after.owner_at(addr) == before.owner_at(addr)
        && after.block_len(addr) == before.block_len(addr) by {
        let page = page_of(addr) as usize;
        assert(before.pages@.contains_key(page));
        assert(run_page_ok(before.runs@, before.pages@, page));
        assert(page_ok(before.extents.extents.slots.slots@, before.pages@, page));
        if let Some(PageOwner::Extent { heap, extent }) = before.owner_at(addr) {
            assert(before.extents.extents.slots.holds(extent as int));
        }
    }
}

/// What is kept twice is kept.
proof fn lemma_blocks_kept_trans(before: SharedHeap, middle: SharedHeap, after: SharedHeap)
    requires
        blocks_kept(before, middle),
        blocks_kept(middle, after),
        forall|addr: int| #[trigger]
            before.live(addr) && after.live(addr) ==> middle.live(addr),
    ensures
        blocks_kept(before, after),
{
    reveal(blocks_kept);
    assert forall|addr: int|
        #![trigger before.live(addr)]
        #![trigger after.live(addr)]
        before.live(addr) && after.live(addr) implies after.owner_at(addr) == before.owner_at(addr)
        && after.block_len(addr) == before.block_len(addr) by {
        assert(middle.live(addr));
    }
}

impl SharedHeap {
    pub open spec fn wf(self) -> bool {
        &&& self.runs@.len() <= self.run_capacity < u32::MAX
        &&& runs_ok(self.runs@, self.pages@)
        &&& lists_ok(self.available@, self.runs@)
        &&& self.extents.wf(self.pages@)
        &&& self.extents.extents.slots.capacity < u32::MAX
        &&& self.heaps.wf()
        &&& waiting_ok(self.heaps.heaps@, self.runs@)
        &&& self.os.wf()
    }

    /// Who owns the page of `addr`.
    pub open spec fn owner_at(self, addr: int) -> Option<PageOwner> {
        let page = page_of(addr);
        if 0 <= addr <= usize::MAX && self.pages@.contains_key(page as usize) {
            Some(self.pages@[page as usize])
        } else {
            None
        }
    }

    /// A block that the caller holds starts at `addr`.
    pub open spec fn live(self, addr: int) -> bool {
        match self.owner_at(addr) {
            Some(PageOwner::Run { run, .. }) => self.runs@[run as int].live(addr),
            Some(PageOwner::Extent { extent, .. }) => self.extents.extents.slots.value(
                extent as int,
            ).base == addr,
            None => false,
        }
    }

    /// Bytes of the block at `addr`.
    pub open spec fn block_len(self, addr: int) -> int {
        match self.owner_at(addr) {
            Some(PageOwner::Run { run, .. }) => self.runs@[run as int].class.size as int,
            Some(PageOwner::Extent { extent, .. }) => self.extents.extents.slots.value(
                extent as int,
            ).len as int,
            None => 0,
        }
    }

    /// The block at `addr` lies where `spec` is served from: in a shared run of its class, or
    /// in an extent of its own.
    pub open spec fn placed_for(self, spec: LayoutSpec, addr: int) -> bool {
        if small(spec) {
            self.owner_at(addr) matches Some(PageOwner::Run { run, .. }) && {
                let there = self.runs@[run as int];
                &&& run < self.runs@.len()
                &&& there.owner == RunOwner::Shared
                &&& there.class.index == class_of(spec)
                &&& there.block_of(addr) is Some
            }
        } else {
            self.owner_at(addr) matches Some(PageOwner::Extent { .. })
        }
    }

    /// Every page that gained an owner lies in the mapping at hand.
    pub open spec fn gained(self, before: SharedHeap, offered: Option<Mapping>) -> bool {
        forall|page: usize| #[trigger]
            self.pages@.contains_key(page) && !before.pages@.contains_key(page) ==> (
            offered matches Some(mapping) && covers(mapping.spec_range(), page as int))
    }

    /// The mapping that a request for `spec` has at hand.
    pub open spec fn offered(self, spec: LayoutSpec) -> Option<Mapping> {
        if small(spec) {
            self.os.grant
        } else {
            self.extents.mapping_for(spec, self.os)
        }
    }

    /// The owned pages once the block at `ptr` is freed: those of its extent are gone.
    pub open spec fn pages_without(self, ptr: usize, freed: bool) -> Map<usize, PageOwner> {
        match self.owner_at(ptr as int) {
            Some(PageOwner::Extent { extent, .. }) if freed && ptr != 0 => without_owner(
                self.pages@,
                self.extents.extents.slots.value(extent as int).mapping->0.spec_range(),
            ),
            _ => self.pages@,
        }
    }

    /// Freeing the block at `ptr` adds no effect, or gives the mapping of its extent up.
    pub open spec fn gave_up(self, ptr: usize, before: Seq<Effect>, after: Seq<Effect>) -> bool {
        match self.owner_at(ptr as int) {
            Some(PageOwner::Extent { extent, .. }) => {
                let range = self.extents.extents.slots.value(extent as int).mapping->0.spec_range();
                ||| after == before
                ||| after == before.push(Effect::Unmap(range))
                ||| after == before.push(Effect::Discard(range))
            },
            Some(PageOwner::Run { run, .. }) => {
                ||| after == before
                ||| after == before.push(Effect::Discard(self.runs@[run as int].spec_range()))
            },
            None => after == before,
        }
    }

    /// What freeing the block at `ptr` asks of the system: the mapping of a large block is
    /// kept or unmapped, and where the policy says so the pages of a kept mapping, or of a
    /// shared run whose last block came back, are dropped.
    pub open spec fn leaving(self, ptr: usize) -> Seq<Effect> {
        match self.owner_at(ptr as int) {
            Some(PageOwner::Extent { extent, .. }) => self.extents.mapping_cache.leaving(
                self.extents.extents.slots.value(extent as int).mapping->0,
            ),
            Some(PageOwner::Run { run, .. }) => {
                let run = self.runs@[run as int];
                if self.run_policy == RunPolicy::Discard && run.owner == RunOwner::Shared
                    && run.free@.len() + 1 == run.bump {
                    seq![Effect::Discard(run.spec_range())]
                } else {
                    Seq::empty()
                }
            },
            None => Seq::empty(),
        }
    }

    /// The block at `ptr` was copied to a new one that was then given up; the other blocks
    /// are still live.
    pub open spec fn undone(self, before: SharedHeap, ptr: usize, len: usize) -> bool {
        &&& forall|addr: int| addr != ptr && #[trigger] before.live(addr) ==> self.live(addr)
        &&& exists|new: usize|
            !before.live(new as int) && #[trigger] copied_over(
                before.os.effects@,
                self.os.effects@,
                ptr,
                new,
                len,
            )
    }

    /// Everything is as in `before` but the length of the block at `ptr`.
    pub open spec fn resized_only(self, before: SharedHeap, ptr: usize) -> bool {
        &&& self.pages == before.pages
        &&& self.runs == before.runs
        &&& self.os == before.os
        &&& self.heaps == before.heaps
        &&& forall|addr: int| #[trigger]
            before.live(addr) && addr != ptr ==> self.block_len(addr) == before.block_len(addr)
    }

    /// What the heap was made with is as in `before`.
    pub open spec fn same_settings(self, before: SharedHeap) -> bool {
        &&& self.run_capacity == before.run_capacity
        &&& self.run_policy == before.run_policy
        &&& self.extents.mapping_cache.config == before.extents.mapping_cache.config
    }

    /// Pages, extents and the system are as in `before`.
    pub open spec fn runs_only(self, before: SharedHeap) -> bool {
        &&& self.pages == before.pages
        &&& self.extents == before.extents
        &&& self.os == before.os
        &&& self.same_settings(before)
    }

    /// Nothing was allocated yet: no run, no extent, no owned page, nothing kept for reuse.
    pub open spec fn is_new(self, capacity: u32, config: AllocatorConfig, discards: bool) -> bool {
        &&& self.run_capacity == capacity
        &&& self.run_policy == config.run.policy
        &&& self.extents.mapping_cache.config == config.extent
        &&& self.runs@.len() == 0
        &&& forall|class: int|
            0 <= class < COUNT ==> (#[trigger] self.available@[class])@.len() == 0
        &&& self.extents.extents.slots.capacity == capacity
        &&& self.extents.extents.slots.slots@.len() == 0
        &&& self.extents.mapping_cache.retained_bytes == 0
        &&& forall|len: usize| #[trigger] self.extents.mapping_cache.exact(len) is None
        &&& self.pages@ == Map::<usize, PageOwner>::empty()
        &&& self.heaps.heaps@.len() == 0
        &&& self.os.effects@.len() == 0
        &&& self.os.grant is None
        &&& self.os.discards == discards
    }

    /// A heap without blocks.
    pub fn with_capacity(capacity: u32, config: AllocatorConfig, discards: bool) -> (heap: Self)
        requires
            capacity < u32::MAX,
        ensures
            heap.wf(),
            heap.is_new(capacity, config, discards),
            forall|addr: int| !#[trigger] heap.live(addr),
    {
        let mut available: Vec<Vec<usize>> = Vec::new();
        let mut class: usize = 0;
        while class < COUNT
            invariant
                class <= COUNT,
                available@.len() == class,
                forall|c: int| 0 <= c < class ==> (#[trigger] available@[c])@.len() == 0,
            decreases COUNT - class,
        {
            available.push(Vec::new());
            class = class + 1;
        }
        Self {
            runs: Vec::new(),
            run_capacity: capacity,
            run_policy: config.run().policy(),
            available,
            extents: ExtentAllocator::with_config(capacity, config.extent()),
            pages: PageMap::new(),
            heaps: HeapRegistry::new(),
            os: Os::new(discards),
        }
    }

    /// A heap without blocks, of the usual capacity.
    pub fn with_config(config: AllocatorConfig, discards: bool) -> (heap: Self)
        ensures
            heap.wf(),
            heap.is_new(DEFAULT_METADATA_CAPACITY, config, discards),
            forall|addr: int| !#[trigger] heap.live(addr),
    {
        Self::with_capacity(DEFAULT_METADATA_CAPACITY, config, discards)
    }

    /// Hand a heap to a thread.
    pub fn acquire_heap_id(&mut self) -> (id: Option<HeapId>)
        requires
            old(self).wf(),
        ensures
            final(self).wf(),
            final(self).runs_only(*old(self)),
            final(self).runs == old(self).runs,
            final(self).available == old(self).available,
            id is Some == (old(self).heaps.idle_from(0) < crate::shared::registry::MAX_HEAPS),
            id matches Some(id) ==> id.wf() && final(self).heaps.active(id)
                && !old(self).heaps.active(id) && final(self).heaps.queue(id).len() == 0,
            id is None ==> final(self).heaps == old(self).heaps,
            id matches Some(id) ==> id.spec_index() == old(self).heaps.idle_from(0) && forall|i: int|
                #![trigger final(self).heaps.heaps@[i]]
                0 <= i < old(self).heaps.heaps@.len() && i != id.spec_index()
                    ==> final(self).heaps.heaps@[i] == old(self).heaps.heaps@[i],
            forall|addr: int| #[trigger] final(self).live(addr) == old(self).live(addr),
    {
        let ghost before = self.heaps.heaps@;
        let id = self.heaps.acquire();
        proof {
            if let Some(id) = id {
                let after = self.heaps.heaps@;
                let at = id.spec_index();
                assert(after[at].queue@.len() == 0);
                assert(after[at].runs@.len() == 0);
                assert forall|h: int| 0 <= h < after.len() && h != at implies #[trigger] after[h]
                    == before[h] by {}
                assert forall|h: int, k: int|
                    0 <= h < after.len() && 0 <= k < after[h].queue@.len() implies message_ok(
                    self.runs@,
                    #[trigger] after[h].queue@[k],
                ) by {
                    assert(h != at);
                    assert(message_ok(self.runs@, before[h].queue@[k]));
                }
                assert forall|h: int, k: int, g: int, j: int|
                    0 <= h < after.len() && 0 <= k < after[h].queue@.len() && 0 <= g < after.len()
                        && 0 <= j < after[g].queue@.len() && (h != g || k
                        != j) implies #[trigger] after[h].queue@[k]
                    != #[trigger] after[g].queue@[j] by {
                    assert(before[h].queue@[k] != before[g].queue@[j]);
                }
                assert forall|h: int, k: int|
                    0 <= h < after.len() && 0 <= k
                        < after[h].runs@.len() implies #[trigger] after[h].runs@[k]
                    < self.runs@.len() by {
                    assert(h != at);
                    assert(before[h].runs@[k] < self.runs@.len());
                }
            }
        }
        id
    }
}

/// The page of a block of run `r` is owned by run `r`.
proof fn lemma_block_page(heap: SharedHeap, r: int, i: int)
    requires
        runs_ok(heap.runs@, heap.pages@),
        0 <= r < heap.runs@.len() <= u32::MAX,
        0 <= i < heap.runs@[r].capacity(),
    ensures
        heap.owner_at(heap.runs@[r].block_at(i)) == Some(run_owner(r)),
{
    let run = heap.runs@[r];
    assert(run_ok(heap.runs@, heap.pages@, r));
    run.lemma_block(i);
    let addr = run.block_at(i);
    lemma_class_bounds(run.class.index as int);
    let page = page_of(addr) as usize;
    assert(covers(run.spec_range(), page as int)) by {
        vstd::arithmetic::div_mod::lemma_div_is_ordered(run.base as int, addr, 4096);
        vstd::arithmetic::div_mod::lemma_div_is_ordered(addr, run.base + RUN_SIZE - 1, 4096);
    }
    assert(heap.pages@.contains_key(page) && heap.pages@[page] == run_owner(r));
}

/// Changing one block of one run changes what is live at that block and nowhere else.
proof fn lemma_one_block(before: SharedHeap, after: SharedHeap, r: int, i: int, state: BlockState)
    requires
        runs_ok(before.runs@, before.pages@),
        before.runs@.len() <= u32::MAX,
        0 <= r < before.runs@.len(),
        0 <= i < before.runs@[r].capacity(),
        after.runs@ == before.runs@.update(r, after.runs@[r]),
        after.runs@[r].one_block(before.runs@[r], i, state),
        after.runs@[r].wf(),
        after.pages@ == before.pages@,
        after.extents == before.extents,
    ensures
        runs_ok(after.runs@, after.pages@),
        shapes_same(before.runs@, after.runs@),
        forall|addr: int| #[trigger]
            after.live(addr) == if addr == before.runs@[r].block_at(i) {
                state == BlockState::Live
            } else {
                before.live(addr)
            },
{
    assert forall|index: int| 0 <= index < after.runs@.len() implies #[trigger] run_ok(
        after.runs@,
        after.pages@,
        index,
    ) by {
        assert(run_ok(before.runs@, before.pages@, index));
    }
    assert forall|page: usize| #[trigger] after.pages@.contains_key(page) implies run_page_ok(
        after.runs@,
        after.pages@,
        page,
    ) by {
        assert(run_page_ok(before.runs@, before.pages@, page));
    }
    let run = before.runs@[r];
    assert(run_ok(before.runs@, before.pages@, r));
    lemma_block_page(before, r, i);
    run.lemma_block(i);
    assert forall|addr: int| #[trigger] after.live(addr) == if addr == run.block_at(i) {
        state == BlockState::Live
    } else {
        before.live(addr)
    } by {
        assert(after.owner_at(addr) == before.owner_at(addr));
        if let Some(PageOwner::Run { heap, run: other }) = before.owner_at(addr) {
            let page = page_of(addr) as usize;
            assert(run_page_ok(before.runs@, before.pages@, page));
            if other == r {
                if run.block_of(addr) == Some(i) {
                    run.lemma_found(addr);
                }
                if run.block_of(addr) is Some {
                    run.lemma_found(addr);
                }
            }
        }
    }
}

/// Waiting frees stay sound when a block that none of them names changes.
proof fn lemma_waiting_kept(
    heaps: Seq<LocalHeap>,
    before: Seq<SharedRun>,
    after: Seq<SharedRun>,
    r: int,
    i: int,
    state: BlockState,
)
    requires
        waiting_ok(heaps, before),
        0 <= r < before.len(),
        before[r].wf(),
        0 <= i < before[r].capacity(),
        after == before.update(r, after[r]),
        after[r].one_block(before[r], i, state),
        forall|h: int, k: int|
            0 <= h < heaps.len() && 0 <= k < heaps[h].queue@.len() ==> !((
            #[trigger] heaps[h].queue@[k]).run == r && before[r].block_of(
                heaps[h].queue@[k].ptr as int,
            ) == Some(i)),
    ensures
        waiting_ok(heaps, after),
{
    assert forall|h: int, k: int|
        0 <= h < heaps.len() && 0 <= k < heaps[h].queue@.len() implies message_ok(
        after,
        #[trigger] heaps[h].queue@[k],
    ) by {
        let free = heaps[h].queue@[k];
        assert(message_ok(before, free));
        if free.run == r {
            before[r].lemma_found(free.ptr as int);
        }
    }
}

/// Lists stay sound when no run changes class or owner.
proof fn lemma_lists_kept(
    available: Seq<Vec<usize>>,
    before: Seq<SharedRun>,
    after: Seq<SharedRun>,
)
    requires
        lists_ok(available, before),
        shapes_same(before, after),
    ensures
        lists_ok(available, after),
{
    assert forall|class: int, k: int|
        0 <= class < COUNT && 0 <= k < available[class]@.len() implies listed(
        after,
        class,
        #[trigger] available[class]@[k],
    ) by {
        assert(listed(before, class, available[class]@[k]));
        let run = available[class]@[k];
        assert(after[run as int].same_shape(before[run as int]));
    }
}

/// A run at the end of its list keeps the lists sound.
proof fn lemma_list_pushed(
    before: Seq<Vec<usize>>,
    after: Seq<Vec<usize>>,
    runs: Seq<SharedRun>,
    class: int,
    run: usize,
)
    requires
        lists_ok(before, runs),
        0 <= class < COUNT,
        listed(runs, class, run),
        after.len() == before.len(),
        forall|c: int| 0 <= c < COUNT && c != class ==> #[trigger] after[c] == before[c],
        after[class]@ == before[class]@.push(run),
    ensures
        lists_ok(after, runs),
{
    assert forall|c: int, k: int| 0 <= c < COUNT && 0 <= k < after[c]@.len() implies listed(
        runs,
        c,
        #[trigger] after[c]@[k],
    ) by {
        if c != class {
            assert(after[c] == before[c]);
            assert(listed(runs, c, before[c]@[k]));
        } else if k < before[class]@.len() {
            assert(listed(runs, c, before[c]@[k]));
        }
    }
}

/// Runs stay published when only pages of extents change.
proof fn lemma_runs_kept(
    runs: Seq<SharedRun>,
    before: Map<usize, PageOwner>,
    after: Map<usize, PageOwner>,
)
    requires
        runs_ok(runs, before),
        other_pages_same(before, after),
    ensures
        runs_ok(runs, after),
{
    assert forall|index: int| 0 <= index < runs.len() implies #[trigger] run_ok(
        runs,
        after,
        index,
    ) by {
        assert(run_ok(runs, before, index));
        assert forall|page: usize|
            #![trigger after.contains_key(page)]
            #![trigger after[page]]
            covers(runs[index].spec_range(), page as int) implies after.contains_key(page)
            && after[page] == run_owner(index) by {
            assert(before.contains_key(page) && before[page] == run_owner(index));
        }
    }
    assert forall|page: usize| #[trigger] after.contains_key(page) implies run_page_ok(
        runs,
        after,
        page,
    ) by {
        if !(after[page] is Extent) {
            assert(before.contains_key(page));
            assert(run_page_ok(runs, before, page));
        }
    }
}

/// Extents stay published when a new run takes pages without owner.
proof fn lemma_extents_kept(
    slots: Seq<Slot<Extent>>,
    pages: Map<usize, PageOwner>,
    range: AddressRange,
    index: int,
)
    requires
        published(slots, pages),
        unowned(pages, range),
    ensures
        published(slots, with_owner(pages, range, run_owner(index))),
{
    let new = with_owner(pages, range, run_owner(index));
    assert forall|i: int| 0 <= i < slots.len() implies #[trigger] slot_ok(slots, new, i) by {
        assert(slot_ok(slots, pages, i));
        if let Slot::Held(extent) = slots[i] {
            let there = extent.mapping->0.spec_range();
            assert forall|page: usize|
                #![trigger new.contains_key(page)]
                #![trigger new[page]]
                covers(there, page as int) implies new.contains_key(page) && new[page]
                == crate::extent::allocator::owner_of(i) by {
                assert(pages.contains_key(page));
                if covers(range, page as int) {
                    assert(!pages.contains_key(page));
                }
            }
        }
    }
    assert forall|page: usize| #[trigger] new.contains_key(page) implies page_ok(
        slots,
        new,
        page,
    ) by {
        if !covers(range, page as int) {
            assert(pages.contains_key(page));
            assert(page_ok(slots, pages, page));
        }
    }
}

impl SharedHeap {
    /// Pages with an owner keep it, and runs keep blocks and owner.
    pub open spec fn grown(self, before: SharedHeap) -> bool {
        &&& forall|page: usize| #[trigger]
            before.pages@.contains_key(page) ==> self.pages@.contains_key(page)
                && self.pages@[page] == before.pages@[page]
        &&& before.runs@.len() <= self.runs@.len()
        &&& forall|r: int|
            0 <= r < before.runs@.len() ==> (#[trigger] self.runs@[r]).same_shape(before.runs@[r])
    }

    /// There is room for another run, and the system has a mapping for it on pages without
    /// owner.
    pub open spec fn can_new_run(self) -> bool {
        &&& self.runs@.len() < self.run_capacity
        &&& self.os.can_map(RUN_SIZE as int, RUN_SIZE as int)
        &&& unowned(self.pages@, self.os.grant->0.spec_range())
    }

    /// A listed run of a class has room.
    pub open spec fn has_room(self, class: int) -> bool {
        exists|k: int|
            0 <= k < self.available@[class]@.len() && !(
            #[trigger] self.runs@[self.available@[class]@[k] as int]).full()
    }

    /// A layout is served.
    pub open spec fn can_serve(self, spec: LayoutSpec) -> bool {
        if small(spec) {
            let class = class_of(spec);
            self.has_room(class) || self.can_new_run()
        } else {
            self.extents.can_serve(spec, self.pages@, self.os)
        }
    }

    /// Making a run asked the system for its pages where the mapping on offer is another.
    pub open spec fn asked_run(self, before: SharedHeap) -> bool {
        before.runs@.len() < before.run_capacity && !before.os.can_map(65536, 65536)
            ==> self.os.grant == before.os.grant && (self.os.wanted matches Some(request)
            && request.len == 65536 && request.align == 65536 && request.hints.hugepage
            == HugePage::Off && request.hints.numa == Numa::Off)
    }

    /// A layout that was not served asked the system for what would have served it.
    pub open spec fn asked(self, before: SharedHeap, spec: LayoutSpec) -> bool {
        if small(spec) {
            self.asked_run(before)
        } else {
            before.extents.asked(spec, before.os, self.os)
        }
    }

    /// Every run that was on a list is on it still.
    #[verifier::opaque]
    pub open spec fn lists_grow(self, before: SharedHeap) -> bool {
        forall|class: int, run: usize|
            0 <= class < COUNT && #[trigger] before.available@[class]@.contains(run)
                ==> self.available@[class]@.contains(run)
    }

    /// Every run that was on a list, and is not full, is on it still.
    #[verifier::opaque]
    pub open spec fn lists_kept(self, before: SharedHeap) -> bool {
        forall|class: int, run: usize|
            0 <= class < COUNT && #[trigger] before.available@[class]@.contains(run)
                && !self.runs@[run as int].full() ==> self.available@[class]@.contains(run)
    }

    /// Run `run` is on the list of its class.
    pub open spec fn is_listed(self, run: usize) -> bool {
        self.available@[self.runs@[run as int].class.index as int]@.contains(run)
    }

    /// Make a run of a class for an owner.
    fn new_run(&mut self, class: SizeClass, owner: RunOwner) -> (run: Option<usize>)
        requires
            old(self).wf(),
            class.wf(),
        ensures
            final(self).wf(),
            final(self).same_settings(*old(self)),
            final(self).available == old(self).available,
            final(self).heaps == old(self).heaps,
            final(self).extents == old(self).extents,
            final(self).grown(*old(self)),
            run is Some == old(self).can_new_run(),
            final(self).gained(*old(self), old(self).os.grant),
            forall|addr: int| #[trigger] final(self).live(addr) == old(self).live(addr),
            match run {
                Some(run) => run == old(self).runs@.len() && final(self).runs@
                    == old(self).runs@.push(final(self).runs@[run as int])
                    && final(self).runs@[run as int].class == class
                    && final(self).runs@[run as int].owner == owner
                    && !final(self).runs@[run as int].full() && final(self).os.effects
                    == old(self).os.effects && final(self).runs@[run as int].bump == 0
                    && final(self).runs@[run as int].free@.len() == 0,
                None => final(self).asked_run(*old(self)) && final(self).runs == old(self).runs && final(self).pages@ == old(self).pages@
                    && gave_back(old(self).os.grant, old(self).os.effects@, final(self).os.effects@),
            },
    {
        let ghost before = *self;
        let index: usize = self.runs.len();
        if index as u64 >= self.run_capacity as u64 {
            return None;
        }
        let mapping = match self.os.map_aligned_payload(RUN_SIZE, RUN_SIZE, Hints::new()) {
            Some(mapping) => mapping,
            None => return None,
        };
        let ghost range = mapping.spec_range();
        match self.pages.publish(mapping.range(), PageOwner::Run { heap: 0, run: index as u32 }) {
            Ok(()) => {
                let base: usize = mapping.base;
                let run = SharedRun::new(base, class, owner);
                self.runs.push(run);
                proof {
                    lemma_extents_kept(
                        before.extents.extents.slots.slots@,
                        before.pages@,
                        range,
                        index as int,
                    );
                    lemma_run_added(before, *self, run);
                }
                Some(index)
            },
            Err(_) => {
                self.os.unmap(mapping);
                None
            },
        }
    }

    /// The listed run of a class that has room, after full ones are dropped from the list.
    fn take_available(&mut self, class: usize) -> (run: Option<usize>)
        requires
            old(self).wf(),
            class < COUNT,
        ensures
            final(self).wf(),
            final(self).runs_only(*old(self)),
            final(self).runs == old(self).runs,
            final(self).heaps == old(self).heaps,
            run is Some == old(self).has_room(class as int),
            final(self).lists_kept(*old(self)),
            run matches Some(run) ==> final(self).available@[class as int]@.contains(run),
            run matches Some(run) ==> listed(final(self).runs@, class as int, run)
                && !final(self).runs@[run as int].full(),
            forall|addr: int| #[trigger] final(self).live(addr) == old(self).live(addr),
    {
        let ghost runs = self.runs@;
        let ghost list = self.available@[class as int]@;
        loop
            invariant
                class < COUNT,
                self.wf(),
                self.runs_only(*old(self)),
                self.runs == old(self).runs,
                self.heaps == old(self).heaps,
                runs == self.runs@,
                list == old(self).available@[class as int]@,
                self.available@[class as int]@.len() <= list.len(),
                forall|k: int|
                    0 <= k < self.available@[class as int]@.len()
                        ==> self.available@[class as int]@[k] == list[k],
                forall|k: int|
                    self.available@[class as int]@.len() <= k < list.len() ==> (
                    #[trigger] runs[list[k] as int]).full(),
                self.available@.len() == COUNT,
                old(self).available@.len() == COUNT,
                forall|c: int|
                    0 <= c < COUNT && c != class ==> #[trigger] self.available@[c]
                        == old(self).available@[c],
                forall|addr: int| #[trigger] self.live(addr) == old(self).live(addr),
            decreases self.available@[class as int]@.len(),
        {
            let count: usize = self.available[class].len();
            if count == 0 {
                proof {
                    assert forall|k: int| 0 <= k < list.len() implies (
                    #[trigger] runs[list[k] as int]).full() by {}
                }
                proof {
                    lemma_dropped_full(*old(self), *self, class as int);
                }
                return None;
            }
            let run: usize = self.available[class][count - 1];
            proof {
                assert(listed(self.runs@, class as int, self.available@[class as int]@[count - 1]));
                assert(run_ok(self.runs@, self.pages@, run as int));
            }
            if !self.runs[run].is_full() {
                proof {
                    assert(list[count - 1] == run);
                    assert(!runs[list[count - 1] as int].full());
                    assert(self.available@[class as int]@[count - 1] == run);
                    lemma_dropped_full(*old(self), *self, class as int);
                }
                return Some(run);
            }
            let ghost before = self.available@;
            let _dropped = self.available[class].pop();
            proof {
                assert forall|c: int, k: int|
                    0 <= c < COUNT && 0 <= k < self.available@[c]@.len() implies listed(
                    self.runs@,
                    c,
                    #[trigger] self.available@[c]@[k],
                ) by {
                    assert(self.available@[c]@[k] == before[c]@[k]);
                    assert(listed(self.runs@, c, before[c]@[k]));
                }
            }
        }
    }

    /// Hand out a block of a run.
    fn take_block(&mut self, run: usize) -> (ptr: Option<usize>)
        requires
            old(self).wf(),
            run < old(self).runs@.len(),
        ensures
            final(self).wf(),
            final(self).runs_only(*old(self)),
            final(self).heaps == old(self).heaps,
            final(self).available == old(self).available,
            shapes_same(old(self).runs@, final(self).runs@),
            final(self).runs@ == old(self).runs@.update(run as int, final(self).runs@[run as int]),
            ptr is Some == !old(self).runs@[run as int].full(),
            match ptr {
                Some(ptr) => ptr > 0 && ptr == old(self).runs@[run as int].block_at(
                    old(self).runs@[run as int].next(),
                ) && !old(self).live(ptr as int) && final(self).owner_at(ptr as int) == Some(
                    run_owner(run as int),
                ) && 0 <= old(self).runs@[run as int].next() && final(self).runs@[run as int].live(
                    ptr as int,
                ) && forall|addr: int| #[trigger]
                    final(self).live(addr) == (addr == ptr || old(self).live(addr)),
                None => final(self).runs@ == old(self).runs@,
            },
    {
        let ghost before = *self;
        assert(run_ok(self.runs@, self.pages@, run as int));
        let ptr = self.runs[run].allocate();
        proof {
            assert(self.runs@ =~= before.runs@.update(run as int, self.runs@[run as int]));
            if let Some(ptr) = ptr {
                let i = before.runs@[run as int].next();
                lemma_one_block(before, *self, run as int, i, BlockState::Live);
                lemma_block_page(before, run as int, i);
                before.runs@[run as int].lemma_block(i);
                lemma_lists_kept(self.available@, before.runs@, self.runs@);
                assert forall|h: int, k: int|
                    0 <= h < self.heaps.heaps@.len() && 0 <= k
                        < self.heaps.heaps@[h].queue@.len() implies !((
                #[trigger] self.heaps.heaps@[h].queue@[k]).run == run
                    && before.runs@[run as int].block_of(self.heaps.heaps@[h].queue@[k].ptr as int)
                    == Some(i)) by {
                    assert(message_ok(before.runs@, self.heaps.heaps@[h].queue@[k]));
                }
                lemma_waiting_kept(
                    self.heaps.heaps@,
                    before.runs@,
                    self.runs@,
                    run as int,
                    i,
                    BlockState::Live,
                );
            } else {
                assert(self.runs@ =~= before.runs@);
            }
        }
        ptr
    }

    /// Put a shared run on the list of its class.
    fn push_shared_available(&mut self, run: usize)
        requires
            old(self).wf(),
            run < old(self).runs@.len(),
            old(self).runs@[run as int].owner == RunOwner::Shared,
        ensures
            final(self).wf(),
            final(self).runs_only(*old(self)),
            final(self).runs == old(self).runs,
            final(self).heaps == old(self).heaps,
            final(self).lists_grow(*old(self)),
            final(self).is_listed(run),
            forall|addr: int| #[trigger] final(self).live(addr) == old(self).live(addr),
    {
        let ghost before = self.available@;
        assert(run_ok(self.runs@, self.pages@, run as int));
        let class: usize = self.runs[run].class.index;
        self.available[class].push(run);
        proof {
            lemma_list_pushed(before, self.available@, self.runs@, class as int, run);
            let list = before[class as int]@;
            assert(self.available@[class as int]@[list.len() as int] == run);
            assert(self.lists_grow(*old(self))) by {
                reveal(SharedHeap::lists_grow);
                assert forall|c: int, r: usize|
                    0 <= c < COUNT && #[trigger] before[c]@.contains(r) implies self.available@[c]@.contains(
                r) by {
                    let k = choose|k: int| 0 <= k < before[c]@.len() && before[c]@[k] == r;
                    assert(self.available@[c]@[k] == r);
                }
            }
        }
    }

    /// Hand out a block of a class from a shared run.
    fn allocate_small(&mut self, class: SizeClass) -> (ptr: Option<usize>)
        requires
            old(self).wf(),
            class.wf(),
        ensures
            final(self).wf(),
            final(self).heaps == old(self).heaps,
            final(self).same_settings(*old(self)),
            final(self).grown(*old(self)),
            ptr is Some == (old(self).has_room(class.index as int) || old(self).can_new_run()),
            final(self).gained(*old(self), old(self).os.grant),
            final(self).lists_kept(*old(self)),
            ptr matches Some(ptr) ==> (final(self).owner_at(ptr as int) matches Some(
                PageOwner::Run { run, .. },
            ) ==> final(self).is_listed(run as usize)),
            ptr is None ==> final(self).runs == old(self).runs && final(self).asked_run(*old(self)),
            ptr matches Some(ptr) ==> (final(self).owner_at(ptr as int) matches Some(
                PageOwner::Run { run, .. },
            ) && listed(final(self).runs@, class.index as int, run as usize)
                && final(self).runs@[run as int].block_of(ptr as int) is Some),
            match ptr {
                Some(ptr) => ptr > 0 && !old(self).live(ptr as int) && final(self).live(ptr as int)
                    && final(self).block_len(ptr as int) == class.size && (exists|index: int, base:
                    int| #[trigger]
                    stepped(ptr as int, base, index, class.size as int)) && final(self).os.effects
                    == old(self).os.effects,
                None => final(self).pages@ == old(self).pages@ && gave_back(
                    old(self).os.grant,
                    old(self).os.effects@,
                    final(self).os.effects@,
                ),
            },
            final(self).extents == old(self).extents,
            forall|addr: int| #[trigger]
                final(self).live(addr) == (old(self).live(addr) || ptr == Some(addr as usize) && 0
                    <= addr <= usize::MAX),
    {
        let ghost start = *self;
        let run: usize = match self.take_available(class.index) {
            Some(run) => run,
            None => match self.new_run(class, RunOwner::Shared) {
                Some(run) => {
                    self.push_shared_available(run);
                    run
                },
                None => {
                    proof {
                        reveal(SharedHeap::lists_kept);
                    }
                    return None;
                },
            },
        };
        let ghost middle = *self;
        assert(middle.lists_kept(start)) by {
            reveal(SharedHeap::lists_kept);
            reveal(SharedHeap::lists_grow);
        }
        assert(run_ok(self.runs@, self.pages@, run as int));
        proof {
            let here = self.runs@[run as int];
            lemma_class_bounds(here.class.index as int);
        }
        let ptr = self.take_block(run);
        proof {
            let here = middle.runs@[run as int];
            let there = self.runs@[run as int];
            assert(there.same_shape(here));
            assert(self.lists_kept(start)) by {
                reveal(SharedHeap::lists_kept);
                lemma_no_fuller(start, middle, *self, run as int);
            }
            assert(here.class.index == class.index);
            assert(here.class == class);
            assert(stepped(ptr->0 as int, here.base as int, here.next(), class.size as int));
        }
        ptr
    }

    /// Allocate a block for a layout.
    pub fn allocate(&mut self, spec: LayoutSpec) -> (allocation: Option<Allocation>)
        requires
            old(self).wf(),
            spec.wf(),
        ensures
            final(self).wf(),
            final(self).heaps == old(self).heaps,
            final(self).same_settings(*old(self)),
            final(self).grown(*old(self)),
            allocation is Some == old(self).can_serve(spec),
            match allocation {
                Some(allocation) => {
                    let ptr = allocation.ptr as int;
                    &&& ptr > 0
                    &&& !old(self).live(ptr)
                    &&& final(self).live(ptr)
                    &&& ptr % spec.align as int == 0
                    &&& final(self).block_len(ptr) >= spec.size
                    &&& final(self).block_len(ptr) == block_size(spec)
                    &&& allocation.zero_status == if !small(spec)
                        && old(self).extents.mapping_cache.exact(
                        spec.spec_mapping_len(4096) as usize,
                    ) is None {
                        ZeroStatus::KnownZeroed
                    } else {
                        ZeroStatus::NeedsZeroing
                    }
                    &&& final(self).os.effects == old(self).os.effects
                    &&& final(self).placed_for(spec, ptr)
                    &&& forall|addr: int| #[trigger]
                        final(self).live(addr) == (addr == ptr || old(self).live(addr))
                },
                None => final(self).asked(*old(self), spec) && final(self).pages@ == old(self).pages@ && final(self).runs == old(self).runs
                    && gave_back(
                    old(self).offered(spec),
                    old(self).os.effects@,
                    final(self).os.effects@,
                ) && forall|addr: int| #[trigger] final(self).live(addr) == old(self).live(addr),
            },
            final(self).lists_kept(*old(self)),
            small(spec) ==> (allocation matches Some(allocation) ==> (final(self).owner_at(
                allocation.ptr as int,
            ) matches Some(PageOwner::Run { run, .. }) ==> final(self).is_listed(run as usize))),
            blocks_kept(*old(self), *final(self)),
            final(self).gained(*old(self), old(self).offered(spec)),
            !small(spec) ==> final(self).runs == old(self).runs,
            forall|index: int| #[trigger]
                old(self).extents.extents.slots.holds(index)
                    ==> final(self).extents.extents.slots.value(index)
                    == old(self).extents.extents.slots.value(index),
    {
        let ghost start = *self;
        proof {
            reveal(SharedHeap::lists_kept);
        }
        match SizeClasses::class_for(spec) {
            Some(class) => {
                proof {
                    assert(serves(class.index as int, spec));
                    assert(small(spec));
                    lemma_class_of(spec, class.index as int);
                    lemma_class_bounds(class.index as int);
                }
                let small_block = self.allocate_small(class);
                proof {
                    lemma_blocks_kept(start, *self);
                }
                match small_block {
                    Some(ptr) => {
                        proof {
                            let (index, base) = choose|index: int, base: int| #[trigger]
                                stepped(ptr as int, base, index, class.size as int);
                            lemma_stepped_aligned(
                                base,
                                index,
                                class.size as int,
                                spec.align as int,
                            );
                        }
                        Some(Allocation::new(ptr, ZeroStatus::NeedsZeroing))
                    },
                    None => None,
                }
            },
            None => {
                let ghost before = *self;
                proof {
                    assert(!small(spec));
                }
                let allocation = self.extents.allocate(spec, &mut self.pages, &mut self.os);
                proof {
                    lemma_runs_kept(self.runs@, before.pages@, self.pages@);
                    lemma_extent_allocated(before, *self, spec, allocation);
                    let slots = before.extents.extents.slots;
                    assert forall|index: int| #[trigger] slots.holds(index) implies
                        self.extents.extents.slots.value(index) == slots.value(index) by {
                        if allocation is Some {
                            let taken = slots.next()->0 as int;
                            assert(index != taken);
                            assert(self.extents.extents.slots.slots@[index] == slots.slots@[index]);
                        } else {
                            assert(self.extents.extents.slots.holds(index));
                        }
                    }
                    lemma_blocks_kept(start, *self);
                }
                allocation
            },
        }
    }
}

/// A listed run with room serves the layouts of its class. So a block that was freed to a
/// shared run, which leaves the run listed, can be given out again.
pub proof fn law_listed_run_serves_its_class(heap: SharedHeap, run: usize, spec: LayoutSpec)
    requires
        run < heap.runs@.len(),
        heap.is_listed(run),
        !heap.runs@[run as int].full(),
        small(spec),
        class_of(spec) == heap.runs@[run as int].class.index,
    ensures
        heap.can_serve(spec),
{
    let list = heap.available@[class_of(spec)]@;
    let k = choose|k: int| 0 <= k < list.len() && list[k] == run;
    assert(!heap.runs@[list[k] as int].full());
}

/// Lists that lost full runs only keep the others.
proof fn lemma_dropped_full(before: SharedHeap, after: SharedHeap, class: int)
    requires
        0 <= class < COUNT,
        after.runs == before.runs,
        forall|c: int|
            0 <= c < COUNT && c != class ==> #[trigger] after.available@[c] == before.available@[c],
        after.available@[class]@.len() <= before.available@[class]@.len(),
        forall|k: int|
            0 <= k < after.available@[class]@.len() ==> after.available@[class]@[k]
                == before.available@[class]@[k],
        forall|k: int|
            after.available@[class]@.len() <= k < before.available@[class]@.len() ==> (
            #[trigger] before.runs@[before.available@[class]@[k] as int]).full(),
    ensures
        after.lists_kept(before),
{
    reveal(SharedHeap::lists_kept);
    assert forall|c: int, run: usize|
        0 <= c < COUNT && #[trigger] before.available@[c]@.contains(run)
            && !after.runs@[run as int].full() implies after.available@[c]@.contains(run) by {
        let list = before.available@[c]@;
        let k = choose|k: int| 0 <= k < list.len() && list[k] == run;
        if c == class {
            if k >= after.available@[class]@.len() {
                assert(before.runs@[before.available@[class]@[k] as int].full());
            }
            assert(after.available@[c]@[k] == run);
        }
    }
}

/// A run that a block was taken from is no emptier, so a list that kept the runs with room
/// keeps them.
proof fn lemma_no_fuller(start: SharedHeap, middle: SharedHeap, after: SharedHeap, run: int)
    requires
        start.wf(),
        start.runs@.len() <= middle.runs@.len(),
        middle.lists_kept(start),
        after.available == middle.available,
        0 <= run < middle.runs@.len(),
        after.runs@ == middle.runs@.update(run, after.runs@[run]),
        middle.runs@[run].full() ==> after.runs@[run].full(),
    ensures
        after.lists_kept(start),
{
    reveal(SharedHeap::lists_kept);
    assert forall|c: int, other: usize|
        0 <= c < COUNT && #[trigger] start.available@[c]@.contains(other)
            && !after.runs@[other as int].full() implies after.available@[c]@.contains(other) by {
        let list = start.available@[c]@;
        let k = choose|k: int| 0 <= k < list.len() && list[k] == other;
        assert(listed(start.runs@, c, list[k]));
        if other as int != run {
            assert(after.runs@[other as int] == middle.runs@[other as int]);
        }
    }
}

/// `ptr` is `index` steps behind a run boundary.
pub open spec fn stepped(ptr: int, base: int, index: int, step: int) -> bool {
    base >= 0 && base % 65536 == 0 && index >= 0 && ptr == base + index * step
}

/// The smallest class that serves a layout.
pub open spec fn class_of(spec: LayoutSpec) -> int {
    choose|class: int|
        0 <= class < COUNT && #[trigger] serves(class, spec) && forall|i: int|
            0 <= i < class ==> !#[trigger] serves(i, spec)
}

/// How long a block for `spec` is: as long as its class has them, or just as long as asked.
pub open spec fn block_size(spec: LayoutSpec) -> int {
    if small(spec) {
        class_size(class_of(spec))
    } else {
        spec.size as int
    }
}

/// A request that was not served for want of a mapping asked the system for one of exactly
/// the right shape. Granted just that, in pages that nobody owns, the layout is served.
pub proof fn law_granting_what_was_asked_for_serves(
    before: SharedHeap,
    after: SharedHeap,
    spec: LayoutSpec,
    mapping: Mapping,
)
    requires
        spec.wf(),
        after.asked(before, spec),
        if small(spec) {
            before.runs@.len() < before.run_capacity && after.runs@.len() < after.run_capacity
                && !before.os.can_map(65536, 65536)
        } else {
            &&& before.extents.mapping_for(spec, before.os) is None
            &&& spec.size + spec.align - 1 + 4095 <= usize::MAX
            &&& after.extents.mapping_cache.exact(spec.spec_mapping_len(4096) as usize) is None
            &&& after.extents.extents.slots.next() is Some
        },
        after.os.wanted matches Some(request) ==> answers(mapping, request) && unowned(
            after.pages@,
            mapping.spec_range(),
        ),
    ensures
        after.os.wanted is Some,
        ({
            let request = after.os.wanted->0;
            if small(spec) {
                request.len == 65536 && request.align == 65536
            } else {
                &&& request.align == 4096
                &&& request.len as int % 4096 == 0
                &&& spec.size + spec.align - 1 <= request.len
                &&& request.len < spec.size + spec.align - 1 + 4096
            }
        }),
        (SharedHeap { os: Os { grant: Some(mapping), ..after.os }, ..after }).can_serve(spec),
{
    law_mapping_length_is_tight(spec, 4096);
}

/// There is only one smallest class.
proof fn lemma_class_of(spec: LayoutSpec, class: int)
    requires
        0 <= class < COUNT,
        serves(class, spec),
        forall|i: int| 0 <= i < class ==> !#[trigger] serves(i, spec),
    ensures
        class_of(spec) == class,
{
    let chosen = class_of(spec);
    assert(0 <= chosen < COUNT && serves(chosen, spec));
    if chosen < class {
        assert(!serves(chosen, spec));
    }
    if class < chosen {
        assert(!serves(class, spec));
    }
}

/// A fresh run on pages without owner keeps the heap sound and nothing becomes live.
proof fn lemma_run_added(before: SharedHeap, after: SharedHeap, run: SharedRun)
    requires
        before.wf(),
        before.runs@.len() < before.run_capacity,
        after.runs@ == before.runs@.push(run),
        after.pages@ == with_owner(
            before.pages@,
            run.spec_range(),
            run_owner(before.runs@.len() as int),
        ),
        unowned(before.pages@, run.spec_range()),
        after.extents == before.extents,
        after.available == before.available,
        after.heaps == before.heaps,
        run.wf(),
        forall|i: int| 0 <= i < run.capacity() ==> (#[trigger] run.states@[i]) == BlockState::Free,
    ensures
        runs_ok(after.runs@, after.pages@),
        lists_ok(after.available@, after.runs@),
        waiting_ok(after.heaps.heaps@, after.runs@),
        forall|addr: int| #[trigger] after.live(addr) == before.live(addr),
{
    let index = before.runs@.len() as int;
    let range = run.spec_range();
    let runs = after.runs@;
    assert forall|i: int| 0 <= i < runs.len() implies #[trigger] run_ok(runs, after.pages@, i) by {
        if i < index {
            assert(run_ok(before.runs@, before.pages@, i));
            assert forall|page: usize|
                #![trigger after.pages@.contains_key(page)]
                #![trigger after.pages@[page]]
                covers(runs[i].spec_range(), page as int) implies after.pages@.contains_key(page)
                && after.pages@[page] == run_owner(i) by {
                assert(before.pages@.contains_key(page));
                if covers(range, page as int) {
                    assert(!before.pages@.contains_key(page));
                }
            }
        }
    }
    assert forall|page: usize| #[trigger] after.pages@.contains_key(page) implies run_page_ok(
        runs,
        after.pages@,
        page,
    ) by {
        if !covers(range, page as int) {
            assert(before.pages@.contains_key(page));
            assert(run_page_ok(before.runs@, before.pages@, page));
        }
    }
    assert forall|class: int, k: int|
        0 <= class < COUNT && 0 <= k < after.available@[class]@.len() implies listed(
        runs,
        class,
        #[trigger] after.available@[class]@[k],
    ) by {
        assert(listed(before.runs@, class, before.available@[class]@[k]));
    }
    assert forall|h: int, k: int|
        0 <= h < after.heaps.heaps@.len() && 0 <= k
            < after.heaps.heaps@[h].queue@.len() implies message_ok(
        runs,
        #[trigger] after.heaps.heaps@[h].queue@[k],
    ) by {
        assert(message_ok(before.runs@, before.heaps.heaps@[h].queue@[k]));
    }
    assert forall|h: int, k: int|
        0 <= h < after.heaps.heaps@.len() && 0 <= k
            < after.heaps.heaps@[h].runs@.len() implies #[trigger] after.heaps.heaps@[h].runs@[k]
        < runs.len() by {
        assert(before.heaps.heaps@[h].runs@[k] < before.runs@.len());
    }
    assert forall|addr: int| #[trigger] after.live(addr) == before.live(addr) by {
        let page = page_of(addr) as usize;
        if 0 <= addr <= usize::MAX {
            if covers(range, page as int) {
                assert(!before.pages@.contains_key(page));
                if run.block_of(addr) is Some {
                    run.lemma_found(addr);
                }
            } else if before.pages@.contains_key(page) {
                assert(run_page_ok(before.runs@, before.pages@, page));
            }
        }
    }
}

/// A new extent makes its block live and nothing else.
proof fn lemma_extent_allocated(
    before: SharedHeap,
    after: SharedHeap,
    spec: LayoutSpec,
    allocation: Option<Allocation>,
)
    requires
        before.wf(),
        after.extents.wf(after.pages@),
        after.runs == before.runs,
        match allocation {
            Some(allocation) => {
                let mapping = before.extents.mapping_for(spec, before.os)->0;
                let index = before.extents.extents.slots.next()->0;
                &&& before.extents.can_serve(spec, before.pages@, before.os)
                &&& mapping.base <= allocation.ptr
                &&& allocation.ptr + spec.size <= mapping.base + mapping.len
                &&& spec.size > 0
                &&& allocation.ptr > 0
                &&& mapping.wf()
                &&& index < u32::MAX
                &&& after.pages@ == with_owner(
                    before.pages@,
                    mapping.spec_range(),
                    crate::extent::allocator::owner_of(index as int),
                )
                &&& after.extents.extents.slots.others_same(
                    before.extents.extents.slots,
                    index as int,
                )
                &&& !before.extents.extents.slots.holds(index as int)
                &&& after.extents.extents.slots.value(index as int).base == allocation.ptr
                &&& after.extents.extents.slots.value(index as int).len == spec.size
            },
            None => after.pages@ == before.pages@ && forall|index: int| #[trigger]
                after.extents.extents.slots.holds(index)
                    == before.extents.extents.slots.holds(index) && (
                before.extents.extents.slots.holds(index) ==> after.extents.extents.slots.value(
                    index,
                ) == before.extents.extents.slots.value(index)),
        },
    ensures
        allocation matches Some(allocation) ==> after.live(allocation.ptr as int) && !before.live(
            allocation.ptr as int,
        ) && after.block_len(allocation.ptr as int) == spec.size && forall|addr: int| #[trigger]
            after.live(addr) == (addr == allocation.ptr || before.live(addr)),
        allocation is None ==> forall|addr: int| #[trigger] after.live(addr) == before.live(addr),
{
    match allocation {
        Some(allocation) => {
            let mapping = before.extents.mapping_for(spec, before.os)->0;
            let index = before.extents.extents.slots.next()->0;
            let ptr = allocation.ptr as int;
            let range = mapping.spec_range();
            let page = page_of(ptr) as usize;
            assert(covers(range, page as int)) by {
                vstd::arithmetic::div_mod::lemma_div_is_ordered(mapping.base as int, ptr, 4096);
                vstd::arithmetic::div_mod::lemma_div_is_ordered(
                    ptr,
                    mapping.base + mapping.len - 1,
                    4096,
                );
            }
            assert(!before.pages@.contains_key(page));
            assert forall|addr: int| #[trigger] after.live(addr) == (addr == ptr || before.live(
                addr,
            )) by {
                let there = page_of(addr) as usize;
                if 0 <= addr <= usize::MAX {
                    if covers(range, there as int) {
                        assert(!before.pages@.contains_key(there));
                    } else if before.pages@.contains_key(there) {
                        assert(page_ok(
                            before.extents.extents.slots.slots@,
                            before.pages@,
                            there,
                        ));
                        if let PageOwner::Extent { heap, extent } = before.pages@[there] {
                            assert(before.extents.extents.slots.holds(extent as int));
                            assert(after.extents.extents.slots.slots@[extent as int]
                                == before.extents.extents.slots.slots@[extent as int]);
                        }
                    }
                }
            }
        },
        None => {
            assert forall|addr: int| #[trigger] after.live(addr) == before.live(addr) by {
                let there = page_of(addr) as usize;
                if before.pages@.contains_key(there) {
                    assert(page_ok(before.extents.extents.slots.slots@, before.pages@, there));
                    if let PageOwner::Extent { heap, extent } = before.pages@[there] {
                        assert(before.extents.extents.slots.holds(extent as int));
                        assert(after.extents.extents.slots.holds(extent as int));
                    }
                }
            }
        },
    }
}

/// Blocks on their way back may have become free; nothing else changed.
pub open spec fn only_returned(before: Seq<SharedRun>, after: Seq<SharedRun>) -> bool {
    &&& shapes_same(before, after)
    &&& forall|r: int|
        0 <= r < before.len() ==> (#[trigger] after[r]).states@.len() == before[r].states@.len()
    &&& forall|r: int, i: int|
        0 <= r < before.len() && 0 <= i < before[r].states@.len() ==> (
        #[trigger] after[r].states@[i]) == before[r].states@[i] || (before[r].states@[i]
            == BlockState::Pending && after[r].states@[i] == BlockState::Free)
}

/// A free names block `i` of run `r`.
pub open spec fn names(runs: Seq<SharedRun>, free: RemoteFree, r: int, i: int) -> bool {
    free.run == r && runs[r].block_of(free.ptr as int) == Some(i)
}

/// Only blocks that `frees` name changed.
pub open spec fn only_named(
    before: Seq<SharedRun>,
    after: Seq<SharedRun>,
    frees: Seq<RemoteFree>,
) -> bool {
    forall|r: int, i: int|
        0 <= r < before.len() && 0 <= i < before[r].states@.len() && (
        #[trigger] after[r].states@[i]) != before[r].states@[i] ==> exists|k: int|
            0 <= k < frees.len() && #[trigger] names(before, frees[k], r, i)
}

/// The block that a free names is free.
pub open spec fn is_back(runs: Seq<SharedRun>, free: RemoteFree) -> bool {
    &&& free.run < runs.len()
    &&& runs[free.run as int].block_of(free.ptr as int) matches Some(i)
        && runs[free.run as int].states@[i] == BlockState::Free
}

/// Without the free that waited longest, waiting frees are still sound.
proof fn lemma_popped(before: HeapRegistry, after: HeapRegistry, runs: Seq<SharedRun>, id: HeapId)
    requires
        waiting_ok(before.heaps@, runs),
        before.active(id),
        before.queue(id).len() > 0,
        after.others_same(before, id.spec_index()),
        after.active(id),
        after.queue(id) == before.queue(id).drop_first(),
        after.heaps@[id.spec_index()].runs == before.heaps@[id.spec_index()].runs,
    ensures
        waiting_ok(after.heaps@, runs),
        message_ok(runs, before.queue(id)[0]),
        forall|h: int, k: int|
            0 <= h < after.heaps@.len() && 0 <= k < after.heaps@[h].queue@.len() ==> (
            #[trigger] after.heaps@[h].queue@[k]) != before.queue(id)[0],
{
    let at = id.spec_index();
    let old_heaps = before.heaps@;
    let heaps = after.heaps@;
    assert(old_heaps[at].queue@[0] == before.queue(id)[0]);
    assert forall|k: int| 0 <= k < heaps[at].queue@.len() implies #[trigger] heaps[at].queue@[k]
        == old_heaps[at].queue@[k + 1] by {}
    assert forall|h: int, k: int|
        0 <= h < heaps.len() && 0 <= k < heaps[h].queue@.len() implies message_ok(
        runs,
        #[trigger] heaps[h].queue@[k],
    ) && heaps[h].queue@[k] != old_heaps[at].queue@[0] by {
        let place = if h == at {
            k + 1
        } else {
            k
        };
        assert(heaps[h].queue@[k] == old_heaps[h].queue@[place]);
        assert(message_ok(runs, old_heaps[h].queue@[place]));
        assert(old_heaps[h].queue@[place] != old_heaps[at].queue@[0]);
    }
    assert forall|h: int, k: int, g: int, j: int|
        0 <= h < heaps.len() && 0 <= k < heaps[h].queue@.len() && 0 <= g < heaps.len() && 0 <= j
            < heaps[g].queue@.len() && (h != g || k != j) implies #[trigger] heaps[h].queue@[k]
        != #[trigger] heaps[g].queue@[j] by {
        let left = if h == at {
            k + 1
        } else {
            k
        };
        let right = if g == at {
            j + 1
        } else {
            j
        };
        assert(heaps[h].queue@[k] == old_heaps[h].queue@[left]);
        assert(heaps[g].queue@[j] == old_heaps[g].queue@[right]);
        assert(old_heaps[h].queue@[left] != old_heaps[g].queue@[right]);
    }
    assert forall|h: int, k: int|
        0 <= h < heaps.len() && 0 <= k < heaps[h].runs@.len() implies #[trigger] heaps[h].runs@[k]
        < runs.len() by {
        assert(old_heaps[h].runs@[k] < runs.len());
    }
}

impl SharedHeap {
    /// Take back the block that waits longest.
    fn drain_one(&mut self, id: HeapId) -> (drained: Result<(), HeapError>)
        requires
            old(self).wf(),
            old(self).heaps.queue(id).len() > 0,
        ensures
            final(self).wf(),
            final(self).runs_only(*old(self)),
            final(self).lists_grow(*old(self)),
            drained == Ok::<(), HeapError>(()),
            final(self).heaps.active(id),
            final(self).heaps.others_same(old(self).heaps, id.spec_index()),
            final(self).heaps.queue(id) == old(self).heaps.queue(id).drop_first(),
            final(self).heaps.heaps@[id.spec_index()].runs
                == old(self).heaps.heaps@[id.spec_index()].runs,
            only_returned(old(self).runs@, final(self).runs@),
            only_named(old(self).runs@, final(self).runs@, old(self).heaps.queue(id).take(1)),
            is_back(final(self).runs@, old(self).heaps.queue(id)[0]),
            forall|addr: int| #[trigger] final(self).live(addr) == old(self).live(addr),
    {
        let ghost before = *self;
        proof {
            reveal(SharedHeap::lists_grow);
        }
        let free = match self.heaps.pop_remote(id) {
            Some(free) => free,
            None => return Ok(()),
        };
        proof {
            lemma_popped(before.heaps, self.heaps, self.runs@, id);
            assert(run_ok(self.runs@, self.pages@, free.run as int));
        }
        let ghost middle = *self;
        let run: usize = free.run;
        let was_full = self.runs[run].is_full();
        let drained = self.runs[run].drain_remote_pending(free.ptr);
        proof {
            let old_run = middle.runs@[run as int];
            let i = old_run.block_of(free.ptr as int)->0;
            old_run.lemma_found(free.ptr as int);
            assert(self.runs@ =~= middle.runs@.update(run as int, self.runs@[run as int]));
            lemma_one_block(middle, *self, run as int, i, BlockState::Free);
            lemma_lists_kept(self.available@, middle.runs@, self.runs@);
            assert forall|h: int, k: int|
                0 <= h < self.heaps.heaps@.len() && 0 <= k
                    < self.heaps.heaps@[h].queue@.len() implies !((
            #[trigger] self.heaps.heaps@[h].queue@[k]).run == run && old_run.block_of(
                self.heaps.heaps@[h].queue@[k].ptr as int,
            ) == Some(i)) by {
                let other = self.heaps.heaps@[h].queue@[k];
                if other.run == run && old_run.block_of(other.ptr as int) == Some(i) {
                    old_run.lemma_found(other.ptr as int);
                    assert(other == free);
                }
            }
            lemma_waiting_kept(
                self.heaps.heaps@,
                middle.runs@,
                self.runs@,
                run as int,
                i,
                BlockState::Free,
            );
            assert forall|addr: int| #[trigger] self.live(addr) == before.live(addr) by {
                if addr == old_run.block_at(i) {
                    lemma_block_page(middle, run as int, i);
                }
            }
            assert(is_back(self.runs@, free));
            let one = before.heaps.queue(id).take(1);
            assert forall|r: int, j: int|
                0 <= r < before.runs@.len() && 0 <= j < before.runs@[r].states@.len() && (
                #[trigger] self.runs@[r].states@[j])
                    != before.runs@[r].states@[j] implies exists|k: int|
                0 <= k < one.len() && #[trigger] names(before.runs@, one[k], r, j) by {
                assert(r == run && j == i);
                assert(one[0] == free);
                assert(names(before.runs@, one[0], r, j));
            }
            assert forall|r: int, j: int|
                0 <= r < before.runs@.len() && 0 <= j < before.runs@[r].states@.len() implies (
            #[trigger] self.runs@[r].states@[j]) == before.runs@[r].states@[j] || (
            before.runs@[r].states@[j] == BlockState::Pending && self.runs@[r].states@[j]
                == BlockState::Free) by {}
        }
        match drained {
            Ok(()) => {},
            Err(error) => return Err(HeapError::from(error)),
        }
        let owner = self.runs[run].owner;
        if owner == RunOwner::Shared && was_full {
            self.push_shared_available(run);
        }
        Ok(())
    }

    /// Take back all blocks that other threads freed for `id`.
    pub fn drain_remote(&mut self, id: HeapId) -> (drained: Result<(), HeapError>)
        requires
            old(self).wf(),
        ensures
            final(self).wf(),
            final(self).runs_only(*old(self)),
            final(self).lists_grow(*old(self)),
            drained == Ok::<(), HeapError>(()),
            final(self).heaps.queue(id).len() == 0,
            final(self).heaps.active(id) == old(self).heaps.active(id),
            old(self).heaps.active(id) ==> final(self).heaps.others_same(
                old(self).heaps,
                id.spec_index(),
            ) && final(self).heaps.heaps@[id.spec_index()].runs
                == old(self).heaps.heaps@[id.spec_index()].runs,
            !old(self).heaps.active(id) ==> final(self).heaps == old(self).heaps,
            only_returned(old(self).runs@, final(self).runs@),
            only_named(old(self).runs@, final(self).runs@, old(self).heaps.queue(id)),
            forall|k: int|
                0 <= k < old(self).heaps.queue(id).len() ==> is_back(
                    final(self).runs@,
                    #[trigger] old(self).heaps.queue(id)[k],
                ),
            forall|addr: int| #[trigger] final(self).live(addr) == old(self).live(addr),
    {
        let ghost queue = self.heaps.queue(id);
        proof {
            reveal(SharedHeap::lists_grow);
        }
        let ghost mut done: int = 0;
        assert(queue.skip(0) =~= queue);
        while self.heaps.has_remote(id)
            invariant
                self.wf(),
                self.runs_only(*old(self)),
                self.lists_grow(*old(self)),
                0 <= done <= queue.len(),
                queue == old(self).heaps.queue(id),
                self.heaps.queue(id) == queue.skip(done),
                self.heaps.active(id) == old(self).heaps.active(id),
                old(self).heaps.active(id) ==> self.heaps.others_same(
                    old(self).heaps,
                    id.spec_index(),
                ) && self.heaps.heaps@[id.spec_index()].runs
                    == old(self).heaps.heaps@[id.spec_index()].runs,
                !old(self).heaps.active(id) ==> self.heaps == old(self).heaps,
                only_returned(old(self).runs@, self.runs@),
                only_named(old(self).runs@, self.runs@, queue),
                forall|k: int| 0 <= k < done ==> is_back(self.runs@, #[trigger] queue[k]),
                forall|addr: int| #[trigger] self.live(addr) == old(self).live(addr),
            decreases queue.len() - done,
        {
            let ghost before = *self;
            match self.drain_one(id) {
                Ok(()) => {},
                Err(error) => return Err(error),
            }
            proof {
                reveal(SharedHeap::lists_grow);
                assert(queue.skip(done).drop_first() =~= queue.skip(done + 1));
                assert(queue.skip(done)[0] == queue[done]);
                assert forall|k: int| 0 <= k < done + 1 implies is_back(
                    self.runs@,
                    #[trigger] queue[k],
                ) by {
                    if k < done {
                        let free = queue[k];
                        assert(is_back(before.runs@, free));
                        let r = free.run as int;
                        assert(self.runs@[r].same_shape(before.runs@[r]));
                        let i = before.runs@[r].block_of(free.ptr as int)->0;
                        assert(run_ok(before.runs@, before.pages@, r));
                        before.runs@[r].lemma_found(free.ptr as int);
                        assert(self.runs@[r].states@[i] == before.runs@[r].states@[i]);
                    }
                }
                lemma_returned_trans(old(self).runs@, before.runs@, self.runs@);
                assert forall|r: int, i: int|
                    0 <= r < old(self).runs@.len() && 0 <= i < old(self).runs@[r].states@.len() && (
                    #[trigger] self.runs@[r].states@[i])
                        != old(self).runs@[r].states@[i] implies exists|k: int|
                    0 <= k < queue.len() && #[trigger] names(
                        old(self).runs@,
                        queue[k],
                        r,
                        i,
                    ) by {
                    if before.runs@[r].states@[i] == old(self).runs@[r].states@[i] {
                        let one = queue.skip(done).take(1);
                        let k = choose|k: int|
                            0 <= k < one.len() && #[trigger] names(before.runs@, one[k], r, i);
                        assert(before.runs@[r].same_shape(old(self).runs@[r]));
                        assert(one[k] == queue[done]);
                        assert(names(old(self).runs@, queue[done], r, i));
                    }
                }
                done = done + 1;
            }
        }
        Ok(())
    }

    /// A run of a class for a thread, and its first block.
    pub fn refill_local(&mut self, id: HeapId, class: SizeClass) -> (refilled: Option<
        (usize, Allocation),
    >)
        requires
            old(self).wf(),
            class.wf(),
        ensures
            final(self).wf(),
            refilled is Some == (old(self).can_new_run() && old(self).heaps.active(id)),
            final(self).grown(*old(self)),
            final(self).extents == old(self).extents,
            final(self).available == old(self).available,
            blocks_kept(*old(self), *final(self)),
            if old(self).can_new_run() {
                final(self).os.effects == old(self).os.effects
            } else {
                gave_back(old(self).os.grant, old(self).os.effects@, final(self).os.effects@)
            },
            match refilled {
                Some((run, allocation)) => {
                    &&& run == old(self).runs@.len()
                    &&& final(self).runs@.len() == old(self).runs@.len() + 1
                    &&& final(self).runs@[run as int].owner == RunOwner::Thread(id)
                    &&& final(self).runs@[run as int].class == class
                    &&& final(self).runs@[run as int].live(allocation.ptr as int)
                    &&& final(self).heaps.active(id)
                    &&& final(self).heaps.heaps@[id.spec_index()].runs@
                        == old(self).heaps.heaps@[id.spec_index()].runs@.push(run)
                    &&& final(self).heaps.others_same(old(self).heaps, id.spec_index())
                    &&& !old(self).live(allocation.ptr as int)
                    &&& forall|addr: int| #[trigger]
                        final(self).live(addr) == (addr == allocation.ptr || old(self).live(addr))
                },
                None => final(self).heaps == old(self).heaps && if old(self).can_new_run() {
                    final(self).runs@.len() == old(self).runs@.len() + 1 && forall|addr: int|
                        #[trigger]
                        old(self).live(addr) ==> final(self).live(addr)
                } else {
                    forall|addr: int| #[trigger] final(self).live(addr) == old(self).live(addr)
                },
            },
    {
        let ghost before = *self;
        let run: usize = match self.new_run(class, RunOwner::Thread(id)) {
            Some(run) => run,
            None => {
                proof {
                    lemma_blocks_kept(before, *self);
                }
                return None;
            },
        };
        let ghost fresh = *self;
        let ptr: usize = match self.take_block(run) {
            Some(ptr) => ptr,
            None => return None,
        };
        let ghost middle = *self;
        assert(self.runs@[run as int].same_shape(fresh.runs@[run as int]));
        proof {
            lemma_blocks_kept(before, middle);
        }
        if !self.heaps.attach_run(id, run) {
            return None;
        }
        proof {
            let old_heaps = middle.heaps.heaps@;
            let heaps = self.heaps.heaps@;
            let at = id.spec_index();
            assert forall|h: int| 0 <= h < heaps.len() implies (
            #[trigger] heaps[h]).queue@ == old_heaps[h].queue@ by {
                if h == at {
                    assert(self.heaps.queue(id) == middle.heaps.queue(id));
                }
            }
            assert forall|h: int, k: int|
                0 <= h < heaps.len() && 0 <= k < heaps[h].queue@.len() implies message_ok(
                self.runs@,
                #[trigger] heaps[h].queue@[k],
            ) by {
                assert(message_ok(self.runs@, old_heaps[h].queue@[k]));
            }
            assert forall|h: int, k: int, g: int, j: int|
                0 <= h < heaps.len() && 0 <= k < heaps[h].queue@.len() && 0 <= g < heaps.len() && 0
                    <= j < heaps[g].queue@.len() && (h != g || k
                    != j) implies #[trigger] heaps[h].queue@[k]
                != #[trigger] heaps[g].queue@[j] by {
                assert(old_heaps[h].queue@[k] != old_heaps[g].queue@[j]);
            }
            assert forall|h: int, k: int|
                0 <= h < heaps.len() && 0 <= k
                    < heaps[h].runs@.len() implies #[trigger] heaps[h].runs@[k]
                < self.runs@.len() by {
                if h != at || k < old_heaps[h].runs@.len() {
                    assert(old_heaps[h].runs@[k] < self.runs@.len());
                }
            }
            assert forall|addr: int| #[trigger] self.live(addr) == (addr == ptr || before.live(
                addr,
            )) by {
                assert(self.live(addr) == middle.live(addr));
                assert(fresh.live(addr) == before.live(addr));
            }
            lemma_blocks_kept(before, *self);
        }
        Some((run, Allocation::new(ptr, ZeroStatus::NeedsZeroing)))
    }
}

/// Returning blocks in two steps is returning blocks.
proof fn lemma_returned_trans(
    before: Seq<SharedRun>,
    middle: Seq<SharedRun>,
    after: Seq<SharedRun>,
)
    requires
        only_returned(before, middle),
        only_returned(middle, after),
    ensures
        only_returned(before, after),
{
    assert forall|r: int| 0 <= r < before.len() implies (#[trigger] after[r]).same_shape(before[r])
        && after[r].states@.len() == before[r].states@.len() by {
        assert(middle[r].same_shape(before[r]));
    }
    assert forall|r: int, i: int|
        0 <= r < before.len() && 0 <= i < before[r].states@.len() implies (
    #[trigger] after[r].states@[i]) == before[r].states@[i] || (before[r].states@[i]
        == BlockState::Pending && after[r].states@[i] == BlockState::Free) by {
        let there = middle[r].states@[i];
    }
}

/// A free that no waiting free equals can wait behind the others.
proof fn lemma_queued(
    before: HeapRegistry,
    after: HeapRegistry,
    runs: Seq<SharedRun>,
    id: HeapId,
    free: RemoteFree,
)
    requires
        waiting_ok(before.heaps@, runs),
        before.active(id),
        after.others_same(before, id.spec_index()),
        after.active(id),
        after.queue(id) == before.queue(id).push(free),
        after.heaps@[id.spec_index()].runs == before.heaps@[id.spec_index()].runs,
        message_ok(runs, free),
        forall|h: int, k: int|
            0 <= h < before.heaps@.len() && 0 <= k < before.heaps@[h].queue@.len() ==> (
            #[trigger] before.heaps@[h].queue@[k]) != free,
    ensures
        waiting_ok(after.heaps@, runs),
{
    let at = id.spec_index();
    let old_heaps = before.heaps@;
    let heaps = after.heaps@;
    let last = old_heaps[at].queue@.len() as int;
    assert(heaps[at].queue@ == old_heaps[at].queue@.push(free));
    assert forall|h: int, k: int|
        0 <= h < heaps.len() && 0 <= k < heaps[h].queue@.len() implies message_ok(
        runs,
        #[trigger] heaps[h].queue@[k],
    ) by {
        if h != at || k < last {
            assert(heaps[h].queue@[k] == old_heaps[h].queue@[k]);
            assert(message_ok(runs, old_heaps[h].queue@[k]));
        }
    }
    assert forall|h: int, k: int, g: int, j: int|
        0 <= h < heaps.len() && 0 <= k < heaps[h].queue@.len() && 0 <= g < heaps.len() && 0 <= j
            < heaps[g].queue@.len() && (h != g || k != j) implies #[trigger] heaps[h].queue@[k]
        != #[trigger] heaps[g].queue@[j] by {
        let new_left = h == at && k == last;
        let new_right = g == at && j == last;
        if !new_left {
            assert(heaps[h].queue@[k] == old_heaps[h].queue@[k]);
        }
        if !new_right {
            assert(heaps[g].queue@[j] == old_heaps[g].queue@[j]);
        }
        if !new_left && !new_right {
            assert(old_heaps[h].queue@[k] != old_heaps[g].queue@[j]);
        }
    }
    assert forall|h: int, k: int|
        0 <= h < heaps.len() && 0 <= k < heaps[h].runs@.len() implies #[trigger] heaps[h].runs@[k]
        < runs.len() by {
        assert(old_heaps[h].runs@[k] < runs.len());
    }
}

impl SharedHeap {
    /// Free a live block of a run for its owner.
    fn free_block(&mut self, run: usize, ptr: usize) -> (freed: Result<(), HeapError>)
        requires
            old(self).wf(),
            run < old(self).runs@.len(),
        ensures
            final(self).wf(),
            final(self).runs_only(*old(self)),
            final(self).heaps == old(self).heaps,
            final(self).available == old(self).available,
            shapes_same(old(self).runs@, final(self).runs@),
            ({
                let old_run = old(self).runs@[run as int];
                match old_run.freed(ptr as int) {
                    Ok(()) => freed == Ok::<(), HeapError>(()) && !final(self).runs@[run as int].full() && final(self).runs@[run as int].free@.len()
                        == old_run.free@.len() + 1 && final(self).runs@[run as int].bump
                        == old_run.bump && forall|addr: int| #[trigger]
                        final(self).live(addr) == (old(self).live(addr) && addr != ptr),
                    Err(error) => freed == Err::<(), HeapError>(run_error_of(error))
                        && final(self).runs@ == old(self).runs@ && forall|addr: int| #[trigger]
                        final(self).live(addr) == old(self).live(addr),
                }
            }),
    {
        let ghost before = *self;
        assert(run_ok(self.runs@, self.pages@, run as int));
        let freed = self.runs[run].free(ptr);
        proof {
            let old_run = before.runs@[run as int];
            assert(self.runs@ =~= before.runs@.update(run as int, self.runs@[run as int]));
            if freed is Ok {
                let i = old_run.block_of(ptr as int)->0;
                old_run.lemma_found(ptr as int);
                lemma_one_block(before, *self, run as int, i, BlockState::Free);
                lemma_lists_kept(self.available@, before.runs@, self.runs@);
                assert forall|h: int, k: int|
                    0 <= h < self.heaps.heaps@.len() && 0 <= k
                        < self.heaps.heaps@[h].queue@.len() implies !((
                #[trigger] self.heaps.heaps@[h].queue@[k]).run == run && old_run.block_of(
                    self.heaps.heaps@[h].queue@[k].ptr as int,
                ) == Some(i)) by {
                    assert(message_ok(before.runs@, self.heaps.heaps@[h].queue@[k]));
                }
                lemma_waiting_kept(
                    self.heaps.heaps@,
                    before.runs@,
                    self.runs@,
                    run as int,
                    i,
                    BlockState::Free,
                );
            } else {
                assert(self.runs@ =~= before.runs@);
            }
        }
        match freed {
            Ok(()) => Ok(()),
            Err(error) => Err(HeapError::from(error)),
        }
    }

    /// Mark a live block as freed by another thread.
    fn mark_block(&mut self, run: usize, ptr: usize) -> (marked: Result<(), HeapError>)
        requires
            old(self).wf(),
            run < old(self).runs@.len(),
        ensures
            final(self).wf(),
            final(self).runs_only(*old(self)),
            final(self).heaps == old(self).heaps,
            final(self).available == old(self).available,
            shapes_same(old(self).runs@, final(self).runs@),
            ({
                let old_run = old(self).runs@[run as int];
                match old_run.freed(ptr as int) {
                    Ok(()) => marked == Ok::<(), HeapError>(()) && message_ok(
                        final(self).runs@,
                        RemoteFree { run, ptr },
                    ) && (forall|h: int, k: int|
                        0 <= h < final(self).heaps.heaps@.len() && 0 <= k
                            < final(self).heaps.heaps@[h].queue@.len() ==> (
                        #[trigger] final(self).heaps.heaps@[h].queue@[k]) != (RemoteFree {
                            run,
                            ptr,
                        })) && forall|addr: int| #[trigger]
                        final(self).live(addr) == (old(self).live(addr) && addr != ptr),
                    Err(error) => marked == Err::<(), HeapError>(run_error_of(error))
                        && final(self).runs@ == old(self).runs@ && forall|addr: int| #[trigger]
                        final(self).live(addr) == old(self).live(addr),
                }
            }),
    {
        let ghost before = *self;
        assert(run_ok(self.runs@, self.pages@, run as int));
        let marked = self.runs[run].mark_remote_pending(ptr);
        proof {
            let old_run = before.runs@[run as int];
            assert(self.runs@ =~= before.runs@.update(run as int, self.runs@[run as int]));
            if marked is Ok {
                let i = old_run.block_of(ptr as int)->0;
                old_run.lemma_found(ptr as int);
                lemma_one_block(before, *self, run as int, i, BlockState::Pending);
                lemma_lists_kept(self.available@, before.runs@, self.runs@);
                assert forall|h: int, k: int|
                    0 <= h < self.heaps.heaps@.len() && 0 <= k
                        < self.heaps.heaps@[h].queue@.len() implies !((
                #[trigger] self.heaps.heaps@[h].queue@[k]).run == run && old_run.block_of(
                    self.heaps.heaps@[h].queue@[k].ptr as int,
                ) == Some(i)) by {
                    assert(message_ok(before.runs@, self.heaps.heaps@[h].queue@[k]));
                }
                lemma_waiting_kept(
                    self.heaps.heaps@,
                    before.runs@,
                    self.runs@,
                    run as int,
                    i,
                    BlockState::Pending,
                );
            } else {
                assert(self.runs@ =~= before.runs@);
            }
        }
        match marked {
            Ok(()) => Ok(()),
            Err(error) => Err(HeapError::from(error)),
        }
    }

    /// Let a marked block wait for its owner.
    fn queue_block(&mut self, id: HeapId, free: RemoteFree) -> (queued: bool)
        requires
            old(self).wf(),
            message_ok(old(self).runs@, free),
            forall|h: int, k: int|
                0 <= h < old(self).heaps.heaps@.len() && 0 <= k
                    < old(self).heaps.heaps@[h].queue@.len() ==> (
                #[trigger] old(self).heaps.heaps@[h].queue@[k]) != free,
        ensures
            final(self).wf(),
            final(self).runs_only(*old(self)),
            final(self).runs == old(self).runs,
            final(self).available == old(self).available,
            queued == (old(self).heaps.active(id) && old(self).heaps.queue(id).len()
                < REMOTE_CAPACITY),
            queued ==> final(self).heaps.active(id) && final(self).heaps.queue(id)
                == old(self).heaps.queue(id).push(free),
            !queued ==> final(self).heaps == old(self).heaps,
            forall|addr: int| #[trigger] final(self).live(addr) == old(self).live(addr),
    {
        let ghost before = *self;
        match self.heaps.enqueue_remote(id, free) {
            Ok(()) => {
                proof {
                    lemma_queued(before.heaps, self.heaps, self.runs@, id, free);
                }
                true
            },
            Err(_) => false,
        }
    }

    /// Free a block of another thread's run: it waits in the owner's queue. A full queue is
    /// drained first.
    fn enqueue_remote_free(&mut self, id: HeapId, run: usize, ptr: usize) -> (freed: Result<
        (),
        HeapError,
    >)
        requires
            old(self).wf(),
            run < old(self).runs@.len(),
        ensures
            final(self).wf(),
            final(self).runs_only(*old(self)),
            final(self).lists_grow(*old(self)),
            shapes_same(old(self).runs@, final(self).runs@),
            ({
                let old_run = old(self).runs@[run as int];
                match old_run.freed(ptr as int) {
                    Ok(()) => freed == if old(self).heaps.active(id) {
                        Ok::<(), HeapError>(())
                    } else {
                        Err::<(), HeapError>(HeapError::InvalidMetadata)
                    } && forall|addr: int| #[trigger]
                        final(self).live(addr) == (old(self).live(addr) && addr != ptr),
                    Err(error) => freed == Err::<(), HeapError>(run_error_of(error))
                        && forall|addr: int| #[trigger]
                        final(self).live(addr) == old(self).live(addr),
                }
            }),
            freed is Ok ==> final(self).heaps.queue(id).len() > 0 && final(self).heaps.queue(
                id,
            ).last() == (RemoteFree { run, ptr }),
    {
        proof {
            reveal(SharedHeap::lists_grow);
        }
        match self.mark_block(run, ptr) {
            Ok(()) => {},
            Err(error) => return Err(error),
        }
        let ghost marked = *self;
        let free = RemoteFree { run, ptr };
        if self.queue_block(id, free) {
            proof {
                lemma_live_same(marked, *self);
            }
            return Ok(());
        }
        match self.drain_remote(id) {
            Ok(()) => {},
            Err(error) => return Err(error),
        }
        proof {
            lemma_still_pending(marked, *self, id, free);
        }
        let ghost drained = *self;
        if self.queue_block(id, free) {
            Ok(())
        } else {
            Err(HeapError::InvalidMetadata)
        }
    }
}

/// Nothing to see but the queues: the same blocks are live.
proof fn lemma_live_same(before: SharedHeap, after: SharedHeap)
    requires
        after.runs_only(before),
        after.runs == before.runs,
    ensures
        forall|addr: int| #[trigger] after.live(addr) == before.live(addr),
{
}

/// A block that no waiting free names is still on its way back after a drain.
proof fn lemma_still_pending(before: SharedHeap, after: SharedHeap, id: HeapId, free: RemoteFree)
    requires
        before.wf(),
        after.wf(),
        message_ok(before.runs@, free),
        forall|h: int, k: int|
            0 <= h < before.heaps.heaps@.len() && 0 <= k < before.heaps.heaps@[h].queue@.len()
                ==> (#[trigger] before.heaps.heaps@[h].queue@[k]) != free,
        only_returned(before.runs@, after.runs@),
        only_named(before.runs@, after.runs@, before.heaps.queue(id)),
        after.heaps.queue(id).len() == 0,
        after.heaps.active(id) == before.heaps.active(id),
        before.heaps.active(id) ==> after.heaps.others_same(before.heaps, id.spec_index()),
        !before.heaps.active(id) ==> after.heaps == before.heaps,
    ensures
        message_ok(after.runs@, free),
        forall|h: int, k: int|
            0 <= h < after.heaps.heaps@.len() && 0 <= k < after.heaps.heaps@[h].queue@.len()
                ==> (#[trigger] after.heaps.heaps@[h].queue@[k]) != free,
{
    let r = free.run as int;
    let run = before.runs@[r];
    assert(run_ok(before.runs@, before.pages@, r));
    run.lemma_found(free.ptr as int);
    let i = run.block_of(free.ptr as int)->0;
    assert(after.runs@[r].same_shape(run));
    if after.runs@[r].states@[i] != run.states@[i] {
        let queue = before.heaps.queue(id);
        let k = choose|k: int| 0 <= k < queue.len() && #[trigger] names(before.runs@, queue[k], r, i);
        run.lemma_found(queue[k].ptr as int);
        assert(queue[k] == free);
        assert(before.heaps.heaps@[id.spec_index()].queue@[k] == free);
    }
    assert forall|h: int, k: int|
        0 <= h < after.heaps.heaps@.len() && 0 <= k
            < after.heaps.heaps@[h].queue@.len() implies (
    #[trigger] after.heaps.heaps@[h].queue@[k]) != free by {
        if before.heaps.active(id) && h == id.spec_index() {
            assert(after.heaps.queue(id).len() == 0);
        } else {
            assert(before.heaps.heaps@[h].queue@[k] != free);
        }
    }
}

/// Without an extent, its block is not live and everything else is.
proof fn lemma_extent_freed(before: SharedHeap, after: SharedHeap, id: ExtentId, ptr: usize)
    requires
        before.wf(),
        id.index > 0,
        before.extents.extents.holds(id),
        before.extents.extents.extent(id).base == ptr,
        after.runs == before.runs,
        after.pages@ == without_owner(
            before.pages@,
            before.extents.extents.extent(id).mapping->0.spec_range(),
        ),
        after.extents.extents.slots.others_same(before.extents.extents.slots, id.spec_index()),
    ensures
        forall|addr: int| #[trigger] after.live(addr) == (before.live(addr) && addr != ptr),
        after.owner_at(ptr as int) is None,
        blocks_kept(before, after),
{
    let index = id.spec_index();
    let slots = before.extents.extents.slots.slots@;
    let range = before.extents.extents.extent(id).mapping->0.spec_range();
    assert(slots[index] is Held);
    assert(slot_ok(slots, before.pages@, index));
    let extent = before.extents.extents.extent(id);
    assert(extent.wf());
    assert forall|addr: int| #[trigger] after.live(addr) == (before.live(addr) && addr != ptr) by {
        let page = page_of(addr) as usize;
        if 0 <= addr <= usize::MAX && before.pages@.contains_key(page) {
            assert(page_ok(slots, before.pages@, page));
            assert(run_page_ok(before.runs@, before.pages@, page));
            if covers(range, page as int) {
                assert(before.pages@[page] == crate::extent::allocator::owner_of(index));
            } else {
                if let PageOwner::Extent { heap, extent: other } = before.pages@[page] {
                    assert(other != index);
                    assert(after.extents.extents.slots.slots@[other as int] == slots[other as int]);
                    if addr == ptr {
                        assert(covers(range, page as int)) by {
                            lemma_inside(range, ptr as int);
                        }
                    }
                }
                if addr == ptr {
                    lemma_inside(range, ptr as int);
                }
            }
        }
        if addr == ptr && 0 <= addr <= usize::MAX {
            lemma_inside(range, ptr as int);
        }
    }
    lemma_inside(range, ptr as int);
    reveal(blocks_kept);
    assert forall|addr: int|
        #![trigger before.live(addr)]
        #![trigger after.live(addr)]
        before.live(addr) && after.live(addr) implies after.owner_at(addr) == before.owner_at(addr)
        && after.block_len(addr) == before.block_len(addr) by {
        let page = page_of(addr) as usize;
        assert(before.pages@.contains_key(page));
        assert(page_ok(slots, before.pages@, page));
        if let PageOwner::Extent { heap, extent: other } = before.pages@[page] {
            if other == index {
                assert(covers(range, page as int));
            } else {
                assert(after.extents.extents.slots.slots@[other as int] == slots[other as int]);
            }
        }
    }
}

/// The page of an address in a range is one of the range's pages.
proof fn lemma_inside(range: AddressRange, addr: int)
    requires
        range.base <= addr < range.base + range.len,
    ensures
        covers(range, page_of(addr)),
{
    vstd::arithmetic::div_mod::lemma_div_is_ordered(range.base as int, addr, 4096);
    vstd::arithmetic::div_mod::lemma_div_is_ordered(addr, range.base + range.len - 1, 4096);
}

/// An address whose page is owned by an extent belongs to an extent that is held.
proof fn lemma_extent_at(heap: SharedHeap, addr: int, extent: u32)
    requires
        heap.wf(),
        heap.owner_at(addr) matches Some(PageOwner::Extent { extent: there, .. }) && there
            == extent,
    ensures
        extent < u32::MAX,
        heap.extents.extents.slots.holds(extent as int),
{
    let page = page_of(addr) as usize;
    assert(page_ok(heap.extents.extents.slots.slots@, heap.pages@, page));
}

/// An address whose page is owned by a run belongs to a run that exists.
proof fn lemma_run_at(heap: SharedHeap, addr: int, run: u32)
    requires
        heap.wf(),
        heap.owner_at(addr) matches Some(PageOwner::Run { run: there, .. }) && there == run,
    ensures
        run < heap.runs@.len(),
        heap.runs@[run as int].wf(),
{
    let page = page_of(addr) as usize;
    assert(run_page_ok(heap.runs@, heap.pages@, page));
    assert(run_ok(heap.runs@, heap.pages@, run as int));
}

impl SharedHeap {
    /// What freeing `ptr` answers a thread that holds the heap `current`.
    pub open spec fn answer(self, ptr: usize, current: Option<HeapId>) -> Result<(), HeapError> {
        if ptr == 0 {
            Ok(())
        } else {
            match self.owner_at(ptr as int) {
                None => Err(HeapError::UnknownPointer),
                Some(PageOwner::Run { run, .. }) => match self.runs@[run as int].freed(ptr as int) {
                    Err(error) => Err(run_error_of(error)),
                    Ok(()) => match self.runs@[run as int].owner {
                        RunOwner::Shared => Ok(()),
                        RunOwner::Thread(id) => if current == Some(id) || self.heaps.active(id) {
                            Ok(())
                        } else {
                            Err(HeapError::InvalidMetadata)
                        },
                    },
                },
                Some(PageOwner::Extent { extent, .. }) => if self.extents.extents.slots.value(
                    extent as int,
                ).base == ptr {
                    Ok(())
                } else {
                    Err(HeapError::InvalidExtentPointer)
                },
            }
        }
    }

    /// Free the block at `ptr`. A block of another thread's run waits for that thread.
    pub fn dealloc(&mut self, ptr: usize, current: Option<HeapId>) -> (freed: Result<
        (),
        HeapError,
    >)
        requires
            old(self).wf(),
        ensures
            final(self).lists_grow(*old(self)),
            freed is Ok && ptr != 0 ==> (old(self).owner_at(ptr as int) matches Some(
                PageOwner::Run { run, .. },
            ) ==> (old(self).runs@[run as int].owner == RunOwner::Shared && (old(self).runs@[run as int].full()
                || old(self).is_listed(run as usize)) ==> final(self).is_listed(run as usize)
                && !final(self).runs@[run as int].full())),
            final(self).wf(),
            final(self).same_settings(*old(self)),
            final(self).os.grant == old(self).os.grant,
            freed == old(self).answer(ptr, current),
            freed is Ok ==> forall|addr: int| #[trigger]
                final(self).live(addr) == (old(self).live(addr) && addr != ptr),
            freed is Err && freed != Err::<(), HeapError>(HeapError::InvalidMetadata)
                ==> forall|addr: int| #[trigger] final(self).live(addr) == old(self).live(addr),
            freed == Err::<(), HeapError>(HeapError::InvalidMetadata) ==> forall|addr: int|
             #[trigger] final(self).live(addr) == (old(self).live(addr) && addr != ptr),
            old(self).gave_up(ptr, old(self).os.effects@, final(self).os.effects@),
            final(self).os.effects@ == if freed is Ok && ptr != 0 {
                old(self).os.effects@ + old(self).leaving(ptr)
            } else {
                old(self).os.effects@
            },
            blocks_kept(*old(self), *final(self)),
            shapes_same(old(self).runs@, final(self).runs@),
            final(self).pages@ == old(self).pages_without(ptr, freed is Ok),
            freed is Err ==> final(self).extents == old(self).extents,
            forall|addr: int|
                (old(self).owner_at(addr) matches Some(PageOwner::Run { .. }))
                    ==> #[trigger] final(self).owner_at(addr) == old(self).owner_at(addr),
            !(old(self).owner_at(ptr as int) matches Some(PageOwner::Run { .. })) || ptr == 0
                ==> final(self).runs == old(self).runs && final(self).heaps == old(self).heaps,
            freed is Ok && ptr != 0 ==> (old(self).owner_at(ptr as int) matches Some(
                PageOwner::Extent { .. },
            ) ==> final(self).owner_at(ptr as int) is None),
            freed is Ok && ptr != 0 ==> (old(self).owner_at(ptr as int) matches Some(
                PageOwner::Run { run, .. },
            ) ==> (old(self).runs@[run as int].owner matches RunOwner::Thread(id) ==> current
                != Some(id) ==> final(self).heaps.queue(id).len() > 0 && final(self).heaps.queue(id).last() == (RemoteFree { run: run as usize, ptr }))),
    {
        proof {
            reveal(SharedHeap::lists_grow);
        }
        let ghost before = *self;
        if ptr == 0 {
            proof {
                lemma_null_is_not_live(*self);
                lemma_blocks_kept(before, before);
            }
            return Ok(());
        }
        let entry = match self.pages.get(ptr) {
            Some(entry) => entry,
            None => {
                proof {
                    lemma_blocks_kept(before, before);
                }
                return Err(HeapError::UnknownPointer);
            },
        };
        match entry {
            PageOwner::Run { run, .. } => {
                proof {
                    lemma_run_at(*self, ptr as int, run);
                }
                let run: usize = run as usize;
                let freed = match self.runs[run].owner {
                    RunOwner::Shared => {
                        let was_full = self.runs[run].is_full();
                        match self.free_block(run, ptr) {
                            Ok(()) => {
                                if matches!(self.run_policy, RunPolicy::Discard)
                                    && self.runs[run].is_empty() {
                                    let ghost middle = *self;
                                    let range = self.runs[run].range();
                                    let _zeroed = self.os.discard(range);
                                    proof {
                                        lemma_same_pages(middle, *self);
                                        assert(self.os.effects@ =~= before.os.effects@
                                            + before.leaving(ptr));
                                    }
                                }
                                if was_full {
                                    let ghost middle = *self;
                                    assert(self.runs@[run as int].same_shape(
                                        before.runs@[run as int],
                                    ));
                                    self.push_shared_available(run);
                                    proof {
                                        lemma_live_same(middle, *self);
                                    }
                                }
                                Ok(())
                            },
                            Err(error) => Err(error),
                        }
                    },
                    RunOwner::Thread(id) => {
                        let own = match current {
                            Some(held) => held == id,
                            None => false,
                        };
                        if own {
                            match self.drain_remote(id) {
                                Ok(()) => {},
                                Err(error) => return Err(error),
                            }
                            proof {
                                lemma_freed_same(before, *self, run as int, ptr as int);
                            }
                            let ghost middle = *self;
                            let freed = self.free_block(run, ptr);
                            proof {
                                lemma_shapes_trans(before.runs@, middle.runs@, self.runs@);
                            }
                            freed
                        } else {
                            self.enqueue_remote_free(id, run, ptr)
                        }
                    },
                };
                proof {
                    lemma_blocks_kept(before, *self);
                    assert(before.os.effects@ + Seq::<Effect>::empty() =~= before.os.effects@);
                    assert(freed is Ok ==> self.os.effects@ =~= before.os.effects@
                        + before.leaving(ptr));
                    assert(before.gave_up(ptr, before.os.effects@, self.os.effects@)) by {
                        let range = before.runs@[run as int].spec_range();
                        assert(before.os.effects@ + seq![Effect::Discard(range)]
                            =~= before.os.effects@.push(Effect::Discard(range)));
                    }
                }
                freed
            },
            PageOwner::Extent { extent, .. } => {
                proof {
                    lemma_extent_at(*self, ptr as int, extent);
                }
                match ExtentId::from_index(extent) {
                    Some(id) => {
                        let freed = self.extents.free(id, ptr, &mut self.pages, &mut self.os);
                        proof {
                            lemma_runs_kept(self.runs@, before.pages@, self.pages@);
                            if freed is Ok {
                                lemma_extent_freed(before, *self, id, ptr);
                                let range = before.extents.extents.extent(
                                    id,
                                ).mapping->0.spec_range();
                                let was = before.os.effects@;
                                assert(was + Seq::<Effect>::empty() =~= was);
                                assert(was + seq![Effect::Unmap(range)] =~= was.push(
                                    Effect::Unmap(range),
                                ));
                                assert(was + seq![Effect::Discard(range)] =~= was.push(
                                    Effect::Discard(range),
                                ));
                            } else {
                                lemma_same_pages(before, *self);
                                lemma_blocks_kept(before, *self);
                            }
                        }
                        match freed {
                            Ok(()) => Ok(()),
                            Err(error) => Err(HeapError::from(error)),
                        }
                    },
                    None => Err(HeapError::InvalidMetadata),
                }
            },
        }
    }
}

/// The same runs and extents under equal page maps: the same blocks are live.
proof fn lemma_same_pages(before: SharedHeap, after: SharedHeap)
    requires
        after.pages@ == before.pages@,
        after.runs == before.runs,
        after.extents == before.extents,
    ensures
        forall|addr: int| #[trigger] after.live(addr) == before.live(addr),
{
}

/// Nothing is live at address zero.
proof fn lemma_null_is_not_live(heap: SharedHeap)
    requires
        heap.wf(),
    ensures
        !heap.live(0),
{
    let page = page_of(0) as usize;
    if heap.pages@.contains_key(page) {
        assert(run_page_ok(heap.runs@, heap.pages@, page));
        assert(page_ok(heap.extents.extents.slots.slots@, heap.pages@, page));
        match heap.pages@[page] {
            PageOwner::Run { heap: _, run } => {
                assert(run_ok(heap.runs@, heap.pages@, run as int));
            },
            PageOwner::Extent { heap: _, extent } => {
                let slots = heap.extents.extents.slots.slots@;
                assert(slots[extent as int] is Held);
                assert(slot_ok(slots, heap.pages@, extent as int));
                assert(slots[extent as int]->Held_0.wf());
            },
        }
    }
}

/// Returning blocks on their way back does not change what freeing another block answers.
proof fn lemma_freed_same(before: SharedHeap, after: SharedHeap, r: int, ptr: int)
    requires
        before.wf(),
        0 <= r < before.runs@.len(),
        only_returned(before.runs@, after.runs@),
    ensures
        after.runs@[r].freed(ptr) == before.runs@[r].freed(ptr),
{
    assert(after.runs@[r].same_shape(before.runs@[r]));
    assert(run_ok(before.runs@, before.pages@, r));
    if before.runs@[r].block_of(ptr) is Some {
        before.runs@[r].lemma_found(ptr);
        let i = before.runs@[r].block_of(ptr)->0;
        let there = after.runs@[r].states@[i];
    }
}

proof fn lemma_shapes_trans(
    before: Seq<SharedRun>,
    middle: Seq<SharedRun>,
    after: Seq<SharedRun>,
)
    requires
        shapes_same(before, middle),
        shapes_same(middle, after),
    ensures
        shapes_same(before, after),
{
    assert forall|r: int| 0 <= r < before.len() implies (#[trigger] after[r]).same_shape(
        before[r],
    ) by {
        assert(middle[r].same_shape(before[r]));
    }
}

impl SharedHeap {
    /// Whether the block at `ptr` stays where it is for another layout.
    pub open spec fn stays(self, ptr: usize, spec: LayoutSpec) -> Result<bool, HeapError> {
        match self.owner_at(ptr as int) {
            None => Err(HeapError::UnknownPointer),
            Some(PageOwner::Run { run, .. }) => match self.runs@[run as int].freed(ptr as int) {
                Err(error) => Err(run_error_of(error)),
                Ok(()) => Ok(self.runs@[run as int].fits(spec)),
            },
            Some(PageOwner::Extent { extent, .. }) => match self.extents.extents.slots.value(
                extent as int,
            ).resized(ptr, spec) {
                Ok(fits) => Ok(fits),
                Err(_) => Err(HeapError::InvalidExtentPointer),
            },
        }
    }

    /// A fresh block for a layout, or zero.
    pub open spec fn given(
        self,
        before: SharedHeap,
        spec: LayoutSpec,
        ptr: usize,
    ) -> bool {
        &&& ptr != 0 <==> before.can_serve(spec)
        &&& ptr != 0 ==> !before.live(ptr as int) && ptr as int % spec.align as int == 0
            && self.block_len(ptr as int) >= spec.size && self.block_len(ptr as int) == block_size(
            spec,
        ) && self.placed_for(spec, ptr as int)
        &&& ptr == 0 ==> self.asked(before, spec)
        &&& ptr == 0 ==> self.pages@ == before.pages@ && self.runs == before.runs
        &&& !small(spec) ==> self.runs == before.runs
        &&& self.grown(before)
        &&& self.gained(before, before.offered(spec))
        &&& self.heaps == before.heaps
        &&& forall|addr: int| #[trigger]
            self.live(addr) == (before.live(addr) || (ptr != 0 && addr == ptr))
    }

    /// Try to serve another layout from the block at `ptr`.
    fn resize_in_place(&mut self, entry: PageOwner, ptr: usize, spec: LayoutSpec) -> (stays: Result<
        bool,
        HeapError,
    >)
        requires
            old(self).wf(),
            spec.wf(),
            ptr != 0,
            old(self).owner_at(ptr as int) == Some(entry),
        ensures
            final(self).wf(),
            stays == old(self).stays(ptr, spec),
            final(self).heaps == old(self).heaps,
            final(self).runs == old(self).runs,
            final(self).pages == old(self).pages,
            final(self).os == old(self).os,
            final(self).same_settings(*old(self)),
            final(self).available == old(self).available,
            stays != Ok::<bool, HeapError>(true) ==> final(self).extents.extents.slots.slots@
                == old(self).extents.extents.slots.slots@,
            final(self).extents.mapping_cache == old(self).extents.mapping_cache,
            final(self).extents.extents.slots.released == old(self).extents.extents.slots.released,
            final(self).extents.extents.slots.capacity == old(self).extents.extents.slots.capacity,
            forall|addr: int| #[trigger] final(self).live(addr) == old(self).live(addr),
            stays == Ok::<bool, HeapError>(true) ==> final(self).resized_only(*old(self), ptr),
            stays == Ok::<bool, HeapError>(true) ==> final(self).block_len(ptr as int)
                >= spec.size && ptr as int % spec.align as int == 0,
    {
        let ghost before = *self;
        match entry {
            PageOwner::Run { run, .. } => {
                proof {
                    lemma_run_at(*self, ptr as int, run);
                    let here = self.runs@[run as int];
                    lemma_class_bounds(here.class.index as int);
                    if here.freed(ptr as int) is Ok && here.fits(spec) {
                        here.lemma_found(ptr as int);
                        lemma_stepped_aligned(
                            here.base as int,
                            here.block_of(ptr as int)->0,
                            here.class.size as int,
                            spec.align as int,
                        );
                    }
                }
                match self.runs[run as usize].resize_in_place(ptr, spec) {
                    Ok(fits) => Ok(fits),
                    Err(error) => Err(HeapError::from(error)),
                }
            },
            PageOwner::Extent { extent, .. } => {
                proof {
                    lemma_extent_at(*self, ptr as int, extent);
                }
                match ExtentId::from_index(extent) {
                    Some(id) => {
                        let stays = self.extents.resize_in_place(id, ptr, spec, &self.pages);
                        proof {
                            assert forall|addr: int| #[trigger]
                                self.live(addr) == before.live(addr) by {
                                if let Some(PageOwner::Extent { heap, extent: other }) =
                                    before.owner_at(addr) {
                                    lemma_extent_at(before, addr, other);
                                    assert(self.extents.extents.slots.holds(other as int));
                                }
                            }
                            assert forall|addr: int| #[trigger]
                                before.live(addr) && addr != ptr && stays == Ok::<
                                    bool,
                                    ExtentAllocatorError,
                                >(true) implies self.block_len(addr) == before.block_len(addr) by {
                                if let Some(PageOwner::Extent { heap, extent: other }) =
                                    before.owner_at(addr) {
                                    lemma_extent_at(before, addr, other);
                                    assert(other != extent);
                                }
                            }
                        }
                        match stays {
                            Ok(fits) => Ok(fits),
                            Err(error) => Err(HeapError::from(error)),
                        }
                    },
                    None => Err(HeapError::InvalidMetadata),
                }
            },
        }
    }

    /// Allocate a block for a layout. Zero when there is none.
    pub fn alloc_layout(&mut self, layout: Layout) -> (ptr: usize)
        requires
            old(self).wf(),
            layout.wf(),
        ensures
            final(self).wf(),
            final(self).given(*old(self), LayoutSpec::of(layout), ptr),
            ptr != 0 ==> final(self).os.effects == old(self).os.effects,
            ptr == 0 ==> gave_back(
                old(self).offered(LayoutSpec::of(layout)),
                old(self).os.effects@,
                final(self).os.effects@,
            ),
            blocks_kept(*old(self), *final(self)),
    {
        let spec = LayoutSpec::from_layout(layout);
        match self.allocate(spec) {
            Some(allocation) => allocation.ptr,
            None => 0,
        }
    }

    /// Allocate a block whose bytes are zero: a block that was used before is cleared.
    pub fn alloc_zeroed(&mut self, layout: Layout) -> (ptr: usize)
        requires
            old(self).wf(),
            layout.wf(),
        ensures
            final(self).wf(),
            final(self).given(*old(self), LayoutSpec::of(layout), ptr),
            ptr != 0 ==> {
                let spec = LayoutSpec::of(layout);
                if !small(spec) && old(self).extents.mapping_cache.exact(
                    spec.spec_mapping_len(4096) as usize,
                ) is None {
                    final(self).os.effects == old(self).os.effects
                } else {
                    final(self).os.effects@ == old(self).os.effects@.push(
                        Effect::Zero(AddressRange { base: ptr, len: layout.size }),
                    )
                }
            },
            ptr == 0 ==> gave_back(
                old(self).offered(LayoutSpec::of(layout)),
                old(self).os.effects@,
                final(self).os.effects@,
            ),
            blocks_kept(*old(self), *final(self)),
    {
        let ghost before = *self;
        let spec = LayoutSpec::from_layout(layout);
        match self.allocate(spec) {
            Some(allocation) => {
                let ghost middle = *self;
                let ptr: usize = allocation.ptr;
                if allocation.zero_status == ZeroStatus::NeedsZeroing {
                    self.os.zero(ptr, layout.size);
                }
                proof {
                    lemma_same_pages(middle, *self);
                    reveal(blocks_kept);
                }
                ptr
            },
            None => 0,
        }
    }

    /// Move or keep the block at `ptr` so that it holds `new_size` bytes.
    pub fn realloc(&mut self, ptr: usize, layout: Layout, new_size: usize) -> (moved: Result<
        usize,
        HeapError,
    >)
        requires
            old(self).wf(),
            layout.wf(),
        ensures
            final(self).wf(),
            moved != Ok::<usize, HeapError>(ptr) || ptr == 0 ==> blocks_kept(
                *old(self),
                *final(self),
            ),
            ({
                let fits_type = valid_layout(new_size as int, layout.align as int);
                let spec = LayoutSpec::of(Layout { size: new_size, align: layout.align });
                let same = final(self).pages@ == old(self).pages@ && final(self).runs == old(self).runs
                    && final(self).heaps == old(self).heaps && forall|addr: int| #[trigger]
                    final(self).live(addr) == old(self).live(addr);
                let was = old(self).os.effects@;
                let now = final(self).os.effects@;
                let len = if layout.size < new_size {
                    layout.size
                } else {
                    new_size
                };
                if ptr == 0 {
                    if fits_type {
                        moved matches Ok(new) && final(self).given(*old(self), spec, new) && if new
                            == 0 {
                            gave_back(old(self).offered(spec), was, now)
                        } else {
                            now == was
                        }
                    } else {
                        moved == Ok::<usize, HeapError>(0) && same && now == was
                    }
                } else if new_size == 0 {
                    old(self).gave_up(ptr, was, now) && match old(self).answer(ptr, None) {
                        Ok(()) => moved == Ok::<usize, HeapError>(0) && forall|addr: int| #[trigger]
                            final(self).live(addr) == (old(self).live(addr) && addr != ptr),
                        Err(error) => moved == Err::<usize, HeapError>(error) && now == was
                            && final(self).pages@ == old(self).pages@,
                    }
                } else if old(self).owner_at(ptr as int) is None {
                    moved == Err::<usize, HeapError>(HeapError::UnknownPointer) && same && now
                        == was
                } else if !fits_type {
                    moved == Ok::<usize, HeapError>(0) && same && now == was
                } else {
                    match old(self).stays(ptr, spec) {
                        Err(error) => moved == Err::<usize, HeapError>(error) && same && now == was,
                        Ok(true) => moved == Ok::<usize, HeapError>(ptr) && same && now == was
                            && final(self).resized_only(*old(self), ptr)
                            && final(self).block_len(ptr as int) >= spec.size,
                        Ok(false) => if !old(self).can_serve(spec) {
                            moved == Ok::<usize, HeapError>(0) && same && gave_back(
                                old(self).offered(spec),
                                was,
                                now,
                            )
                        } else {
                            match old(self).answer(ptr, None) {
                                Err(error) => moved == Err::<usize, HeapError>(error)
                                    && final(self).undone(*old(self), ptr, len),
                                Ok(()) => moved matches Ok(new) && new != 0 && new != ptr
                                    && !old(self).live(new as int) && new as int % layout.align as int
                                    == 0 && final(self).block_len(new as int) >= spec.size
                                    && final(self).placed_for(spec, new as int) && (forall|addr: int| #[trigger]
                                    final(self).live(addr) == (addr == new || (old(self).live(addr)
                                        && addr != ptr))) && old(self).gave_up(
                                    ptr,
                                    was.push(Effect::Copy { from: ptr, to: new, len }),
                                    now,
                                ),
                            }
                        },
                    }
                }
            }),
    {
        let ghost before = *self;
        proof {
            lemma_blocks_kept(before, before);
        }
        if ptr == 0 {
            let spec = match LayoutSpec::from_size_align(new_size, layout.align) {
                Some(spec) => spec,
                None => return Ok(0),
            };
            return match self.allocate(spec) {
                Some(allocation) => Ok(allocation.ptr),
                None => Ok(0),
            };
        }
        if new_size == 0 {
            return match self.dealloc(ptr, None) {
                Ok(()) => Ok(0),
                Err(error) => Err(error),
            };
        }
        let entry = match self.pages.get(ptr) {
            Some(entry) => entry,
            None => return Err(HeapError::UnknownPointer),
        };
        let new_layout = match Layout::from_size_align(new_size, layout.align) {
            Some(new_layout) => new_layout,
            None => return Ok(0),
        };
        let spec = LayoutSpec::from_layout(new_layout);
        let stays = self.resize_in_place(entry, ptr, spec);
        let ghost tried = *self;
        proof {
            if stays != Ok::<bool, HeapError>(true) {
                lemma_tried(before, tried, spec);
                lemma_blocks_kept(before, tried);
            }
        }
        match stays {
            Ok(true) => return Ok(ptr),
            Ok(false) => {},
            Err(error) => return Err(error),
        }
        let allocation = self.allocate(spec);
        proof {
            lemma_blocks_kept_trans(before, tried, *self);
        }
        let new: usize = match allocation {
            Some(allocation) => allocation.ptr,
            None => return Ok(0),
        };
        let len: usize = if layout.size < new_size {
            layout.size
        } else {
            new_size
        };
        let ghost allocated = *self;
        self.os.copy(ptr, new, len);
        proof {
            lemma_same_pages(allocated, *self);
            lemma_stays_live(before, ptr, spec);
            lemma_answer_kept(before, tried, *self, ptr);
            lemma_blocks_kept(allocated, *self);
            lemma_blocks_kept_trans(before, allocated, *self);
            if let Some(PageOwner::Extent { heap, extent }) = before.owner_at(ptr as int) {
                lemma_extent_at(before, ptr as int, extent);
                assert(tried.extents.extents.slots.holds(extent as int));
            }
        }
        let ghost copied = *self;
        let freed = self.dealloc(ptr, None);
        let ghost left = *self;
        proof {
            lemma_blocks_kept_trans(before, copied, left);
        }
        match freed {
            Ok(()) => {
                proof {
                    assert(copied.live(new as int));
                    assert(left.live(new as int));
                    assert(left.block_len(new as int) == copied.block_len(new as int)) by {
                        reveal(blocks_kept);
                    }
                    assert(copied.owner_at(ptr as int) == before.owner_at(ptr as int)) by {
                        assert(before.pages@.contains_key(page_of(ptr as int) as usize));
                    }
                    assert(copied.os.effects@ == before.os.effects@.push(
                        Effect::Copy { from: ptr, to: new, len },
                    ));
                    if let Some(PageOwner::Run { run, .. }) = before.owner_at(ptr as int) {
                        lemma_run_at(before, ptr as int, run);
                        assert(copied.runs@[run as int].base == before.runs@[run as int].base);
                    }
                    assert(before.gave_up(ptr, copied.os.effects@, left.os.effects@));
                    assert(left.owner_at(new as int) == copied.owner_at(new as int)) by {
                        reveal(blocks_kept);
                    }
                    assert(left.placed_for(spec, new as int)) by {
                        if let Some(PageOwner::Run { heap, run }) = copied.owner_at(new as int) {
                            assert(left.runs@[run as int].same_shape(copied.runs@[run as int]));
                        }
                    }
                }
                Ok(new)
            },
            Err(error) => {
                let _undone = self.dealloc(new, None);
                proof {
                    lemma_blocks_kept_trans(before, left, *self);
                    assert(copied_over(before.os.effects@, self.os.effects@, ptr, new, len)) by {
                        assert(left.os.effects@ == copied.os.effects@);
                        let now = self.os.effects@;
                        if now != left.os.effects@ {
                            assert(now.drop_last() =~= left.os.effects@);
                        }
                    }
                    assert(self.undone(before, ptr, len));
                }
                Err(error)
            },
        }
    }
}

/// A live block that lies where its layout is served from is freed by any thread.
pub proof fn law_placed_block_can_be_freed(
    heap: SharedHeap,
    spec: LayoutSpec,
    ptr: usize,
    current: Option<HeapId>,
)
    requires
        heap.wf(),
        heap.live(ptr as int),
        heap.placed_for(spec, ptr as int),
    ensures
        heap.answer(ptr, current) == Ok::<(), HeapError>(()),
{
}

/// A small block that is not live answers a free and a resize with a double free, for as
/// long as it is not handed out again. What was freed stays so through requests that serve
/// other blocks: those keep its page and its run.
pub proof fn law_freed_small_block_is_double_free(
    heap: SharedHeap,
    spec: LayoutSpec,
    other: LayoutSpec,
    ptr: usize,
    current: Option<HeapId>,
)
    requires
        heap.wf(),
        ptr != 0,
        small(spec),
        heap.placed_for(spec, ptr as int),
        !heap.live(ptr as int),
    ensures
        heap.answer(ptr, current) == Err::<(), HeapError>(HeapError::DoubleFree),
        heap.stays(ptr, other) == Err::<bool, HeapError>(HeapError::DoubleFree),
{
}

/// A block stays where its layout is served from while pages and runs are kept.
pub proof fn law_placed_block_stays(
    before: SharedHeap,
    after: SharedHeap,
    spec: LayoutSpec,
    ptr: usize,
)
    requires
        small(spec),
        before.placed_for(spec, ptr as int),
        after.owner_at(ptr as int) == before.owner_at(ptr as int),
        before.runs@.len() <= after.runs@.len(),
        forall|r: int|
            0 <= r < before.runs@.len() ==> (#[trigger] after.runs@[r]).same_shape(before.runs@[r]),
    ensures
        after.placed_for(spec, ptr as int),
{
}

/// A try that did not resize changes nothing that matters for the next allocation.
proof fn lemma_tried(before: SharedHeap, after: SharedHeap, spec: LayoutSpec)
    requires
        after.runs == before.runs,
        after.pages == before.pages,
        after.os == before.os,
        after.available == before.available,
        after.same_settings(before),
        after.extents.extents.slots.slots@ == before.extents.extents.slots.slots@,
        after.extents.mapping_cache == before.extents.mapping_cache,
        after.extents.extents.slots.capacity == before.extents.extents.slots.capacity,
        after.extents.extents.slots.released@ == before.extents.extents.slots.released@,
    ensures
        after.can_serve(spec) == before.can_serve(spec),
{
}

/// A block that could stay or move is live.
proof fn lemma_stays_live(heap: SharedHeap, ptr: usize, spec: LayoutSpec)
    requires
        heap.wf(),
        heap.stays(ptr, spec) is Ok,
    ensures
        heap.live(ptr as int),
{
}

/// A live block that stays in place through an allocation is freed as before.
proof fn lemma_answer_kept(before: SharedHeap, tried: SharedHeap, after: SharedHeap, ptr: usize)
    requires
        before.wf(),
        after.wf(),
        ptr != 0,
        before.live(ptr as int),
        tried.runs == before.runs,
        tried.pages == before.pages,
        after.grown(tried),
        after.heaps == before.heaps,
        after.live(ptr as int),
    ensures
        after.answer(ptr, None) == before.answer(ptr, None),
{
    let page = page_of(ptr as int) as usize;
    assert(before.pages@.contains_key(page));
    match before.pages@[page] {
        PageOwner::Run { heap: _, run } => {
            lemma_run_at(before, ptr as int, run);
            assert(after.runs@[run as int].same_shape(before.runs@[run as int]));
        },
        PageOwner::Extent { heap: _, extent } => {},
    }
}

/// Same blocks in every run, whoever owns them.
pub open spec fn blocks_same(before: Seq<SharedRun>, after: Seq<SharedRun>) -> bool {
    before.len() == after.len() && forall|r: int|
        0 <= r < before.len() ==> (#[trigger] after[r]) == (SharedRun {
            owner: after[r].owner,
            ..before[r]
        })
}

/// Handing a thread's run to all threads keeps the heap sound.
proof fn lemma_owner_changed(before: SharedHeap, after: SharedHeap, r: int)
    requires
        before.wf(),
        0 <= r < before.runs@.len(),
        before.runs@[r].owner != RunOwner::Shared,
        after.runs@ == before.runs@.update(
            r,
            SharedRun { owner: RunOwner::Shared, ..before.runs@[r] },
        ),
        after.runs_only(before),
        after.heaps == before.heaps,
        after.available == before.available,
    ensures
        after.wf(),
        blocks_same(before.runs@, after.runs@),
        forall|addr: int| #[trigger] after.live(addr) == before.live(addr),
{
    assert forall|i: int| 0 <= i < after.runs@.len() implies #[trigger] run_ok(
        after.runs@,
        after.pages@,
        i,
    ) by {
        assert(run_ok(before.runs@, before.pages@, i));
    }
    assert forall|page: usize| #[trigger] after.pages@.contains_key(page) implies run_page_ok(
        after.runs@,
        after.pages@,
        page,
    ) by {
        assert(run_page_ok(before.runs@, before.pages@, page));
    }
    assert forall|class: int, k: int|
        0 <= class < COUNT && 0 <= k < after.available@[class]@.len() implies listed(
        after.runs@,
        class,
        #[trigger] after.available@[class]@[k],
    ) by {
        assert(listed(before.runs@, class, before.available@[class]@[k]));
    }
    assert forall|h: int, k: int|
        0 <= h < after.heaps.heaps@.len() && 0 <= k
            < after.heaps.heaps@[h].queue@.len() implies message_ok(
        after.runs@,
        #[trigger] after.heaps.heaps@[h].queue@[k],
    ) by {
        assert(message_ok(before.runs@, before.heaps.heaps@[h].queue@[k]));
    }
    assert forall|addr: int| #[trigger] after.live(addr) == before.live(addr) by {
        if let Some(PageOwner::Run { heap, run }) = before.owner_at(addr) {
            lemma_run_at(before, addr, run);
        }
    }
}

impl SharedHeap {
    /// A thread gives its heap back: what waits for it is drained, and its runs become
    /// shared.
    pub fn retire_local_heap(&mut self, id: HeapId)
        requires
            old(self).wf(),
        ensures
            final(self).wf(),
            final(self).runs_only(*old(self)),
            !final(self).heaps.active(id),
            final(self).runs@.len() == old(self).runs@.len(),
            forall|r: int|
                0 <= r < old(self).runs@.len() ==> (#[trigger] final(self).runs@[r]).base
                    == old(self).runs@[r].base && final(self).runs@[r].class
                    == old(self).runs@[r].class,
            blocks_kept(*old(self), *final(self)),
            old(self).heaps.active(id) ==> forall|k: int|
                0 <= k < old(self).heaps.heaps@[id.spec_index()].runs@.len() ==> final(self).runs@[#[trigger] old(self).heaps.heaps@[id.spec_index()].runs@[k] as int].owner
                    != RunOwner::Thread(id),
            forall|r: int|
                0 <= r < old(self).runs@.len() ==> (#[trigger] final(self).runs@[r]).owner
                    == old(self).runs@[r].owner || (old(self).runs@[r].owner == RunOwner::Thread(id)
                    && final(self).runs@[r].owner == RunOwner::Shared),
            forall|k: int|
                0 <= k < old(self).heaps.queue(id).len() ==> is_back(
                    final(self).runs@,
                    #[trigger] old(self).heaps.queue(id)[k],
                ),
            forall|addr: int| #[trigger] final(self).live(addr) == old(self).live(addr),
    {
        let ghost before = *self;
        let _drained = self.drain_remote(id);
        let ghost drained = *self;
        let runs = self.heaps.release(id);
        proof {
            lemma_released(drained, *self, id, runs@);
            lemma_live_same(drained, *self);
        }
        let ghost queue = before.heaps.queue(id);
        let mut k: usize = 0;
        while k < runs.len()
            invariant
                k <= runs@.len(),
                self.wf(),
                self.runs_only(before),
                self.runs_only(drained),
                !self.heaps.active(id),
                forall|j: int| 0 <= j < runs@.len() ==> #[trigger] runs@[j] < self.runs@.len(),
                forall|j: int|
                    0 <= j < k ==> self.runs@[#[trigger] runs@[j] as int].owner
                        != RunOwner::Thread(id),
                blocks_same(drained.runs@, self.runs@),
                forall|r: int|
                    0 <= r < drained.runs@.len() ==> (#[trigger] self.runs@[r]).owner
                        == drained.runs@[r].owner || (drained.runs@[r].owner == RunOwner::Thread(id)
                        && self.runs@[r].owner == RunOwner::Shared),
                forall|addr: int| #[trigger] self.live(addr) == before.live(addr),
            decreases runs@.len() - k,
        {
            let run: usize = runs[k];
            let ghost start = *self;
            assert(run_ok(self.runs@, self.pages@, run as int));
            if self.runs[run].owner == RunOwner::Thread(id) {
                self.runs[run].assign_owner(RunOwner::Shared);
                proof {
                    assert(self.runs@ =~= start.runs@.update(
                        run as int,
                        SharedRun { owner: RunOwner::Shared, ..start.runs@[run as int] },
                    ));
                    lemma_owner_changed(start, *self, run as int);
                    assert(run_ok(self.runs@, self.pages@, run as int));
                }
                let ghost changed = *self;
                if !self.runs[run].is_full() {
                    self.push_shared_available(run);
                    proof {
                        lemma_live_same(changed, *self);
                    }
                }
                proof {
                    assert forall|j: int| 0 <= j < k + 1 implies self.runs@[#[trigger] runs@[j] as int].owner
                        != RunOwner::Thread(id) by {
                        if j < k {
                            assert(start.runs@[runs@[j] as int].owner != RunOwner::Thread(id));
                        }
                    }
                    assert forall|r: int| 0 <= r < drained.runs@.len() implies (
                    #[trigger] self.runs@[r]) == (SharedRun {
                        owner: self.runs@[r].owner,
                        ..drained.runs@[r]
                    }) by {
                        assert(start.runs@[r] == (SharedRun {
                            owner: start.runs@[r].owner,
                            ..drained.runs@[r]
                        }));
                    }
                }
            }
            k = k + 1;
        }
        proof {
            assert forall|r: int| 0 <= r < before.runs@.len() implies (
            #[trigger] self.runs@[r]).owner == before.runs@[r].owner || (before.runs@[r].owner
                == RunOwner::Thread(id) && self.runs@[r].owner == RunOwner::Shared) by {
                assert(drained.runs@[r].same_shape(before.runs@[r]));
            }
            assert forall|j: int| 0 <= j < queue.len() implies is_back(
                self.runs@,
                #[trigger] queue[j],
            ) by {
                assert(is_back(drained.runs@, queue[j]));
                let r = queue[j].run as int;
                assert(self.runs@[r] == (SharedRun {
                    owner: self.runs@[r].owner,
                    ..drained.runs@[r]
                }));
            }
            assert forall|r: int| 0 <= r < before.runs@.len() implies (
            #[trigger] self.runs@[r]).class == before.runs@[r].class && self.runs@[r].base
                == before.runs@[r].base by {
                assert(drained.runs@[r].same_shape(before.runs@[r]));
            }
            lemma_blocks_kept(before, *self);
        }
    }
}

/// Giving a heap back leaves the queues of the others.
proof fn lemma_released(before: SharedHeap, after: SharedHeap, id: HeapId, runs: Seq<usize>)
    requires
        before.wf(),
        before.heaps.queue(id).len() == 0,
        after.runs_only(before),
        after.runs == before.runs,
        after.available == before.available,
        after.heaps.wf(),
        before.heaps.active(id) ==> runs == before.heaps.heaps@[id.spec_index()].runs@
            && after.heaps.others_same(before.heaps, id.spec_index())
            && after.heaps.heaps@[id.spec_index()].queue@.len() == 0
            && after.heaps.heaps@[id.spec_index()].runs@.len() == 0,
        !before.heaps.active(id) ==> runs.len() == 0 && after.heaps == before.heaps,
    ensures
        after.wf(),
        forall|j: int| 0 <= j < runs.len() ==> #[trigger] runs[j] < after.runs@.len(),
{
    if before.heaps.active(id) {
        let at = id.spec_index();
        let old_heaps = before.heaps.heaps@;
        let heaps = after.heaps.heaps@;
        assert forall|j: int| 0 <= j < runs.len() implies #[trigger] runs[j] < after.runs@.len() by {
            assert(old_heaps[at].runs@[j] < before.runs@.len());
        }
        assert forall|h: int, k: int|
            0 <= h < heaps.len() && 0 <= k < heaps[h].queue@.len() implies message_ok(
            after.runs@,
            #[trigger] heaps[h].queue@[k],
        ) by {
            assert(h != at);
            assert(message_ok(before.runs@, old_heaps[h].queue@[k]));
        }
        assert forall|h: int, k: int, g: int, j: int|
            0 <= h < heaps.len() && 0 <= k < heaps[h].queue@.len() && 0 <= g < heaps.len() && 0
                <= j < heaps[g].queue@.len() && (h != g || k
                != j) implies #[trigger] heaps[h].queue@[k] != #[trigger] heaps[g].queue@[j] by {
            assert(old_heaps[h].queue@[k] != old_heaps[g].queue@[j]);
        }
        assert forall|h: int, k: int|
            0 <= h < heaps.len() && 0 <= k
                < heaps[h].runs@.len() implies #[trigger] heaps[h].runs@[k] < after.runs@.len() by {
            assert(h != at);
            assert(old_heaps[h].runs@[k] < before.runs@.len());
        }
    }
}

/// Blocks that are held share no byte.
pub proof fn law_live_blocks_share_no_byte(heap: SharedHeap, left: int, right: int)
    requires
        heap.wf(),
        heap.live(left),
        heap.live(right),
        left < right,
    ensures
        left + heap.block_len(left) <= right,
{
    lemma_held_range(heap, left);
    lemma_held_range(heap, right);
    let left_owner = heap.owner_at(left)->0;
    let right_owner = heap.owner_at(right)->0;
    let left_range = lemma_owner_range(heap, left);
    let right_range = lemma_owner_range(heap, right);
    if left_owner != right_owner {
        crate::memory::law_owners_share_no_byte(
            heap.pages@,
            left_range,
            left_owner,
            right_range,
            right_owner,
        );
    } else if let PageOwner::Run { heap: _, run } = left_owner {
        let here = heap.runs@[run as int];
        lemma_run_at(heap, left, run);
        here.lemma_found(left);
        here.lemma_found(right);
        let i = here.block_of(left)->0;
        let j = here.block_of(right)->0;
        let size = here.class.size as int;
        lemma_class_bounds(here.class.index as int);
        assert(i < j) by (nonlinear_arith)
            requires
                i * size < j * size,
                size > 0,
        ;
        assert(i * size + size <= j * size) by (nonlinear_arith)
            requires
                i + 1 <= j,
                size > 0,
        ;
    }
}

/// A held block lies in the range of its owner.
proof fn lemma_held_range(heap: SharedHeap, addr: int)
    requires
        heap.wf(),
        heap.live(addr),
    ensures
        heap.owner_at(addr) is Some,
        heap.block_len(addr) > 0,
{
    match heap.owner_at(addr)->0 {
        PageOwner::Run { heap: _, run } => {
            lemma_run_at(heap, addr, run);
            lemma_class_bounds(heap.runs@[run as int].class.index as int);
        },
        PageOwner::Extent { heap: _, extent } => {
            lemma_extent_at(heap, addr, extent);
            let slots = heap.extents.extents.slots.slots@;
            assert(slots[extent as int]->Held_0.wf());
            assert(slot_ok(slots, heap.pages@, extent as int));
        },
    }
}

/// The range that the owner of a held block owns, which holds the whole block.
proof fn lemma_owner_range(heap: SharedHeap, addr: int) -> (range: AddressRange)
    requires
        heap.wf(),
        heap.live(addr),
    ensures
        range.wf(),
        owned(heap.pages@, range, heap.owner_at(addr)->0),
        range.base <= addr,
        addr + heap.block_len(addr) <= range.base + range.len,
{
    let page = page_of(addr) as usize;
    match heap.owner_at(addr)->0 {
        PageOwner::Run { heap: _, run } => {
            lemma_run_at(heap, addr, run);
            assert(run_page_ok(heap.runs@, heap.pages@, page));
            assert(run_ok(heap.runs@, heap.pages@, run as int));
            let here = heap.runs@[run as int];
            here.lemma_found(addr);
            here.lemma_block(here.block_of(addr)->0);
            here.spec_range()
        },
        PageOwner::Extent { heap: _, extent } => {
            lemma_extent_at(heap, addr, extent);
            let slots = heap.extents.extents.slots.slots@;
            assert(page_ok(slots, heap.pages@, page));
            let held = slots[extent as int]->Held_0;
            assert(held.wf());
            assert(slot_ok(slots, heap.pages@, extent as int));
            held.mapping->0.spec_range()
        },
    }
}

} // verus!
