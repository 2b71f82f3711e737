use runic::config::{AllocatorConfig, Hints};
use runic::heap::error::HeapError;
use runic::heap::id::HeapId;
use runic::heap::inbox::Inbox;
use runic::heap::run::arena::{ArenaError, ArenaReservation, RunArena};
use runic::heap::run::config::{RunConfig, RunPolicy};
use runic::heap::run::heap::RunHeap;
use runic::heap::run::{
    Accept, BlockIndex, ClaimBits, Run, RunError, RunFree, RunId, MAP_RUNS, RUN_SIZE, RUN_SPACE,
};
use runic::heap::Heap;
use runic::layout::{Layout, LayoutSpec};
use runic::memory::{AddressRange, Effect, Os, PageMap, PageOwner};
use runic::process::Process;
use runic::size_class::{SizeClass, SizeClasses, COUNT};

const PAGE_SIZE: usize = 4096;

const BASE: usize = 0x4000_0000;

fn layout_spec(size: usize, align: usize) -> LayoutSpec {
    LayoutSpec::from_layout(Layout::from_size_align(size, align).unwrap())
}

fn class_id(size: usize, align: usize) -> SizeClass {
    SizeClasses::class_for(layout_spec(size, align)).unwrap()
}

fn alloc_block(run: &mut Run) -> Option<usize> {
    if let Some(ptr) = run.allocate() {
        return Some(ptr);
    }
    run.extend();
    run.allocate()
}

/// A run directory with the system under it.
struct Runs {
    heap: RunHeap,
    pages: PageMap,
    os: Os,
    next: usize,
}

impl Runs {
    fn new(config: RunConfig) -> Self {
        Self {
            heap: RunHeap::new(config, Hints::new()),
            pages: PageMap::new(),
            os: Os::new(true),
            next: BASE,
        }
    }

    fn acquire(&mut self, class: SizeClass) -> u32 {
        if let Some(slot) = self.heap.acquire(class, 0, &mut self.pages, &mut self.os) {
            return slot;
        }
        let wanted = self.os.wanted.unwrap();
        assert_eq!(wanted.align, RUN_SIZE);
        assert_eq!(wanted.len, MAP_RUNS * RUN_SPACE);
        assert!(self.os.grant(self.next, wanted.len));
        self.next += wanted.len;
        self.heap
            .acquire(class, 0, &mut self.pages, &mut self.os)
            .unwrap()
    }

    fn run(&mut self, slot: u32) -> &mut Run {
        self.heap.runs.get_mut(slot).unwrap()
    }
}

/// A checked-out run of one class.
fn run_with(class: SizeClass, policy: RunPolicy) -> Run {
    let mut runs = Runs::new(RunConfig::new().with_policy(policy));
    let slot = runs.acquire(class);
    runs.heap.runs.remove(slot).unwrap()
}

fn run_of(size: usize, align: usize) -> Run {
    run_with(class_id(size, align), RunPolicy::Keep)
}

/// One heap with the system under it.
struct Bench {
    heap: Heap,
    pages: PageMap,
    os: Os,
    next: usize,
}

impl Bench {
    fn new() -> Self {
        Self {
            heap: Heap::new(HeapId::new(0, 1).unwrap(), AllocatorConfig::new()),
            pages: PageMap::new(),
            os: Os::new(true),
            next: BASE,
        }
    }

    fn acquire(&mut self, class: SizeClass) -> u32 {
        if let Some(slot) = self.heap.acquire_run(class, &mut self.pages, &mut self.os) {
            return slot;
        }
        let wanted = self.os.wanted.unwrap();
        assert!(self.os.grant(self.next, wanted.len));
        self.next += wanted.len;
        self.heap
            .acquire_run(class, &mut self.pages, &mut self.os)
            .unwrap()
    }

    fn allocate(&mut self, slot: u32) -> usize {
        if let Some(ptr) = self.heap.allocate_run(slot, &self.pages) {
            return ptr;
        }
        assert!(self.heap.extend_run(slot, &self.pages));
        self.heap.allocate_run(slot, &self.pages).unwrap()
    }

    fn alloc_block(&mut self, class: SizeClass) -> (u32, usize) {
        let slot = self.acquire(class);
        let ptr = self.allocate(slot);
        if !self.heap.inner.runs.runs.get(slot).unwrap().is_full() {
            assert_eq!(self.heap.push_available(slot, &self.pages), Ok(()));
        }
        (slot, ptr)
    }

    fn available(&self, class: SizeClass) -> Option<u32> {
        self.heap.inner.runs.available[class.index()]
    }
}

#[test]
fn run_heap_relinks_previously_full_run_after_free() {
    let mut bench = Bench::new();
    let class = class_id(64, 8);
    let (_slot, first) = bench.alloc_block(class);
    let Some(PageOwner::Run { run: slot, .. }) = bench.pages.get(first) else {
        panic!("small allocation should publish a run entry");
    };

    for _ in 1..RUN_SIZE / class.size() {
        bench.alloc_block(class);
    }

    assert_eq!(bench.available(class), None);
    assert_eq!(
        bench.heap.free_run(slot, first, &bench.pages),
        Ok(RunFree::Available)
    );
    assert_eq!(bench.heap.push_available(slot, &bench.pages), Ok(()));
    assert_eq!(bench.available(class), Some(slot));

    let (_slot, reused) = bench.alloc_block(class);

    assert_eq!(reused, first);
    assert_eq!(bench.available(class), None);
}

#[test]
fn failed_run_page_publication_leaves_range_reusable() {
    let class = class_id(64, 8);
    // Occupy the range first; `insert_run` must fail closed rather than steal it.
    let mut occupant = Runs::new(RunConfig::new());
    let taken = occupant.acquire(class);
    let base = occupant.run(taken).range().base();
    let mut pages = occupant.pages;

    let mut heap = RunHeap::new(RunConfig::new(), Hints::new());
    let index = heap.runs.vacant().unwrap();
    let id = RunId::from_index(index).unwrap();
    let run = Run::new(id, 1, base, class, RunPolicy::Keep).unwrap();
    assert!(heap.insert_run(run, 1, &mut pages).is_none());

    assert!(heap.runs.get(index).is_none());
    assert_eq!(
        pages.get(base),
        Some(PageOwner::Run { heap: 0, run: taken })
    );
}

#[test]
fn push_available_is_idempotent_and_keeps_tail() {
    let mut bench = Bench::new();
    let class = class_id(64, 8);

    let run_a = bench.acquire(class);
    let run_b = bench.acquire(class);
    assert_ne!(run_a, run_b);

    assert_eq!(bench.heap.push_available(run_a, &bench.pages), Ok(()));
    assert_eq!(bench.heap.push_available(run_b, &bench.pages), Ok(()));
    assert_eq!(bench.heap.push_available(run_a, &bench.pages), Ok(()));

    assert_eq!(bench.acquire(class), run_b);
    assert_eq!(bench.acquire(class), run_a);
    assert_eq!(bench.available(class), None);
}

#[test]
fn push_available_returns_stranded_current() {
    let mut bench = Bench::new();
    let class = class_id(64, 8);

    let slot = bench.acquire(class);
    let ptr = bench.allocate(slot);
    assert_eq!(
        bench.heap.free_run(slot, ptr, &bench.pages),
        Ok(RunFree::Unchanged)
    );
    assert_eq!(bench.available(class), None);

    assert_eq!(bench.heap.push_available(slot, &bench.pages), Ok(()));
    assert_eq!(bench.available(class), Some(slot));

    let (_slot, reused) = bench.alloc_block(class);
    assert_eq!(reused, ptr);
}

#[test]
fn publish_run_covers_payload_not_claim_tail() {
    let mut runs = Runs::new(RunConfig::new());
    let slot = runs.acquire(class_id(64, 8));
    let base = runs.run(slot).range().base();
    assert!(runs.pages.get(base).is_some());
    let tail = base + RUN_SIZE;
    assert!(runs.pages.get(tail).is_none());
}

#[test]
fn sixteen_runs_share_one_map() {
    let mut runs = Runs::new(RunConfig::new());
    let class = class_id(64, 8);
    for _ in 0..MAP_RUNS {
        runs.acquire(class);
    }
    assert_eq!(runs.heap.maps.occupied().len(), 1);
    runs.acquire(class);
    assert_eq!(runs.heap.maps.occupied().len(), 2);
}

#[test]
fn pushing_a_missing_run_is_refused() {
    let mut bench = Bench::new();
    assert_eq!(
        bench.heap.push_available(7, &bench.pages),
        Err(HeapError::InvalidMetadata)
    );
}

#[test]
fn run_equality_is_identity() {
    let mut runs = Runs::new(RunConfig::new());
    let class = class_id(64, 8);
    let first = runs.acquire(class);
    let second = runs.acquire(class);
    let ptr = alloc_block(runs.run(first)).unwrap();
    let id = runs.run(first).id();

    assert!(id == runs.run(first).id());
    assert!(id != runs.run(second).id());
    let mut process = Process::new(AllocatorConfig::new(), true);
    process.pages = runs.pages;
    assert_eq!(
        process.header_of(ptr),
        Some(PageOwner::Run { heap: 0, run: first })
    );
}

#[test]
fn header_of_rejects_zeroed_unused_map_slot() {
    let mut runs = Runs::new(RunConfig::new());
    let slot = runs.acquire(class_id(64, 8));
    let unused = runs.run(slot).range().base() + RUN_SPACE;
    let mut process = Process::new(AllocatorConfig::new(), true);
    process.pages = runs.pages;

    assert!(process.header_of(unused).is_none());
}

#[test]
fn reusable_run_takes_each_block_once() {
    let class = class_id(64, 8);
    let mut run = run_with(class, RunPolicy::Keep);
    let capacity = RUN_SIZE / class.size();
    let mut seen = vec![false; capacity];

    for _ in 0..capacity {
        let ptr = alloc_block(&mut run).unwrap();
        let block = run.locate(ptr).unwrap();
        let index = block.index().get();

        assert!(!seen[index]);
        assert!(index < capacity);
        assert!(ptr >= run.range().base());
        assert!(ptr < run.range().base() + RUN_SIZE);
        seen[index] = true;
    }

    assert!(run.allocate().is_none());
    assert!(seen.into_iter().all(|value| value));
}

#[test]
fn extend_threads_fresh_blocks_onto_freelist() {
    let class = class_id(64, 8);
    let mut run = run_with(class, RunPolicy::Keep);
    assert!(run.allocate().is_none());
    assert!(run.extend());
    let first = run.allocate().unwrap();
    assert_eq!(first, run.range().base());
    let page_worth = PAGE_SIZE / class.size();
    for _ in 1..page_worth.max(32) {
        assert!(run.allocate().is_some());
    }
    assert!(run.allocate().is_none());
    assert!(run.extend());
    assert!(run.allocate().is_some());
}

#[test]
fn reusable_run_reuses_returned_block() {
    let mut run = run_of(128, 8);

    let ptr = alloc_block(&mut run).unwrap();

    assert!(run.free(ptr).is_ok());

    assert_eq!(run.allocate(), Some(ptr));
}

#[test]
fn reusable_run_resizes_block_in_place_for_same_class_layout() {
    let mut run = run_of(64, 8);
    let new = layout_spec(64, 8);
    let ptr = alloc_block(&mut run).unwrap();

    assert_eq!(run.resize_in_place(ptr, new), Ok(true));
}

#[test]
fn reusable_run_rejects_allocated_block_that_needs_larger_class() {
    let mut run = run_of(64, 8);
    let new = layout_spec(80, 8);
    let ptr = alloc_block(&mut run).unwrap();

    assert_eq!(run.resize_in_place(ptr, new), Ok(false));
}

#[test]
fn recip_matches_index_of_for_all_classes() {
    for index in 0..COUNT {
        let class = SizeClasses::at(index);
        let size = class.size();
        let stride = u32::try_from(size).unwrap();
        let recip = Run::recip(stride).unwrap();
        let span = (RUN_SIZE / size) * size;
        for offset in 0..span {
            let product = (offset as u64).wrapping_mul(u64::from(recip));
            let divisible = (product & u64::from(u32::MAX)) < u64::from(recip);
            assert_eq!(divisible, offset % size == 0);
            let index = product >> 32;
            let ok = index.wrapping_mul(size as u64) == offset as u64;
            assert_eq!(ok, divisible);
            let found = if ok { Some(index as usize) } else { None };
            assert_eq!(found, class.index_of(offset));
        }
    }
}

#[test]
fn reusable_run_rejects_interior_pointer() {
    let mut run = run_of(64, 8);
    let ptr = alloc_block(&mut run).unwrap();
    let interior = ptr + 1;

    assert_eq!(run.locate(interior), Err(RunError::InvalidPointer));
}

#[test]
fn reusable_run_locate_covers_all_classes_boundaries_and_tail_slack() {
    for index in 0..COUNT {
        let size = SizeClasses::at(index).size();
        let mut run = run_of(size, 8);
        let capacity = RUN_SIZE / size;

        let first = alloc_block(&mut run).unwrap();
        assert!(run.locate(first).is_ok());
        assert_eq!(run.locate(first + 1), Err(RunError::InvalidPointer));

        let slack_offset = capacity * size;
        if slack_offset < RUN_SIZE {
            let slack = run.range().base() + slack_offset;
            assert_eq!(run.locate(slack), Err(RunError::OutOfRange));
        }
    }
}

#[test]
fn reusable_run_rejects_interior_pointer_for_non_power_of_two_class() {
    let mut run = run_of(24, 8);
    let ptr = alloc_block(&mut run).unwrap();
    let interior = ptr + 1;

    assert!(run.locate(ptr).is_ok());
    assert_eq!(run.locate(interior), Err(RunError::InvalidPointer));
}

#[test]
fn reusable_run_round_trips_hotspot_non_power_of_two_classes() {
    for size in [80, 96] {
        let mut run = run_of(size, 8);
        let ptr = alloc_block(&mut run).unwrap();

        assert!(run.locate(ptr).is_ok());
        assert!(run.free(ptr).is_ok());
        assert_eq!(run.allocate(), Some(ptr));
    }
}

#[test]
fn reusable_run_rejects_claim_tail() {
    let run = run_of(64, 8);
    let claim_tail = run.range().base() + RUN_SIZE;

    assert_eq!(run.locate(claim_tail), Err(RunError::OutOfRange));
}

#[test]
fn reusable_run_rejects_foreign_run_same_offset() {
    let mut runs = Runs::new(RunConfig::new());
    let class = class_id(64, 8);
    let slot_a = runs.acquire(class);
    let slot_b = runs.acquire(class);
    let base_a = runs.run(slot_a).range().base();
    let base_b = runs.run(slot_b).range().base();
    let (Some(PageOwner::Run { run: run_a, .. }), Some(PageOwner::Run { run: run_b, .. })) =
        (runs.pages.get(base_a), runs.pages.get(base_b))
    else {
        panic!("expected two published runs");
    };
    let ptr = alloc_block(runs.run(run_b)).unwrap();

    assert!(runs.run(run_b).locate(ptr).is_ok());
    assert_eq!(runs.run(run_a).locate(ptr), Err(RunError::OutOfRange));
}

#[test]
fn reusable_run_rejects_aligned_tail_slack() {
    for size in [80, 96] {
        let class = class_id(size, 8);
        let run = run_with(class, RunPolicy::Keep);
        let capacity = RUN_SIZE / class.size();
        let slack_offset = capacity * class.size();
        assert!(slack_offset < RUN_SIZE);
        let slack = run.range().base() + slack_offset;

        assert_eq!(run.locate(slack), Err(RunError::OutOfRange));
    }
}

#[test]
fn claim_run_reports_duplicate_remote_free() {
    let mut run = run_of(64, 8);
    let ptr = alloc_block(&mut run).unwrap();

    assert_eq!(run.claim(ptr), Ok(()));
    assert_eq!(run.claim(ptr), Err(RunError::DoubleFree));
}

#[test]
fn claim_run_completes_to_reusable() {
    let mut run = run_of(64, 8);
    let mut os = Os::new(true);
    let ptr = alloc_block(&mut run).unwrap();

    assert_eq!(run.claim(ptr), Ok(()));
    assert_eq!(run.accept(&mut os), Accept::Done);
    assert_eq!(run.allocate(), Some(ptr));
}

#[test]
fn accept_without_any_claim_is_a_noop() {
    let mut run = run_of(64, 8);
    let mut os = Os::new(true);
    let ptr = alloc_block(&mut run).unwrap();
    assert_eq!(run.accept(&mut os), Accept::Done);
    // `ptr`'s block is still live (never claimed), so the next allocate is fresh.
    assert_ne!(alloc_block(&mut run).unwrap(), ptr);
}

#[test]
fn claim_accept_works_for_all_size_classes() {
    let mut os = Os::new(true);
    for index in 0..COUNT {
        let mut run = run_of(SizeClasses::at(index).size(), 8);
        let ptr = alloc_block(&mut run).unwrap();
        assert_eq!(run.claim(ptr), Ok(()));
        assert_eq!(run.accept(&mut os), Accept::Done);
        assert_eq!(run.allocate(), Some(ptr));
    }
}

#[test]
fn reusable_run_returns_aligned_blocks_for_alignment_sensitive_layout() {
    let class = class_id(17, 16);
    let mut run = run_with(class, RunPolicy::Keep);
    let capacity = RUN_SIZE / class.size();

    for _ in 0..capacity {
        let ptr = alloc_block(&mut run).unwrap();
        assert_eq!(ptr % 16, 0);
    }
}

#[test]
fn run_range_reports_payload_span() {
    let run = run_of(8, 8);
    let base = run.range().base();

    assert_eq!(run.range().base(), base);
    assert_eq!(run.range().len(), RUN_SIZE);
}

#[test]
fn try_queue_wins_once_until_cleared() {
    let mut run = run_of(64, 8);
    let mut os = Os::new(true);
    let a = alloc_block(&mut run).unwrap();
    let b = alloc_block(&mut run).unwrap();
    let mut inbox = Inbox::new();

    assert_eq!(run.claim(a), Ok(()));
    // First claim on an idle run wins the queue race and must push.
    assert!(inbox.queue(&mut run.link, 0));

    assert_eq!(run.claim(b), Ok(()));
    // A second claim while still queued must not push again.
    assert!(!inbox.queue(&mut run.link, 0));

    // accept coalesces both claims from the single queued entry.
    let _ = inbox.drain();
    assert_eq!(run.accept(&mut os), Accept::Done);
    assert_eq!(run.allocate(), Some(b));
    assert_eq!(run.allocate(), Some(a));

    // Cleared by accept: a fresh claim can queue again.
    assert_eq!(run.claim(a), Ok(()));
    assert!(inbox.queue(&mut run.link, 0));
}

#[test]
fn discarded_run_resets_then_extend_reuses() {
    let mut run = run_with(class_id(64, 8), RunPolicy::Discard);
    let mut os = Os::new(true);
    let ptr = alloc_block(&mut run).unwrap();
    assert_eq!(run.free(ptr), Ok(RunFree::Unchanged));
    assert!(run.is_discardable());
    run.discard(&mut os);
    assert!(!run.is_live());
    assert!(run.allocate().is_none());
    assert!(run.extend());
    assert!(run.allocate().is_some());
}

#[test]
fn keep_empty_run_leaves_freelist() {
    let mut run = run_of(64, 8);
    let ptr = alloc_block(&mut run).unwrap();
    assert_eq!(run.free(ptr), Ok(RunFree::Unchanged));
    assert!(!run.is_discardable());
    assert_eq!(run.allocate(), Some(ptr));
}

#[test]
fn discard_after_accept_resets() {
    let mut run = run_with(class_id(64, 8), RunPolicy::Discard);
    let mut os = Os::new(true);
    let ptr = alloc_block(&mut run).unwrap();
    assert_eq!(run.claim(ptr), Ok(()));
    assert_eq!(run.accept(&mut os), Accept::Done);
    assert!(!run.is_live());
    assert!(run.allocate().is_none());
    assert_eq!(run.claim(ptr), Err(RunError::DoubleFree));
    assert!(run.extend());
    assert!(run.allocate().is_some());
}

#[test]
fn discard_does_not_unmap_space() {
    let mut run = run_with(class_id(64, 8), RunPolicy::Discard);
    let mut os = Os::new(true);
    let base = run.range().base();
    let ptr = alloc_block(&mut run).unwrap();
    assert_eq!(run.free(ptr), Ok(RunFree::Unchanged));
    run.discard(&mut os);
    // The space stays mapped.
    assert_eq!(
        os.effects,
        [Effect::Discard(AddressRange::new(base, RUN_SIZE))]
    );
}

#[test]
fn freeing_what_is_no_block_is_reported() {
    let mut run = run_of(64, 8);
    let ptr = alloc_block(&mut run).unwrap();
    assert_eq!(run.free(ptr + 8), Err(RunError::InvalidPointer));
    assert_eq!(
        run.free(run.range().base() + RUN_SIZE),
        Err(RunError::OutOfRange)
    );
    assert!(run.is_live());
}

#[test]
fn claim_bits_remember_until_drained() {
    let mut claims = ClaimBits::new(130);
    assert_eq!(ClaimBits::word_count(130), 3);
    assert!(claims.try_set(BlockIndex::new(129)));
    assert!(!claims.try_set(BlockIndex::new(129)));
    assert!(claims.is_set(BlockIndex::new(129)));
    assert!(!claims.is_set(BlockIndex::new(128)));
    assert!(claims.any_set());
    assert_eq!(claims.drain_word(2), 2);
    assert!(!claims.any_set());
}

fn reusable_run(id: RunId) -> Run {
    let spec = LayoutSpec::from_size_align(64, 8).unwrap();
    let class = SizeClasses::class_for(spec).unwrap();

    Run::new(id, 0, BASE, class, RunPolicy::Keep).unwrap()
}

fn arena_with_capacity(capacity: usize) -> RunArena {
    RunArena::new(u32::try_from(capacity).unwrap())
}

#[test]
fn run_arena_zero_capacity_reserves_none() {
    let mut arena = RunArena::new(0);
    assert_eq!(arena.reserve(), None);
}

#[test]
fn run_arena_reserves_ids_from_zero() {
    let mut arena = arena_with_capacity(4);
    assert_eq!(arena.reserve().unwrap().id.index(), 0);
    assert_eq!(arena.reserve().unwrap().id.index(), 1);
}

#[test]
fn run_arena_respects_injected_capacity() {
    let mut arena = arena_with_capacity(2);
    assert_eq!(arena.reserve().unwrap().id.index(), 0);
    assert_eq!(arena.reserve().unwrap().id.index(), 1);
    assert_eq!(arena.reserve(), None);
}

#[test]
fn run_arena_release_makes_reserved_slot_available() {
    let mut arena = arena_with_capacity(4);
    let first = arena.reserve().unwrap();
    let second = arena.reserve().unwrap();

    arena.release(first);

    assert_eq!(second.id.index(), 1);
    for expected in 2..4 {
        assert_eq!(arena.reserve().unwrap().id.index(), expected);
    }
    assert_eq!(arena.reserve().unwrap().id, first.id);
}

#[test]
fn run_arena_insert_get_round_trip() {
    let mut arena = arena_with_capacity(4);
    let reservation = arena.reserve().unwrap();
    let run = reusable_run(reservation.id);
    let id = arena.insert(reservation, run).unwrap();
    assert_eq!(arena.get_mut(id).unwrap().id, id);

    let run = arena.remove(id).unwrap();
    assert_eq!(run.id, id);
}

#[test]
fn run_arena_rejects_occupied_slot() {
    let mut arena = arena_with_capacity(4);
    let reservation = arena.reserve().unwrap();
    let first = reusable_run(reservation.id);
    let second = reusable_run(reservation.id);

    let id = arena.insert(reservation, first).unwrap();
    assert_eq!(
        arena.insert(ArenaReservation { id }, second),
        Err(ArenaError::Occupied)
    );

    let _removed = arena.remove(id);
}

#[test]
fn run_arena_rejects_unreserved_insert() {
    let mut arena = arena_with_capacity(4);
    let id = RunId::from_index(0).unwrap();
    let run = reusable_run(id);
    assert_eq!(
        arena.insert(ArenaReservation { id }, run),
        Err(ArenaError::InvalidReservation)
    );
}

#[test]
fn run_arena_invalid_insert_releases_reservation() {
    let mut arena = arena_with_capacity(4);
    let reservation = arena.reserve().unwrap();
    let reserved_id = reservation.id;
    // A run with another id than the reservation.
    let wrong_id = RunId::from_index(reserved_id.index() + 1).unwrap();
    let wrong_run = reusable_run(wrong_id);
    assert_eq!(
        arena.insert(reservation, wrong_run),
        Err(ArenaError::InvalidReservation)
    );

    // The reservation was given back.
    for expected in 1..4 {
        assert_eq!(arena.reserve().unwrap().id.index(), expected);
    }
    assert_eq!(arena.reserve().unwrap().id, reserved_id);
}

#[test]
fn run_arena_get_mut_allows_run_mutation() {
    let mut arena = arena_with_capacity(4);
    let reservation = arena.reserve().unwrap();
    let run = reusable_run(reservation.id);
    let id = arena.insert(reservation, run).unwrap();
    let ptr = alloc_block(arena.get_mut(id).unwrap()).unwrap();

    assert!(arena.get_mut(id).unwrap().free(ptr).is_ok());

    let _removed = arena.remove(id);
}

#[test]
fn accepted_blocks_come_back_highest_first() {
    let mut run = run_of(64, 8);
    let mut os = Os::new(true);
    let blocks: Vec<usize> = (0..6).map(|_| alloc_block(&mut run).unwrap()).collect();
    for at in [1, 4, 2] {
        assert_eq!(run.claim(blocks[at]), Ok(()));
    }

    assert!(matches!(run.accept(&mut os), Accept::Done));
    let mut expected = vec![blocks[1], blocks[2], blocks[4]];
    expected.sort_unstable();
    expected.reverse();
    let given: Vec<usize> = (0..3).map(|_| run.allocate().unwrap()).collect();
    assert_eq!(given, expected);
    assert!(run.link.try_queue());
}
