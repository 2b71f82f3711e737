use runic::config::{AllocatorConfig, Budget};
use runic::heap::extent::config::{ExtentConfig, ExtentPolicy};
use runic::heap::id::HeapId;
use runic::heap::run::config::{RunConfig, RunPolicy};
use runic::heap::run::RUN_SIZE;
use runic::layout::{Layout, LayoutSpec};
use runic::memory::{AddressRange, Effect};
use runic::shared::heap::{HeapError, SharedHeap, DEFAULT_METADATA_CAPACITY};
use runic::shared::registry::REMOTE_CAPACITY;
use runic::shared::run::{BlockState, RunOwner};
use runic::size_class::{SizeClass, SizeClasses};

const RUN_BASE: usize = 0x100_0000;
const LARGE_BASE: usize = 0x2000_0000;

fn layout(size: usize, align: usize) -> Layout {
    Layout::from_size_align(size, align).unwrap()
}

fn class_of(layout: Layout) -> SizeClass {
    SizeClasses::class_for(LayoutSpec::from_layout(layout)).unwrap()
}

/// A heap whose system has a mapping for one run.
fn test_heap() -> SharedHeap {
    let mut heap = SharedHeap::with_capacity(4, AllocatorConfig::new(), true);
    assert!(heap.os.grant(RUN_BASE, RUN_SIZE));
    heap
}

/// A heap whose system has a mapping for one large layout.
fn large_heap(layout: Layout) -> SharedHeap {
    let mut heap = SharedHeap::with_capacity(4, AllocatorConfig::new(), true);
    let len = LayoutSpec::from_layout(layout).mapping_len(4096).unwrap();
    assert!(heap.os.grant(LARGE_BASE, len));
    heap
}

#[test]
fn heap_reports_small_double_free() {
    let mut heap = test_heap();
    let layout = layout(64, 8);
    let ptr = heap.alloc_layout(layout);

    assert_ne!(ptr, 0);
    assert_eq!(heap.dealloc(ptr, None), Ok(()));
    assert_eq!(heap.dealloc(ptr, None), Err(HeapError::DoubleFree));
}

#[test]
fn heap_reports_small_realloc_after_free() {
    let mut heap = test_heap();
    let layout = layout(64, 8);
    let ptr = heap.alloc_layout(layout);

    assert_ne!(ptr, 0);
    assert_eq!(heap.dealloc(ptr, None), Ok(()));
    assert_eq!(heap.realloc(ptr, layout, 128), Err(HeapError::DoubleFree));
}

#[test]
fn heap_reuses_freed_large_extent_mapping() {
    let layout = layout(256 * 1024, 4096);
    let mut heap = large_heap(layout);
    let first = heap.alloc_layout(layout);

    assert_ne!(first, 0);
    assert_eq!(heap.dealloc(first, None), Ok(()));

    let second = heap.alloc_layout(layout);
    assert_eq!(second, first);
    assert_eq!(heap.dealloc(second, None), Ok(()));
}

#[test]
fn heap_reports_large_double_free_as_unknown_pointer_after_caching() {
    let layout = layout(256 * 1024, 4096);
    let mut heap = large_heap(layout);
    let ptr = heap.alloc_layout(layout);

    assert_ne!(ptr, 0);
    assert_eq!(heap.dealloc(ptr, None), Ok(()));
    assert_eq!(heap.dealloc(ptr, None), Err(HeapError::UnknownPointer));
}

#[test]
fn heap_reports_large_realloc_after_free_as_unknown_pointer_after_caching() {
    let layout = layout(256 * 1024, 4096);
    let mut heap = large_heap(layout);
    let ptr = heap.alloc_layout(layout);

    assert_ne!(ptr, 0);
    assert_eq!(heap.dealloc(ptr, None), Ok(()));
    assert_eq!(
        heap.realloc(ptr, layout, 512 * 1024),
        Err(HeapError::UnknownPointer)
    );
}

#[test]
fn heap_realloc_keeps_same_run_block_for_same_size_class() {
    let mut heap = test_heap();
    let old = layout(49, 8);
    let ptr = heap.alloc_layout(old);

    assert_ne!(ptr, 0);
    let new_ptr = heap.realloc(ptr, old, 64).unwrap();

    assert_eq!(new_ptr, ptr);
    // No byte was moved or cleared.
    assert!(heap.os.effects.is_empty());
    assert_eq!(heap.dealloc(new_ptr, None), Ok(()));
}

#[test]
fn heap_realloc_keeps_extent_when_new_layout_fits() {
    let old = layout(256 * 1024, 4096);
    let mut heap = large_heap(old);
    let ptr = heap.alloc_layout(old);

    assert_ne!(ptr, 0);
    let new_ptr = heap.realloc(ptr, old, 128 * 1024).unwrap();

    assert_eq!(new_ptr, ptr);
    assert!(heap.os.effects.is_empty());
    assert_eq!(heap.dealloc(new_ptr, None), Ok(()));
}

#[test]
fn heap_realloc_grows_extent_within_published_page_range() {
    let old = layout(64 * 1024 - 1, 8);
    let mut heap = large_heap(old);
    let ptr = heap.alloc_layout(old);

    assert_ne!(ptr, 0);
    let new_ptr = heap.realloc(ptr, old, 64 * 1024).unwrap();

    assert_eq!(new_ptr, ptr);
    assert!(heap.os.effects.is_empty());
    assert_eq!(heap.dealloc(new_ptr, None), Ok(()));
}

#[test]
fn heap_zeroes_reused_run_block() {
    let mut heap = test_heap();
    let layout = layout(64, 8);
    let ptr = heap.alloc_layout(layout);

    assert_ne!(ptr, 0);
    assert_eq!(heap.dealloc(ptr, None), Ok(()));

    let zeroed = heap.alloc_zeroed(layout);
    assert_ne!(zeroed, 0);
    assert_eq!(
        heap.os.effects,
        [Effect::Zero(AddressRange::new(zeroed, layout.size()))]
    );

    assert_eq!(heap.dealloc(zeroed, None), Ok(()));
}

#[test]
fn heap_zeroes_reused_extent_mapping() {
    let layout = layout(256 * 1024, 4096);
    let mut heap = large_heap(layout);
    let ptr = heap.alloc_layout(layout);

    assert_ne!(ptr, 0);
    assert_eq!(heap.dealloc(ptr, None), Ok(()));

    let zeroed = heap.alloc_zeroed(layout);
    assert_eq!(zeroed, ptr);
    assert_eq!(
        heap.os.effects,
        [Effect::Zero(AddressRange::new(zeroed, layout.size()))]
    );

    assert_eq!(heap.dealloc(zeroed, None), Ok(()));
}

#[test]
fn heap_routes_remote_free_to_owner_inbox() {
    let mut heap = test_heap();
    let class = class_of(layout(64, 8));
    let heap_id = heap.acquire_heap_id().unwrap();
    let (run, allocation) = heap.refill_local(heap_id, class).unwrap();
    let ptr = allocation.ptr();

    assert_eq!(heap.dealloc(ptr, None), Ok(()));
    assert_eq!(heap.dealloc(ptr, None), Err(HeapError::DoubleFree));

    assert_eq!(heap.drain_remote(heap_id), Ok(()));
    assert_eq!(heap.runs[run].owner(), RunOwner::Thread(heap_id));
}

#[test]
fn heap_remote_drain_returns_block_to_owner_run() {
    let mut heap = test_heap();
    let class = class_of(layout(64, 8));
    let heap_id = heap.acquire_heap_id().unwrap();
    let (run, allocation) = heap.refill_local(heap_id, class).unwrap();
    let ptr = allocation.ptr();

    assert_eq!(heap.dealloc(ptr, None), Ok(()));
    assert_eq!(heap.drain_remote(heap_id), Ok(()));

    assert_eq!(heap.runs[run].allocate(), Some(ptr));
}

#[test]
fn heap_remote_queue_full_retry_does_not_drop_free() {
    let mut heap = test_heap();
    let class = class_of(layout(64, 8));
    let heap_id = heap.acquire_heap_id().unwrap();
    let (run, first) = heap.refill_local(heap_id, class).unwrap();
    let mut ptrs = [first.ptr(); 17];

    for ptr in ptrs.iter_mut().skip(1) {
        *ptr = heap.runs[run].allocate().unwrap();
    }

    for ptr in ptrs {
        assert_eq!(heap.dealloc(ptr, None), Ok(()));
    }

    assert_eq!(heap.drain_remote(heap_id), Ok(()));
    for block in 0..17 {
        assert_eq!(heap.runs[run].states[block], BlockState::Free);
    }
}

#[test]
fn heap_retirement_transfers_thread_runs_to_shared() {
    let mut heap = test_heap();
    let class = class_of(layout(64, 8));
    let heap_id = heap.acquire_heap_id().unwrap();
    let (run, allocation) = heap.refill_local(heap_id, class).unwrap();
    let ptr = allocation.ptr();

    heap.retire_local_heap(heap_id);

    assert_eq!(heap.runs[run].owner(), RunOwner::Shared);
    assert_eq!(heap.dealloc(ptr, None), Ok(()));
}

#[test]
fn owner_frees_at_once_and_drains_first() {
    let mut heap = test_heap();
    let class = class_of(layout(64, 8));
    let heap_id = heap.acquire_heap_id().unwrap();
    let (run, first) = heap.refill_local(heap_id, class).unwrap();
    let second = heap.runs[run].allocate().unwrap();
    assert_eq!(heap.dealloc(first.ptr(), None), Ok(()));
    assert_eq!(heap.runs[run].states[0], BlockState::Pending);
    assert_eq!(heap.dealloc(second, Some(heap_id)), Ok(()));
    assert_eq!(heap.runs[run].states[0], BlockState::Free);
    assert_eq!(heap.runs[run].states[1], BlockState::Free);
}

#[test]
fn realloc_moves_and_copies_what_fits() {
    let mut heap = test_heap();
    let old = layout(64, 8);
    let ptr = heap.alloc_layout(old);
    assert!(heap.os.grant(RUN_BASE + RUN_SIZE, RUN_SIZE));
    let moved = heap.realloc(ptr, old, 200).unwrap();
    assert_ne!(moved, ptr);
    assert_eq!(
        heap.os.effects,
        [Effect::Copy {
            from: ptr,
            to: moved,
            len: 64
        }]
    );
    assert_eq!(heap.dealloc(ptr, None), Err(HeapError::DoubleFree));
    assert_eq!(heap.realloc(moved, layout(200, 8), 0), Ok(0));
    assert_eq!(heap.dealloc(moved, None), Err(HeapError::DoubleFree));
}

#[test]
fn realloc_of_nothing_allocates() {
    let mut heap = test_heap();
    let ptr = heap.realloc(0, layout(8, 8), 24).unwrap();
    assert_ne!(ptr, 0);
    assert_eq!(heap.dealloc(ptr, None), Ok(()));
    assert_eq!(heap.dealloc(0, None), Ok(()));
    assert_eq!(heap.realloc(0, layout(8, 8), usize::MAX), Ok(0));
    assert_eq!(heap.realloc(ptr, layout(8, 8), usize::MAX), Ok(0));
}

#[test]
fn pointers_between_blocks_are_refused() {
    let mut heap = test_heap();
    let ptr = heap.alloc_layout(layout(64, 8));
    assert_eq!(heap.dealloc(ptr + 8, None), Err(HeapError::InvalidRunPointer));
    assert_eq!(heap.dealloc(0x7000_0000, None), Err(HeapError::UnknownPointer));
    let large = layout(256 * 1024, 4096);
    let mut heap = large_heap(large);
    let ptr = heap.alloc_layout(large);
    assert_eq!(
        heap.dealloc(ptr + 4096, None),
        Err(HeapError::InvalidExtentPointer)
    );
}

#[test]
fn frees_for_a_heap_that_is_gone_are_refused() {
    let mut heap = test_heap();
    let class = class_of(layout(64, 8));
    let stranger = HeapId::new(9, 1).unwrap();
    // The run is made before the unknown heap is noticed.
    assert!(heap.refill_local(stranger, class).is_none());
    let ptr = RUN_BASE;
    assert_eq!(heap.dealloc(ptr, None), Err(HeapError::InvalidMetadata));
}

#[test]
fn remote_frees_wait_in_order() {
    let mut heap = test_heap();
    let class = class_of(layout(64, 8));
    let heap_id = heap.acquire_heap_id().unwrap();
    let (run, first) = heap.refill_local(heap_id, class).unwrap();
    let second = heap.runs[run].allocate().unwrap();
    heap.dealloc(first.ptr(), None).unwrap();
    heap.dealloc(second, None).unwrap();
    assert_eq!(heap.heaps.pop_remote(heap_id).unwrap().ptr, first.ptr());
    assert_eq!(heap.heaps.pop_remote(heap_id).unwrap().ptr, second);
    assert!(heap.heaps.pop_remote(heap_id).is_none());
    assert_eq!(REMOTE_CAPACITY, 16);
}

#[test]
fn refused_realloc_leaves_the_block_and_its_bytes() {
    let mut heap = test_heap();
    let small = layout(64, 8);
    let ptr = heap.alloc_layout(small);
    assert_ne!(ptr, 0);
    let effects = heap.os.effects.len();

    assert_eq!(heap.realloc(ptr, small, 1 << 20), Ok(0));
    assert_eq!(heap.os.effects.len(), effects);
    assert_eq!(heap.dealloc(ptr, None), Ok(()));
}

#[test]
fn small_and_large_blocks_are_told_apart_after_they_were_freed() {
    let mut heap = test_heap();
    let small = layout(64, 8);
    let large = layout(256 * 1024, 4096);
    let p = heap.alloc_layout(small);
    let len = LayoutSpec::from_layout(large).mapping_len(4096).unwrap();
    assert!(heap.os.grant(LARGE_BASE, len));
    let q = heap.alloc_layout(large);
    assert!(p != 0 && q != 0);
    assert_eq!(heap.dealloc(p, None), Ok(()));
    assert_eq!(heap.dealloc(q, None), Ok(()));

    assert_eq!(heap.realloc(p, small, 128), Err(HeapError::DoubleFree));
    assert_eq!(heap.realloc(q, large, 128), Err(HeapError::UnknownPointer));
}

#[test]
fn new_heap_follows_its_configuration() {
    let config = AllocatorConfig::new();
    let heap = SharedHeap::with_config(config, false);
    assert_eq!(heap.run_capacity, DEFAULT_METADATA_CAPACITY);
    assert_eq!(heap.extents.mapping_cache.config, config.extent());
    assert_eq!(heap.run_policy, config.run().policy());
    assert!(heap.runs.is_empty() && heap.os.effects.is_empty() && !heap.os.discards);
}

#[test]
fn extent_policy_decides_what_happens_to_a_freed_mapping() {
    let asked = layout(256 * 1024, 4096);
    let len = LayoutSpec::from_layout(asked).mapping_len(4096).unwrap();
    let range = AddressRange::new(LARGE_BASE, len);
    for (policy, effects, reused) in [
        (ExtentPolicy::Keep, vec![], true),
        (ExtentPolicy::Discard, vec![Effect::Discard(range)], true),
        (ExtentPolicy::Unmap, vec![Effect::Unmap(range)], false),
    ] {
        let extent = ExtentConfig::new().with_policy(policy);
        let config = AllocatorConfig::new().with_extent_config(extent);
        let mut heap = SharedHeap::with_capacity(4, config, true);
        assert!(heap.os.grant(LARGE_BASE, len));
        let ptr = heap.alloc_layout(asked);
        assert_eq!(heap.dealloc(ptr, None), Ok(()));
        assert_eq!(heap.os.effects, effects);
        assert_eq!(heap.alloc_layout(asked), if reused { ptr } else { 0 });
    }
}

#[test]
fn extent_budget_decides_how_many_mappings_are_kept() {
    let asked = layout(256 * 1024, 4096);
    let len = LayoutSpec::from_layout(asked).mapping_len(4096).unwrap();
    let extent = ExtentConfig::new().with_budget(Budget::new(1, 64 * 1024 * 1024));
    let config = AllocatorConfig::new().with_extent_config(extent);
    let mut heap = SharedHeap::with_capacity(4, config, true);
    assert!(heap.os.grant(LARGE_BASE, len));
    let first = heap.alloc_layout(asked);
    assert!(heap.os.grant(2 * LARGE_BASE, len));
    let second = heap.alloc_layout(asked);
    assert_eq!(heap.dealloc(first, None), Ok(()));
    assert_eq!(heap.dealloc(second, None), Ok(()));
    assert_eq!(
        heap.os.effects,
        [Effect::Unmap(AddressRange::new(2 * LARGE_BASE, len))]
    );
    assert_eq!(heap.alloc_layout(asked), first);
}

#[test]
fn run_policy_drops_the_pages_of_an_empty_shared_run() {
    for (policy, dropped) in [(RunPolicy::Keep, false), (RunPolicy::Discard, true)] {
        let config = AllocatorConfig::new().with_run_config(RunConfig::new().with_policy(policy));
        let mut heap = SharedHeap::with_capacity(4, config, true);
        assert!(heap.os.grant(RUN_BASE, RUN_SIZE));
        let first = heap.alloc_layout(layout(64, 8));
        let second = heap.alloc_layout(layout(64, 8));
        assert_eq!(heap.dealloc(first, None), Ok(()));
        assert!(heap.os.effects.is_empty());
        assert_eq!(heap.dealloc(second, None), Ok(()));
        assert!(heap.runs[0].is_empty());
        let range = AddressRange::new(RUN_BASE, RUN_SIZE);
        assert_eq!(heap.os.effects, if dropped { vec![Effect::Discard(range)] } else { vec![] });
    }
}
