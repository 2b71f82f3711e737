use runic::allocator::Allocator;
use runic::config::AllocatorConfig;
use runic::heap::error::HeapError;
use runic::heap::extent::ExtentInit;
use runic::heap::id::HeapId;
use runic::heap::state::{HeapMode, HeapState, MAX_LEASES};
use runic::heap::Heap;
use runic::layout::{Layout, LayoutSpec};
use runic::memory::{Os, PageOwner};
use runic::process::Process;

const BASE: usize = 0x4000_0000;

fn process() -> Process {
    let mut installed = None;
    assert!(Allocator::new().init(&mut installed, Some(Os::new(true))));
    installed.unwrap()
}

fn acquire(process: &mut Process) -> (u32, HeapId) {
    let index = process.heaps.acquire(&process.pages).unwrap();
    (index, process.heaps.arena.get(index).unwrap().id())
}

fn heap(process: &mut Process, index: u32) -> &mut Heap {
    process.heaps.arena.get_mut(index).unwrap()
}

fn unbind(process: &mut Process, id: HeapId) {
    assert!(process
        .heaps
        .unbind(id, &mut process.pages, &mut process.os)
        .is_ok());
}

fn mapped_extent(process: &mut Process, index: u32, spec: LayoutSpec) -> usize {
    let len = spec.mapping_len(4096).unwrap();
    assert!(process.os.grant(BASE, len));
    process
        .heaps
        .arena
        .get_mut(index)
        .unwrap()
        .inner
        .extents
        .allocate(
            spec,
            index,
            &mut process.pages,
            ExtentInit::Uninit,
            &mut process.os,
        )
        .unwrap()
        .unwrap()
}

#[test]
fn init_needs_memory_and_happens_once() {
    let allocator = Allocator::new();
    let mut installed = None;
    assert!(!allocator.init(&mut installed, None));
    assert!(installed.is_none());
    assert!(allocator.init(&mut installed, Some(Os::new(false))));
    assert!(allocator.init(&mut installed, Some(Os::new(true))));
    assert!(!installed.unwrap().os.discards);
}

#[test]
fn acquire_unbind_reactivate_bumps_generation() {
    let mut process = process();
    let (_, first) = acquire(&mut process);
    assert_eq!(first.generation(), 1);
    unbind(&mut process, first);
    assert!(process.heaps.get(first).is_none());

    let (_, second) = acquire(&mut process);
    assert_eq!(second.index(), first.index());
    assert_eq!(second.generation(), 2);
    assert!(process.heaps.get(second).is_some());
    assert!(process.heaps.get(first).is_none());
}

#[test]
fn heaps_stale_heap_id_rejected_after_reclaim() {
    let mut process = process();
    let (_, id) = acquire(&mut process);
    unbind(&mut process, id);
    assert!(process.heaps.get(id).is_none());
}

#[test]
fn cached_extent_derives_reactivated_generation() {
    let mut process = process();
    let (index, first) = acquire(&mut process);
    let spec = LayoutSpec::from_layout(Layout::from_size_align(128 * 1024, 4096).unwrap());
    let ptr = mapped_extent(&mut process, index, spec);
    let Some(PageOwner::Extent { extent, .. }) = process.pages.get(ptr) else {
        panic!("expected extent owner");
    };
    process
        .heaps
        .arena
        .get_mut(index)
        .unwrap()
        .inner
        .extents
        .free(extent, ptr, index, &mut process.pages, &mut process.os)
        .unwrap();

    unbind(&mut process, first);
    let (again, second) = acquire(&mut process);
    assert_eq!(second.index(), first.index());
    assert_ne!(second.generation(), first.generation());
    let owner = heap(&mut process, again)
        .inner
        .extents
        .slot(extent)
        .unwrap()
        .heap();
    assert_eq!(heap(&mut process, owner).id(), second);
    unbind(&mut process, second);
}

#[test]
fn generation_exhaustion_permanently_retires_heap() {
    let mut process = process();
    let (index, id) = acquire(&mut process);
    heap(&mut process, index)
        .state
        .store(u32::MAX, HeapMode::Draining, 0);
    let id_max = HeapId::new(id.index(), u32::MAX).unwrap();
    assert!(process.heaps.reclaim(index, &process.pages));
    assert!(process.heaps.get(id).is_none());
    assert!(process.heaps.get(id_max).is_none());
    assert!(heap(&mut process, index).state.is_retired());
    let (_, other) = acquire(&mut process);
    assert_ne!(other.index(), id.index());
}

#[test]
fn acquire_grows_past_sixty_four_live_heaps() {
    const LIVE: usize = 96;
    let mut process = process();
    let ids: Vec<HeapId> = (0..LIVE).map(|_| acquire(&mut process).1).collect();
    assert_eq!(ids.len(), LIVE);

    let mut indexes: Vec<u32> = ids.iter().map(|id| id.index()).collect();
    indexes.sort_unstable();
    let unique = indexes.len();
    indexes.dedup();
    assert_eq!(indexes.len(), unique);

    for id in ids {
        unbind(&mut process, id);
    }

    let (_, reused) = acquire(&mut process);
    assert!(reused.index() < u32::try_from(LIVE).unwrap());
}

#[test]
fn get_sees_published_heaps() {
    let mut process = process();
    let n = 32;
    let mut seen = 0usize;
    for _ in 0..n {
        let (_, id) = acquire(&mut process);
        assert!(process.heaps.get(id).is_some());
        seen += 1;
    }
    assert_eq!(seen, n);
}

#[test]
fn adopt_and_reclaim_cannot_both_win() {
    let mut first = process();
    let (index, id) = acquire(&mut first);
    assert_eq!(first.heaps.close(id, index, &first.pages), Ok(()));
    assert_eq!(first.heaps.adopt(id, index, &first.pages), Ok(()));
    assert!(!heap(&mut first, index).reclaim());
    assert_eq!(heap(&mut first, index).mode(), HeapMode::Active);
    unbind(&mut first, id);

    let mut second = process();
    let (index, id) = acquire(&mut second);
    assert_eq!(second.heaps.close(id, index, &second.pages), Ok(()));
    assert!(second.heaps.reclaim(index, &second.pages));
    assert!(heap(&mut second, index).adopt(id).is_err());
    assert!(second.heaps.get(id).is_none());
}

#[test]
fn unbind_waits_for_in_flight_lease() {
    let mut process = process();
    let (index, id) = acquire(&mut process);
    let lease = heap(&mut process, index).state.acquire_lease(id).unwrap();
    assert_eq!(process.heaps.close(id, index, &process.pages), Ok(()));
    assert_eq!(heap(&mut process, index).state.leases(), 1);
    assert!(process.heaps.leases_out(id, &process.pages));
    heap(&mut process, index).state.release_lease(lease);
    assert!(!process.heaps.leases_out(id, &process.pages));
    assert_eq!(
        process
            .heaps
            .flush(id, None, &mut process.pages, &mut process.os),
        Ok(())
    );
    assert!(process.heaps.get(id).is_none());
}

#[test]
fn heap_equality_is_identity() {
    let first = Heap::new(HeapId::new(0, 1).unwrap(), AllocatorConfig::new());
    let second = Heap::new(HeapId::new(1, 1).unwrap(), AllocatorConfig::new());

    assert!(first.id() == first.id());
    assert!(first.id() != second.id());
}

#[test]
fn lease_rejected_after_close() {
    let mut process = process();
    let (index, id) = acquire(&mut process);
    let heap = heap(&mut process, index);
    assert_eq!(heap.state.close(id), Ok(()));
    assert!(heap.state.acquire_lease(id).is_err());
    unbind(&mut process, id);
}

#[test]
fn lease_count_overflow_fails_closed() {
    let mut process = process();
    let (index, id) = acquire(&mut process);
    let heap = heap(&mut process, index);
    // Forge the packed lease ceiling.
    heap.state
        .store(id.generation(), HeapMode::Active, MAX_LEASES);
    assert!(matches!(
        heap.state.acquire_lease(id),
        Err(HeapError::InvalidMetadata)
    ));
    heap.state.store(id.generation(), HeapMode::Active, 0);
    unbind(&mut process, id);
}

#[test]
fn adopt_promotes_draining_to_active() {
    let mut process = process();
    let (index, id) = acquire(&mut process);
    let heap = heap(&mut process, index);
    assert_eq!(heap.close(id), Ok(()));
    assert_eq!(heap.mode(), HeapMode::Draining);
    assert_eq!(heap.adopt(id), Ok(()));
    assert_eq!(heap.mode(), HeapMode::Active);
    assert!(matches!(heap.adopt(id), Err(HeapError::InvalidHeap)));
    unbind(&mut process, id);
}

#[test]
fn adopt_race_has_exactly_one_winner() {
    let mut process = process();
    let (index, id) = acquire(&mut process);
    let heap = heap(&mut process, index);
    assert_eq!(heap.close(id), Ok(()));
    let winners = (0..2).filter(|_| heap.adopt(id).is_ok()).count();
    assert_eq!(winners, 1);
    unbind(&mut process, id);
}

#[test]
fn lifecycle_rejects_id_from_another_slot() {
    let mut process = process();
    let (index, first_id) = acquire(&mut process);
    let (_, second_id) = acquire(&mut process);
    let first = heap(&mut process, index);

    assert_eq!(first.close(second_id), Err(HeapError::InvalidHeap));
    assert!(matches!(
        first.adopt(second_id),
        Err(HeapError::InvalidHeap)
    ));
    assert_eq!(first.mode(), HeapMode::Active);

    unbind(&mut process, first_id);
    unbind(&mut process, second_id);
}

#[test]
fn extent_alloc_preserves_flush_error() {
    let mut process = process();
    let (index, id) = acquire(&mut process);
    let spec = LayoutSpec::from_layout(Layout::from_size_align(128 * 1024, 4096).unwrap());
    let ptr = mapped_extent(&mut process, index, spec);
    let Some(PageOwner::Extent { extent, .. }) = process.pages.get(ptr) else {
        panic!("expected extent owner");
    };
    let heap = process.heaps.arena.get_mut(index).unwrap();
    let slot = heap.inner.extents.extents.get_mut(extent).unwrap();
    assert!(heap.extent_inbox.queue(&mut slot.link, extent));

    assert_eq!(
        heap.alloc_extent(
            spec,
            ExtentInit::Uninit,
            &mut process.pages,
            &mut process.os
        ),
        Err(HeapError::InvalidExtentPointer)
    );
    let owner = PageOwner::Extent { heap: index, extent };
    heap.claim(owner, ptr, &process.pages).unwrap();
    assert_eq!(
        heap.flush(None, &mut process.pages, &mut process.os),
        Ok(())
    );
    unbind(&mut process, id);
}

#[test]
fn reclaim_rejects_nonzero_leases() {
    let mut process = process();
    let (index, id) = acquire(&mut process);
    let lease = heap(&mut process, index).state.acquire_lease(id).unwrap();
    assert_eq!(heap(&mut process, index).state.close(id), Ok(()));
    assert!(!process.heaps.reclaim(index, &process.pages));
    assert!(process.heaps.get(id).is_some());
    heap(&mut process, index).state.release_lease(lease);
    assert!(process.heaps.reclaim(index, &process.pages));
    assert!(process.heaps.get(id).is_none());
}

#[test]
fn state_words_read_back() {
    let word = HeapState::pack(7, HeapMode::Draining, 3);
    let snap = HeapState::decode(word).unwrap();
    assert_eq!((snap.generation, snap.mode, snap.leases), (7, HeapMode::Draining, 3));
    let id = HeapId::new(5, 9).unwrap();
    assert_eq!((id.index(), id.generation()), (5, 9));
    assert!(HeapId::new(u32::MAX, 1).is_none());
}

#[test]
fn reclaimed_heap_is_acquired_next_under_a_new_generation() {
    let mut process = process();
    let (index, id) = acquire(&mut process);
    unbind(&mut process, id);

    assert_eq!(process.heaps.get(id), None);
    let (again, next) = acquire(&mut process);
    assert_eq!(again, index);
    assert_eq!(next.generation(), id.generation() + 1);
}
