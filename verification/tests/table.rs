use runic::config::AllocatorConfig;
use runic::heap::error::HeapError;
use runic::heap::id::HeapId;
use runic::heap::inbox::Link;
use runic::memory::{AddressRange, PageMap, PageOwner};
use runic::table::batch::{RemoteBatch, REMOTE_BATCH_CAPACITY};
use runic::table::directory::HeapDirectory;
use runic::table::inbox::{Inbox, Notify};
use runic::table::page_cache::PageCache;
use runic::table::remote::RemoteBlocks;
use runic::table::slot::HeapSlot;
use runic::table::state::{HeapMode, SlotState, MAX_PUBLISHERS};

fn heap_id(index: u32) -> HeapId {
    HeapId::new(index, 1).unwrap()
}

#[test]
fn inbox_notify_drain_single() {
    let mut inbox = Inbox::new();
    let mut notify = Notify::new();
    inbox.push(&mut notify, 9);
    let chain = inbox.drain().unwrap();
    assert_eq!(chain, [9]);
    assert!(inbox.is_empty());
}

#[test]
fn inbox_repeated_notify_before_drain_pushes_once() {
    let mut inbox = Inbox::new();
    let mut notify = Notify::new();
    inbox.push(&mut notify, 9);
    inbox.push(&mut notify, 9);
    inbox.push(&mut notify, 9);
    let chain = inbox.drain().unwrap();
    assert_eq!(chain, [9]);
    assert!(inbox.is_empty());
}

#[test]
fn inbox_notify_after_disarm_requeues() {
    let mut inbox = Inbox::new();
    let mut notify = Notify::new();
    inbox.push(&mut notify, 9);
    assert!(inbox.drain().is_some());

    notify.disarm();
    inbox.push(&mut notify, 9);
    let chain = inbox.drain().unwrap();
    assert_eq!(chain, [9]);
}

#[test]
fn inbox_notify_drain_lifo_across_pushes() {
    let mut inbox = Inbox::new();
    let mut first_notify = Notify::new();
    let mut second_notify = Notify::new();
    let first = 1;
    let second = 2;
    inbox.push(&mut first_notify, first);
    inbox.push(&mut second_notify, second);
    // Newer publish is drained first.
    let chain = inbox.drain().unwrap();
    assert_eq!(chain, [second, first]);
    assert!(inbox.is_empty());
}

#[test]
fn inbox_drain_empty_is_none() {
    let mut inbox: Inbox<u32> = Inbox::new();
    assert!(inbox.drain().is_none());
    assert!(inbox.is_empty());
}

#[test]
fn republish_bypasses_arm_check() {
    let mut inbox = Inbox::new();
    let mut notify = Notify::new();
    assert!(notify.try_arm());
    inbox.republish(9);
    let chain = inbox.drain().unwrap();
    assert_eq!(chain, [9]);
}

#[test]
fn remote_batch_publishes_at_capacity() {
    let mut inbox = Inbox::new();

    let mut batch = RemoteBatch::new();
    let target = heap_id(0);

    let mut published = None;
    for node in 1..=REMOTE_BATCH_CAPACITY as usize {
        if let Some(list) = batch.append(target, node * 64) {
            published = Some(list);
        }
    }

    assert!(batch.is_empty());
    let (id, list) = published.unwrap();
    assert_eq!(id, target);
    inbox.push_batch(&list);
    assert_eq!(
        inbox.drain().unwrap().len(),
        REMOTE_BATCH_CAPACITY as usize
    );
}

#[test]
fn remote_batch_returns_list_on_target_change() {
    let a = 0x1000;
    let b = 0x2000;
    let mut batch = RemoteBatch::new();
    assert!(batch.append(heap_id(0), a).is_none());

    let (id, list) = batch.append(heap_id(1), b).unwrap();
    assert_eq!(id, heap_id(0));
    assert_eq!(list.first, a);
    assert_eq!(list.last, a);
    assert!(!batch.is_empty());
}

#[test]
fn remote_batch_keeps_every_block() {
    let mut batch = RemoteBatch::new();
    for ptr in [8, 16, 24] {
        assert!(batch.append(heap_id(2), ptr).is_none());
    }
    let (id, list) = batch.take().unwrap();
    assert_eq!(id, heap_id(2));
    assert_eq!(list.nodes, [8, 16, 24]);
    assert_eq!((list.first, list.last), (8, 24));
    assert!(batch.take().is_none());
}

#[test]
fn remote_blocks_come_newest_first() {
    let mut blocks = RemoteBlocks::new();
    assert!(blocks.take_all().is_none());
    blocks.push(8);
    blocks.push(16);
    assert_eq!(blocks.take_all().unwrap(), [16, 8]);
    assert!(blocks.take_all().is_none());
}

#[test]
fn page_cache_keeps_runs_only() {
    let mut pages = PageMap::new();
    let run = PageOwner::Run { heap: 0, run: 3 };
    let extent = PageOwner::Extent { heap: 0, extent: 4 };
    pages.publish(AddressRange::new(0x10000, 0x1000), run).unwrap();
    pages.publish(AddressRange::new(0x20000, 0x1000), extent).unwrap();
    let mut cache = PageCache::new();
    assert_eq!(cache.lookup_owner(&pages, 0x10008), Some(run));
    assert_eq!(cache.entry, Some((0x10, run)));
    assert_eq!(cache.lookup_owner(&pages, 0x20000), Some(extent));
    assert_eq!(cache.entry, Some((0x10, run)));
    assert_eq!(cache.lookup_owner(&pages, 0x30000), None);
    assert_eq!(cache.lookup_owner(&pages, 0x10ff8), Some(run));
    cache.clear();
    assert!(cache.entry.is_none());
}

#[test]
fn acquire_retire_reactivate_bumps_generation() {
    let mut directory = HeapDirectory::new(AllocatorConfig::new());
    let first = directory.acquire().unwrap();
    assert_eq!(first.generation(), 1);
    assert_eq!(directory.retire(first), Ok(()));
    assert!(directory.slot(first).is_none());

    let second = directory.acquire().unwrap();
    assert_eq!(second.index(), first.index());
    assert_eq!(second.generation(), 2);
    assert!(directory.slot(second).is_some());
    assert!(directory.slot(first).is_none());
}

#[test]
fn directory_stale_heap_id_rejected_after_reclaim() {
    let mut directory = HeapDirectory::new(AllocatorConfig::new());
    let id = directory.acquire().unwrap();
    assert_eq!(directory.retire(id), Ok(()));
    assert!(directory.slot(id).is_none());
}

#[test]
fn generation_exhaustion_permanently_retires_slot() {
    let mut directory = HeapDirectory::new(AllocatorConfig::new());
    let id = directory.acquire().unwrap();
    let index = id.index() as usize;
    {
        let slot = &mut directory.slots[index];
        slot.state.store(u32::MAX, HeapMode::Draining, false, 0);
        assert!(slot.try_reclaim());
        assert!(slot.state.is_retired());
    }
    assert!(directory.slot(id).is_none());
    let other = directory.acquire().unwrap();
    assert_ne!(other.index(), id.index());
}

#[test]
fn publisher_rejected_after_close() {
    let mut directory = HeapDirectory::new(AllocatorConfig::new());
    let id = directory.acquire().unwrap();
    let slot = &mut directory.slots[id.index() as usize];
    assert_eq!(slot.state.close_active(id), Ok(()));
    assert!(slot.state.acquire_publisher(id).is_err());
    assert_eq!(directory.retire(id), Ok(()));
}

#[test]
fn publisher_count_overflow_fails_closed() {
    let mut directory = HeapDirectory::new(AllocatorConfig::new());
    let id = directory.acquire().unwrap();
    let slot = &mut directory.slots[id.index() as usize];
    slot.state
        .store(id.generation(), HeapMode::Active, false, MAX_PUBLISHERS);
    assert!(matches!(
        slot.state.acquire_publisher(id),
        Err(HeapError::InvalidMetadata)
    ));
    slot.state
        .store(id.generation(), HeapMode::Active, false, 0);
    assert_eq!(directory.retire(id), Ok(()));
}

#[test]
fn try_reclaim_rejects_nonzero_publishers() {
    let mut directory = HeapDirectory::new(AllocatorConfig::new());
    let id = directory.acquire().unwrap();
    let slot = &mut directory.slots[id.index() as usize];
    assert_eq!(slot.state.close_active(id), Ok(()));
    assert!(slot.state.acquire_publisher(id).is_err());
    slot.state
        .store(id.generation(), HeapMode::Draining, false, 1);
    assert!(!slot.try_reclaim());
    slot.state
        .store(id.generation(), HeapMode::Draining, false, 0);
    assert!(slot.try_reclaim());
}

#[test]
fn try_reclaim_rejects_nonempty_run_inbox() {
    let mut directory = HeapDirectory::new(AllocatorConfig::new());
    let id = directory.acquire().unwrap();
    let slot = &mut directory.slots[id.index() as usize];
    assert_eq!(slot.state.close_active(id), Ok(()));

    slot.link_owner(PageOwner::Run { heap: 0, run: 0 });
    assert!(!slot.try_reclaim());
    assert_eq!(slot.run_inbox.drain().unwrap(), [0]);
    assert!(slot.try_reclaim());
}

#[test]
fn try_reclaim_rejects_nonempty_extent_inbox() {
    let mut directory = HeapDirectory::new(AllocatorConfig::new());
    let id = directory.acquire().unwrap();
    let slot = &mut directory.slots[id.index() as usize];
    assert_eq!(slot.state.close_active(id), Ok(()));

    slot.link_owner(PageOwner::Extent { heap: 0, extent: 0 });
    assert!(!slot.try_reclaim());
    assert_eq!(slot.extent_inbox.drain().unwrap(), [0]);
    assert!(slot.try_reclaim());
}

#[test]
fn enqueue_coalesces_and_fails_closed() {
    let id = heap_id(0);
    let owner = PageOwner::Run { heap: 0, run: 6 };
    let mut slot = HeapSlot::new(id, AllocatorConfig::new());
    let mut link = Link::new();
    assert_eq!(slot.enqueue(id, owner, &mut link), Ok(()));
    assert_eq!(slot.enqueue(id, owner, &mut link), Ok(()));
    assert_eq!(slot.run_inbox.drain().unwrap(), [6]);
    assert_eq!(slot.state.publishers(), 0);

    assert_eq!(slot.state.close_active(id), Ok(()));
    let mut other = Link::new();
    assert_eq!(
        slot.enqueue(id, owner, &mut other),
        Err(HeapError::InvalidHeap)
    );
    assert!(other.is_queued());
    assert!(slot.run_inbox.is_empty());
}

#[test]
fn closing_waits_for_publishers() {
    let mut directory = HeapDirectory::new(AllocatorConfig::new());
    let id = directory.acquire().unwrap();
    directory.slots[0].state.acquire_publisher(id).unwrap();
    assert_eq!(directory.close(id), Ok(()));
    assert_eq!(directory.publishers(id), 1);
    assert_eq!(directory.lock(id), Ok(0));
    assert!(!directory.finish(id));
    directory.slots[0].state.release_publisher();
    assert_eq!(directory.publishers(id), 0);
    assert!(directory.finish(id));
    assert_eq!(directory.lock(id), Err(HeapError::InvalidHeap));
    assert_eq!(directory.close(id), Err(HeapError::InvalidHeap));
}

#[test]
fn directory_holds_a_bounded_number_of_heaps() {
    let mut directory = HeapDirectory::new(AllocatorConfig::new());
    for index in 0..64 {
        assert_eq!(directory.acquire().unwrap().index(), index);
    }
    assert!(directory.acquire().is_none());
}

#[test]
fn state_word_keeps_its_parts() {
    let mut state = SlotState::new(3, HeapMode::Active);
    assert_eq!(state.word, 0x1_0000_0003);
    state.store(9, HeapMode::Draining, true, 5);
    assert_eq!(state.word, 0x2e_0000_0009);
    let snap = state.load();
    assert_eq!(
        (snap.generation, snap.mode, snap.retired, snap.publishers),
        (9, HeapMode::Draining, true, 5)
    );
    assert!(!state.is_active());
    assert!(!state.is_free());
    assert_eq!(state.generation(), 9);
    assert_eq!(state.mode(), HeapMode::Draining);
    assert_eq!(HeapMode::from_raw(HeapMode::Draining.raw()), Some(HeapMode::Draining));
    assert_eq!(HeapMode::from_raw(3), None);
}
