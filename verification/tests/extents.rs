use runic::allocation::ZeroStatus;
use runic::extent::allocator::{ExtentAllocator, ExtentAllocatorError};
use runic::extent::mapping_cache::{MappingCache, MAX_RETAINED_BYTES, SLOTS};
use runic::extent::table::{ExtentTable, ExtentTableError};
use runic::heap::extent::{Extent, ExtentId};
use runic::layout::LayoutSpec;
use runic::memory::{AddressRange, Effect, Mapping, Os, PageMap, PageOwner};

fn mapping_at(base: usize, len: usize) -> Mapping {
    Mapping { base, len }
}

fn reusable_extent(id: ExtentId) -> Extent {
    let spec = LayoutSpec::from_size_align(65_536, 8).unwrap();
    let len = spec.mapping_len(4096).unwrap();

    Extent::new(id, 0, mapping_at(0x100_0000, len), spec).unwrap()
}

#[test]
fn mapping_cache_reuses_exact_length() {
    let mut cache = MappingCache::new();
    let mapping = mapping_at(0x100_0000, 256 * 1024);
    let len = mapping.len();
    let ptr = mapping.base();

    assert!(cache.insert(mapping).is_ok());

    let reused = cache.take_exact(len).unwrap();
    assert_eq!(reused.base(), ptr);
}

#[test]
fn mapping_cache_rejects_nonmatching_length_lookup() {
    let mut cache = MappingCache::new();

    assert!(cache.insert(mapping_at(0x100_0000, 256 * 1024)).is_ok());
    assert!(cache.take_exact(128 * 1024).is_none());
}

#[test]
fn mapping_cache_enforces_slot_capacity() {
    let mut cache = MappingCache::new();

    for i in 0..SLOTS {
        assert!(cache.insert(mapping_at(0x100_0000 + i * 4096, 4096)).is_ok());
    }

    assert!(!cache.can_retain(4096));
    assert!(cache.insert(mapping_at(0x800_0000, 4096)).is_err());
}

#[test]
fn mapping_cache_enforces_byte_capacity() {
    let mut cache = MappingCache::new();

    assert!(
        cache
            .insert(mapping_at(0x100_0000, MAX_RETAINED_BYTES))
            .is_ok()
    );
    assert!(cache.insert(mapping_at(0x800_0000, 4096)).is_err());
}

fn table_with_capacity(capacity: usize) -> ExtentTable {
    ExtentTable::new(u32::try_from(capacity).unwrap())
}

#[test]
fn extent_table_zero_capacity_reserves_none() {
    let mut table = ExtentTable::new(0);

    assert_eq!(table.reserve(), None);
}

#[test]
fn extent_table_respects_injected_capacity() {
    let mut table = table_with_capacity(2);

    assert_eq!(table.reserve().unwrap().id().index(), 0);
    assert_eq!(table.reserve().unwrap().id().index(), 1);
    assert_eq!(table.reserve(), None);
}

#[test]
fn extent_table_insert_get_round_trip() {
    let mut table = table_with_capacity(4);
    let reservation = table.reserve().unwrap();
    let extent = reusable_extent(reservation.id());

    let id = table.insert(reservation, extent).unwrap();
    assert_eq!(table.get(id).unwrap().id(), id);

    let extent = table.remove(id).unwrap();
    assert_eq!(extent.id(), id);
}

#[test]
fn extent_table_invalid_insert_releases_reservation() {
    let mut table = table_with_capacity(4);
    let reservation = table.reserve().unwrap();
    let released = reservation.id();
    let wrong_id = ExtentId::from_index(released.index() + 1).unwrap();
    let extent = reusable_extent(wrong_id);

    assert_eq!(
        table.insert(reservation, extent),
        Err(ExtentTableError::InvalidReservation)
    );

    for expected in 1..4 {
        assert_eq!(table.reserve().unwrap().id().index(), expected);
    }
    assert_eq!(table.reserve().unwrap().id(), released);
}

#[test]
fn extent_table_refuses_an_occupied_slot() {
    let mut table = table_with_capacity(2);
    let reservation = table.reserve().unwrap();
    table
        .insert(reservation, reusable_extent(reservation.id()))
        .unwrap();
    assert_eq!(
        table.insert(reservation, reusable_extent(reservation.id())),
        Err(ExtentTableError::Occupied)
    );
    table.release(reservation);
    assert!(table.get(reservation.id()).is_some());
}

#[test]
fn extent_arena_zero_capacity_reserves_none() {
    let mut arena = ExtentTable::new(0);
    assert_eq!(arena.reserve(), None);
}

#[test]
fn extent_arena_respects_injected_capacity() {
    let mut arena = table_with_capacity(2);
    assert_eq!(arena.reserve().unwrap().id.index(), 0);
    assert_eq!(arena.reserve().unwrap().id.index(), 1);
    assert_eq!(arena.reserve(), None);
}

#[test]
fn extent_arena_insert_get_round_trip() {
    let mut arena = table_with_capacity(4);
    let reservation = arena.reserve().unwrap();
    let extent = reusable_extent(reservation.id);
    let id = arena.insert(reservation, extent).unwrap();
    assert_eq!(arena.get(id).unwrap().id, id);

    let extent = arena.remove(id).unwrap();
    assert_eq!(extent.id, id);
}

#[test]
fn extent_arena_invalid_insert_releases_reservation() {
    let mut arena = table_with_capacity(4);
    let reservation = arena.reserve().unwrap();
    let released = reservation.id;
    let wrong_id = ExtentId::from_index(released.index() + 1).unwrap();
    assert_eq!(
        arena.insert(reservation, reusable_extent(wrong_id)),
        Err(ExtentTableError::InvalidReservation)
    );
    for expected in 1..4 {
        assert_eq!(arena.reserve().unwrap().id.index(), expected);
    }
    assert_eq!(arena.reserve().unwrap().id, released);
}

#[test]
fn allocator_failed_extent_page_publication_removes_table_entry() {
    let mut allocator = ExtentAllocator::new(4);
    let mut pages = PageMap::new();
    let reservation = allocator.extents.reserve().unwrap();
    let id = reservation.id();
    let extent = reusable_extent(id);
    let range = AddressRange::new(0x100_0000, extent.mapping.as_ref().unwrap().len());
    let existing = PageOwner::Extent { heap: 0, extent: 900 };

    pages.publish(range, existing).unwrap();

    assert!(
        allocator
            .insert_extent(reservation, extent, &mut pages)
            .is_err()
    );
    assert!(allocator.extents.get(id).is_none());
    assert_eq!(pages.get(range.base()), Some(existing));
}

#[test]
fn freed_mapping_serves_the_same_length() {
    let mut allocator = ExtentAllocator::new(4);
    let mut pages = PageMap::new();
    let mut os = Os::new(true);
    let spec = LayoutSpec::from_size_align(256 * 1024, 4096).unwrap();
    let len = spec.mapping_len(4096).unwrap();
    assert!(os.grant(0x100_0000, len));
    let first = allocator.allocate(spec, &mut pages, &mut os).unwrap();
    assert_eq!(first.zero_status(), ZeroStatus::KnownZeroed);
    let Some(PageOwner::Extent { extent, .. }) = pages.get(first.ptr()) else {
        panic!("expected extent owner");
    };
    let id = ExtentId::from_index(extent).unwrap();
    assert_eq!(allocator.validate_allocated(id, first.ptr()), Ok(()));
    assert_eq!(
        allocator.free(id, first.ptr() + 8, &mut pages, &mut os),
        Err(ExtentAllocatorError::InvalidPointer)
    );
    assert_eq!(allocator.free(id, first.ptr(), &mut pages, &mut os), Ok(()));
    assert_eq!(pages.get(first.ptr()), None);
    assert_eq!(
        allocator.free(id, first.ptr(), &mut pages, &mut os),
        Err(ExtentAllocatorError::MissingExtent)
    );
    let second = allocator.allocate(spec, &mut pages, &mut os).unwrap();
    assert_eq!(second.ptr(), first.ptr());
    assert_eq!(second.zero_status(), ZeroStatus::NeedsZeroing);
}

#[test]
fn mapping_over_budget_is_unmapped() {
    let mut allocator = ExtentAllocator::new(4);
    let mut pages = PageMap::new();
    let mut os = Os::new(true);
    let spec = LayoutSpec::from_size_align(32 * 1024 * 1024, 1).unwrap();
    let len = spec.mapping_len(4096).unwrap();
    assert!(os.grant(0x1000_0000, len));
    let block = allocator.allocate(spec, &mut pages, &mut os).unwrap();
    let Some(PageOwner::Extent { extent, .. }) = pages.get(block.ptr()) else {
        panic!("expected extent owner");
    };
    let id = ExtentId::from_index(extent).unwrap();
    assert_eq!(allocator.free(id, block.ptr(), &mut pages, &mut os), Ok(()));
    assert_eq!(
        os.effects,
        [Effect::Unmap(AddressRange::new(0x1000_0000, len))]
    );
    assert!(allocator.allocate(spec, &mut pages, &mut os).is_none());
}

#[test]
fn mapping_cache_keeps_what_both_budgets_allow() {
    let mut cache = MappingCache::new();
    let half = MAX_RETAINED_BYTES / 2;

    assert!(cache.insert(mapping_at(0x100_0000, half)).is_ok());
    assert!(cache.can_retain(half));
    assert!(!cache.can_retain(half + 4096));
    let back = cache.insert(mapping_at(0x900_0000, half + 4096)).unwrap_err();
    assert_eq!((back.base(), back.len()), (0x900_0000, half + 4096));
    assert!(cache.insert(mapping_at(0x900_0000, half)).is_ok());
    assert!(!cache.can_retain(4096));

    assert!(cache.take_exact(4096).is_none());
    assert_eq!(cache.take_exact(half).unwrap().base(), 0x100_0000);
    assert_eq!(cache.take_exact(half).unwrap().base(), 0x900_0000);
    assert!(cache.take_exact(half).is_none());
}
