use runic::allocation::{Allocation, ZeroStatus};
use runic::allocator::Allocator;
use runic::extent::slot_store::{SlotStore, SlotStoreError};
use runic::heap::run::cache::RunCache;
use runic::heap::run::config::RunPolicy;
use runic::heap::run::{Run, RunId};
use runic::heap::thread::{ThreadFreeError, ThreadHeaps};
use runic::layout::{Layout, LayoutSpec};
use runic::memory::{AddressRange, Effect, MapRequest, Os, PageMap, PageMapError, PageOwner};
use runic::config::Hints;
use runic::size_class::SizeClasses;

const FIRST: PageOwner = PageOwner::Run { heap: 0, run: 1 };
const SECOND: PageOwner = PageOwner::Extent { heap: 2, extent: 3 };

#[test]
fn pages_have_one_owner() {
    let mut pages = PageMap::new();
    assert_eq!(pages.publish(AddressRange::new(0x1000, 0x2001), FIRST), Ok(()));
    assert_eq!(pages.get(0x1000), Some(FIRST));
    assert_eq!(pages.get(0x3fff), Some(FIRST));
    assert_eq!(pages.get(0x4000), None);
    assert_eq!(
        pages.publish(AddressRange::new(0x3000, 0x2000), SECOND),
        Err(PageMapError::Occupied)
    );
    assert_eq!(pages.get(0x4000), None);
    assert_eq!(
        pages.unpublish(AddressRange::new(0x1000, 0x1000), SECOND),
        Err(PageMapError::NotOwner)
    );
    assert_eq!(pages.unpublish(AddressRange::new(0x1000, 0x1000), FIRST), Ok(()));
    assert_eq!(pages.get(0x1000), None);
    assert_eq!(pages.get(0x2000), Some(FIRST));
}

#[test]
fn ranges_contain_what_fits() {
    let range = AddressRange::new(100, 50);
    assert!(range.contains(AddressRange::new(100, 50)));
    assert!(!range.contains(AddressRange::new(101, 50)));
    assert_eq!(range.offset_of(149), Some(49));
    assert_eq!(range.offset_of(150), None);
    assert_eq!(range.offset_of(99), None);
}

#[test]
fn the_system_grants_whole_pages() {
    let mut os = Os::new(false);
    assert!(os.map(8192).is_none());
    assert_eq!(
        os.wanted,
        Some(MapRequest {
            len: 8192,
            align: 4096,
            hints: Hints::new()
        })
    );
    assert!(!os.grant(0, 8192));
    assert!(!os.grant(4096, 100));
    assert!(!os.grant(100, 4096));
    assert!(os.grant(4096, 8192));
    assert!(os.map_aligned_payload(8192, 8192, Hints::new()).is_none());
    let mapping = os.map(8192).unwrap();
    assert_eq!((mapping.base(), mapping.len()), (4096, 8192));
    assert!(!os.discard(mapping.range()));
    os.zero(4096, 10);
    os.copy(4096, 5000, 10);
    os.unmap(mapping);
    assert_eq!(
        os.effects,
        [
            Effect::Discard(AddressRange::new(4096, 8192)),
            Effect::Zero(AddressRange::new(4096, 10)),
            Effect::Copy {
                from: 4096,
                to: 5000,
                len: 10
            },
            Effect::Unmap(AddressRange::new(4096, 8192)),
        ]
    );
}

#[test]
fn slots_are_reserved_before_they_are_filled() {
    let mut store = SlotStore::new(2);
    assert_eq!(store.insert(0, 'a'), Err((SlotStoreError::InvalidIndex, 'a')));
    assert_eq!(store.reserve(), Some(0));
    assert_eq!(store.release(0), Ok(()));
    assert_eq!(store.release(0), Err(SlotStoreError::NotReserved));
    assert_eq!(store.insert(0, 'a'), Err((SlotStoreError::NotReserved, 'a')));
    assert_eq!(store.reserve(), Some(1));
    assert_eq!(store.insert(1, 'b'), Ok(()));
    assert_eq!(store.insert(1, 'c'), Err((SlotStoreError::Occupied, 'c')));
    assert_eq!(store.release(1), Err(SlotStoreError::Occupied));
    assert_eq!(store.get(1), Some(&'b'));
    assert_eq!(store.reserve(), Some(0));
    assert_eq!(store.reserve(), None);
    assert_eq!(store.remove(1), Some('b'));
    assert_eq!(store.get(1), None);
}

#[test]
fn cached_run_is_hit_inside_its_payload() {
    let spec = LayoutSpec::from_size_align(64, 8).unwrap();
    let class = SizeClasses::class_for(spec).unwrap();
    let run = Run::new(RunId::from_index(5).unwrap(), 0, 0x10_0000, class, RunPolicy::Keep).unwrap();
    let mut cache = RunCache::new();
    assert_eq!(cache.hit(0x10_0000), None);
    cache.store(&run);
    assert_eq!(cache.hit(0x10_0000), Some(5));
    assert_eq!(cache.hit(0x10_ffff), Some(5));
    assert_eq!(cache.hit(0x11_0000), None);
    assert_eq!(cache.hit(0x0f_ffff), None);
    cache.clear();
    assert_eq!(cache.hit(0x10_0000), None);
}

#[test]
fn blocks_of_others_are_not_freed_locally() {
    let mut installed = None;
    let allocator = Allocator::new();
    assert!(allocator.init(&mut installed, Some(Os::new(true))));
    let mut process = installed.unwrap();
    let layout = Layout::from_size_align(64, 8).unwrap();
    let mut owner = ThreadHeaps::new();
    assert!(matches!(
        allocator.allocate(layout, &mut owner, &mut process),
        Ok(None)
    ));
    let wanted = process.os.wanted.unwrap();
    assert!(process.os.grant(0x4000_0000, wanted.len));
    let Ok(Some(ptr)) = allocator.allocate(layout, &mut owner, &mut process) else {
        panic!("a run was mapped");
    };
    let named = process.pages.get(ptr).unwrap();
    let mut other = ThreadHeaps::new();
    other.bind(&mut process).unwrap();
    match other.free_owner(named, ptr, &mut process) {
        Err(ThreadFreeError::Remote(found)) => assert_eq!(found, named),
        _ => panic!("the block is another thread's"),
    }
    assert!(allocator.dealloc(ptr, layout, &mut other, &mut process).is_ok());
}

#[test]
fn allocations_say_whether_they_are_zero() {
    let allocation = Allocation::new(0x40, ZeroStatus::KnownZeroed);
    assert_eq!(allocation.ptr(), 0x40);
    assert_eq!(allocation.zero_status(), ZeroStatus::KnownZeroed);
}
