use runic::config::{Budget, Hints};
use runic::heap::error::HeapError;
use runic::heap::extent::config::{ExtentConfig, ExtentPolicy};
use runic::heap::extent::heap::ExtentHeap;
use runic::heap::extent::{Extent, ExtentError, ExtentId, ExtentInit, ExtentState, LAZY_ZERO};
use runic::layout::{Layout, LayoutSpec};
use runic::memory::{AddressRange, Effect, Mapping, Os, PageMap, PageOwner};
use std::collections::HashMap;

const BASE: usize = 0x4000_0000;

const PAGE: usize = 4096;

fn layout_spec(size: usize, align: usize) -> LayoutSpec {
    LayoutSpec::from_layout(Layout::from_size_align(size, align).unwrap())
}

/// Bytes of memory, zero until written.
struct Bytes {
    pages: HashMap<usize, Vec<u8>>,
}

impl Bytes {
    fn fill(&mut self, base: usize, len: usize, value: u8) {
        for addr in base..base + len {
            let page = self.pages.entry(addr / PAGE).or_insert_with(|| vec![0; PAGE]);
            page[addr % PAGE] = value;
        }
    }

    fn all(&self, base: usize, len: usize, value: u8) -> bool {
        (base..base + len).all(|addr| match self.pages.get(&(addr / PAGE)) {
            Some(page) => page[addr % PAGE] == value,
            None => value == 0,
        })
    }
}

/// A heap's extents with the system under them.
struct Extents {
    heap: ExtentHeap,
    pages: PageMap,
    os: Os,
    next: usize,
    bytes: Bytes,
    done: usize,
}

impl Extents {
    fn new(config: ExtentConfig) -> Self {
        Self {
            heap: ExtentHeap::new(config, Hints::new()),
            pages: PageMap::new(),
            os: Os::new(true),
            next: BASE,
            bytes: Bytes {
                pages: HashMap::new(),
            },
            done: 0,
        }
    }

    fn settle(&mut self) {
        for effect in &self.os.effects[self.done..] {
            match effect {
                Effect::Discard(range) | Effect::Zero(range) => {
                    self.bytes.fill(range.base(), range.len(), 0);
                }
                Effect::Unmap(_) => {}
                Effect::Copy { .. } => panic!("no copy between extents"),
            }
        }
        self.done = self.os.effects.len();
    }

    fn allocate(&mut self, spec: LayoutSpec, init: ExtentInit) -> usize {
        let tried = self
            .heap
            .allocate(spec, 0, &mut self.pages, init, &mut self.os)
            .unwrap();
        let ptr = match tried {
            Some(ptr) => ptr,
            None => {
                let wanted = self.os.wanted.unwrap();
                assert!(self.os.grant(self.next, wanted.len));
                self.next += wanted.len;
                self.heap
                    .allocate(spec, 0, &mut self.pages, init, &mut self.os)
                    .unwrap()
                    .unwrap()
            }
        };
        self.settle();
        ptr
    }

    fn extent_at(&self, ptr: usize) -> u32 {
        let Some(PageOwner::Extent { extent, .. }) = self.pages.get(ptr) else {
            panic!("expected extent owner");
        };
        extent
    }

    fn free_slot(&mut self, slot: u32, ptr: usize) -> Result<(), HeapError> {
        let freed = self
            .heap
            .free(slot, ptr, 0, &mut self.pages, &mut self.os);
        self.settle();
        freed
    }

    fn free(&mut self, ptr: usize) {
        let slot = self.extent_at(ptr);
        self.free_slot(slot, ptr).unwrap();
    }
}

#[test]
fn failed_extent_page_publication_keeps_immortal_slot_unmapped() {
    let mut extents = Extents::new(ExtentConfig::new());
    let index = extents.heap.extents.vacant().unwrap();
    let id = ExtentId::from_index(index).unwrap();
    let spec = layout_spec(65_536, 8);
    let len = spec.mapping_len(Os::page_size()).unwrap();
    let mapping = Mapping { base: BASE, len };
    let extent = Extent::new(id, 0, mapping, spec).unwrap();
    assert!(extents.heap.extents.insert(index, extent));
    let existing = PageOwner::Extent { heap: 0, extent: index };
    // Occupy the pages first; publication must fail closed.
    extents
        .pages
        .publish(AddressRange::new(BASE, len), existing)
        .unwrap();

    assert!(!extents
        .heap
        .insert_extent(index, 0, &mut extents.pages, &mut extents.os));

    // Slots are immortal: only the mapping is dropped.
    assert!(extents.heap.extents.get(index).is_some());
    assert!(extents.heap.slot(index).unwrap().mapping.is_none());
    assert_eq!(extents.pages.get(BASE), Some(existing));
}

#[test]
fn heap_failed_extent_page_publication_removes_table_entry() {
    let mut extents = Extents::new(ExtentConfig::new());
    let spec = layout_spec(65_536, 8);
    let len = spec.mapping_len(Os::page_size()).unwrap();
    let existing = PageOwner::Extent { heap: 7, extent: 3 };
    let range = AddressRange::new(BASE, len);

    extents.pages.publish(range, existing).unwrap();

    assert!(extents.os.grant(BASE, len));
    assert_eq!(
        extents
            .heap
            .allocate(spec, 0, &mut extents.pages, ExtentInit::Uninit, &mut extents.os),
        Ok(None)
    );
    assert!(extents.heap.slot(0).unwrap().mapping.is_none());
    assert_eq!(extents.pages.get(range.base()), Some(existing));
    assert_eq!(extents.os.effects, [Effect::Unmap(range)]);
}

#[test]
fn keep_free_leaves_page_map_entry_published() {
    let mut extents = Extents::new(ExtentConfig::new());
    let spec = layout_spec(128 * 1024, 4096);
    let ptr = extents.allocate(spec, ExtentInit::Uninit);
    let extent = extents.extent_at(ptr);
    extents.free(ptr);

    assert_eq!(extents.extent_at(ptr), extent);
    assert!(!extents.heap.has_live());
}

#[test]
fn keep_cache_hit_reuses_the_exact_length_from_the_middle() {
    let mut extents = Extents::new(ExtentConfig::new());
    let small = layout_spec(64 * 1024, 4096);
    let medium = layout_spec(128 * 1024, 4096);
    let large = layout_spec(256 * 1024, 4096);

    let first = extents.allocate(small, ExtentInit::Uninit);
    let second = extents.allocate(medium, ExtentInit::Uninit);
    let third = extents.allocate(large, ExtentInit::Uninit);
    for ptr in [first, second, third] {
        extents.free(ptr);
    }

    // Cache holds large, medium, small; each request must unlink its own length.
    for (spec, ptr) in [(medium, second), (small, first), (large, third)] {
        assert_eq!(
            extents
                .heap
                .allocate(spec, 0, &mut extents.pages, ExtentInit::Uninit, &mut extents.os),
            Ok(Some(ptr))
        );
    }
}

fn third_free_does_not_fit(budget: Budget) {
    let mut extents = Extents::new(ExtentConfig::new().with_budget(budget));
    let spec = layout_spec(128 * 1024, 4096);
    let ptrs = [
        extents.allocate(spec, ExtentInit::Uninit),
        extents.allocate(spec, ExtentInit::Uninit),
        extents.allocate(spec, ExtentInit::Uninit),
    ];
    for ptr in ptrs {
        extents.free(ptr);
    }

    assert!(extents.pages.get(ptrs[0]).is_some());
    assert!(extents.pages.get(ptrs[1]).is_some());
    assert!(extents.pages.get(ptrs[2]).is_none());
}

#[test]
fn keep_slot_budget_unmaps_the_free_that_does_not_fit() {
    third_free_does_not_fit(Budget::new(2, 64 * 1024 * 1024));
}

#[test]
fn keep_byte_budget_unmaps_the_free_that_does_not_fit() {
    let spec = layout_spec(128 * 1024, 4096);
    let len = spec.mapping_len(Os::page_size()).unwrap();
    third_free_does_not_fit(Budget::new(64, 2 * len));
}

#[test]
fn keep_cache_hit_reuses_without_republish() {
    let mut extents = Extents::new(ExtentConfig::new());
    let spec = layout_spec(128 * 1024, 4096);
    let first = extents.allocate(spec, ExtentInit::Uninit);
    let extent = extents.extent_at(first);
    extents.free(first);

    let reused = extents.allocate(spec, ExtentInit::Uninit);
    assert_eq!(reused, first);
    assert_eq!(extents.extent_at(reused), extent);
}

#[test]
fn unmap_policy_unpublishes_on_free() {
    let mut extents = Extents::new(ExtentConfig::new().with_policy(ExtentPolicy::Unmap));
    let spec = layout_spec(128 * 1024, 4096);
    let ptr = extents.allocate(spec, ExtentInit::Uninit);
    extents.free(ptr);

    assert!(extents.pages.get(ptr).is_none());
    assert!(!extents.heap.has_live());
}

#[test]
fn double_free_while_cached_is_rejected() {
    let mut extents = Extents::new(ExtentConfig::new());
    let spec = layout_spec(128 * 1024, 4096);
    let ptr = extents.allocate(spec, ExtentInit::Uninit);
    let extent = extents.extent_at(ptr);
    extents.free(ptr);

    assert_eq!(extents.free_slot(extent, ptr), Err(HeapError::DoubleFree));
    assert_eq!(extents.extent_at(ptr), extent);
}

#[test]
fn zeroed_allocate_clears_cached_mapping() {
    let mut extents = Extents::new(ExtentConfig::new());
    let size = 128 * 1024;
    let spec = layout_spec(size, 4096);
    let first = extents.allocate(spec, ExtentInit::Zeroed);
    extents.bytes.fill(first, size, 0xab);
    extents.free(first);

    let reused = extents.allocate(spec, ExtentInit::Zeroed);
    assert_eq!(reused, first);
    assert!(extents.bytes.all(reused, size, 0));
    extents.free(reused);
}

#[test]
fn keep_lazy_zero_second_reuse_is_clean() {
    let mut extents = Extents::new(ExtentConfig::new());
    let spec = layout_spec(LAZY_ZERO, 4096);
    let first = extents.allocate(spec, ExtentInit::Zeroed);
    extents.bytes.fill(first, LAZY_ZERO, 0xab);
    extents.free(first);

    let second = extents.allocate(spec, ExtentInit::Zeroed);
    assert_eq!(second, first);
    assert!(extents.bytes.all(second, LAZY_ZERO, 0));
    // Dirty the mapping again so a stale clean mark would leak.
    extents.bytes.fill(second, LAZY_ZERO, 0xcd);
    extents.free(second);

    let third = extents.allocate(spec, ExtentInit::Zeroed);
    assert_eq!(third, first);
    assert!(extents.bytes.all(third, LAZY_ZERO, 0));
    extents.free(third);
}

#[test]
fn discard_zeroed_allocate_is_clean_after_dirty_reuse() {
    let mut extents = Extents::new(ExtentConfig::new().with_policy(ExtentPolicy::Discard));
    let size = 128 * 1024;
    let spec = layout_spec(size, 4096);
    let first = extents.allocate(spec, ExtentInit::Zeroed);
    extents.bytes.fill(first, size, 0xab);
    let extent = extents.extent_at(first);
    extents.free(first);
    assert_eq!(extents.extent_at(first), extent);

    let effects = extents.os.effects.len();
    let reused = extents.allocate(spec, ExtentInit::Zeroed);
    assert_eq!(reused, first);
    // Discard must yield zeros without another pass over the bytes.
    assert_eq!(extents.os.effects.len(), effects);
    assert!(extents.bytes.all(reused, size, 0));
    extents.free(reused);
}

#[test]
fn uninit_allocate_preserves_cached_bytes() {
    let mut extents = Extents::new(ExtentConfig::new());
    let size = 128 * 1024;
    let spec = layout_spec(size, 4096);
    let first = extents.allocate(spec, ExtentInit::Uninit);
    extents.bytes.fill(first, size, 0xcd);
    extents.free(first);

    let reused = extents.allocate(spec, ExtentInit::Uninit);
    assert_eq!(reused, first);
    assert!(extents.bytes.all(reused, size, 0xcd));
    extents.free(reused);
}

/// An extent in a mapping of `len` bytes.
fn extent_in(index: u32, len: usize, spec: LayoutSpec) -> Extent {
    let mapping = Mapping { base: BASE, len };
    Extent::new(ExtentId::from_index(index).unwrap(), 0, mapping, spec).unwrap()
}

fn extent_for(index: u32, spec: LayoutSpec) -> Extent {
    extent_in(index, spec.mapping_len(Os::page_size()).unwrap(), spec)
}

#[test]
fn extent_equality_is_identity() {
    let spec = layout_spec(128 * 1024, 4096);
    let first = extent_for(0, spec);
    let second = extent_for(1, spec);

    assert!(first.id() == first.id());
    assert!(first.id() != second.id());
}

#[test]
fn extent_aligns_user_pointer_inside_mapping() {
    let spec = layout_spec(128 * 1024, 4096);
    let extent = extent_for(0, spec);
    let mapping_range = extent.mapping.as_ref().unwrap().range();

    assert!(spec.is_addr_aligned(extent.ptr()));
    assert_eq!(extent.len(), spec.size());
    assert!(mapping_range.offset_of(extent.ptr()).is_some());
}

#[test]
fn extent_rejects_interior_pointer() {
    let mut extent = extent_for(1, layout_spec(128 * 1024, 4096));
    let interior = extent.ptr() + 1;

    assert!(!extent.starts_at(interior));
    assert_eq!(extent.free(interior), Err(ExtentError::InvalidPointer));
}

#[test]
fn extent_accepts_exact_pointer() {
    let mut extent = extent_for(2, layout_spec(128 * 1024, 4096));
    let ptr = extent.ptr();

    assert!(extent.starts_at(ptr));
    assert_eq!(extent.free(ptr), Ok(()));
}

#[test]
fn extent_rejects_interior_claim_without_state_change() {
    let mut extent = extent_for(8, layout_spec(128 * 1024, 4096));
    let ptr = extent.ptr();
    let interior = ptr + 1;

    assert_eq!(extent.claim(interior), Err(ExtentError::InvalidPointer));
    assert_eq!(extent.free(ptr), Ok(()));
}

#[test]
fn extent_resizes_in_place_for_smaller_layout() {
    let mut extent = extent_for(3, layout_spec(128 * 1024, 4096));
    let ptr = extent.ptr();
    let smaller = layout_spec(64 * 1024, 4096);

    assert_eq!(extent.resize_in_place(ptr, smaller), Ok(true));
}

#[test]
fn extent_does_not_resize_in_place_beyond_mapping() {
    let mut extent = extent_for(4, layout_spec(128 * 1024, 4096));
    let ptr = extent.ptr();
    let larger = layout_spec(256 * 1024, 4096);

    assert_eq!(extent.resize_in_place(ptr, larger), Ok(false));
}

#[test]
fn extent_grows_in_place_within_larger_mapping() {
    let mut extent = extent_in(5, 512 * 1024, layout_spec(128 * 1024, 4096));
    let ptr = extent.ptr();
    let larger = layout_spec(256 * 1024, 4096);

    assert_eq!(extent.resize_in_place(ptr, larger), Ok(true));
    assert_eq!(extent.len(), 256 * 1024);
}

#[test]
fn extent_grows_in_place_when_page_range_does_not_change() {
    let mut extent = extent_for(6, layout_spec(33 * 1024, 8));
    let ptr = extent.ptr();
    let larger = layout_spec(36 * 1024, 8);

    assert_eq!(extent.resize_in_place(ptr, larger), Ok(true));
    assert_eq!(extent.len(), 36 * 1024);
}

#[test]
fn extent_does_not_resize_in_place_to_size_class() {
    let mut extent = extent_for(7, layout_spec(64 * 1024, 8));
    let ptr = extent.ptr();
    let small = layout_spec(4096, 8);

    assert_eq!(extent.resize_in_place(ptr, small), Ok(false));
    assert_eq!(extent.len(), 64 * 1024);
}

#[test]
fn extent_claims_are_accepted_once() {
    let mut extent = extent_for(0, layout_spec(128 * 1024, 4096));
    let ptr = extent.ptr();
    assert_eq!(extent.accept(ptr), Err(ExtentError::InvalidPointer));
    assert_eq!(extent.claim(ptr), Ok(()));
    assert_eq!(extent.claim(ptr), Err(ExtentError::DoubleFree));
    assert_eq!(extent.accept(ptr), Ok(()));
    assert_eq!(extent.accept(ptr), Err(ExtentError::DoubleFree));
    assert_eq!(ExtentState::from_raw(ExtentState::Claimed.raw()), Some(ExtentState::Claimed));
    assert_eq!(ExtentState::from_raw(9), None);
}
