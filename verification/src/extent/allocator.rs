//! Large blocks of one shared heap: each has a mapping of its own.

use vstd::prelude::*;

use crate::allocation::{Allocation, ZeroStatus};
use crate::config::Budget;
use crate::extent::mapping_cache::{
    first_empty,
    first_with,
    kept_in,
    MappingCache,
    MAX_RETAINED_BYTES,
    SLOTS,
};
use crate::extent::slot_store::Slot;
use crate::extent::table::{ExtentReservation, ExtentTable};
use crate::heap::extent::config::{ExtentConfig, ExtentPolicy};
use crate::heap::extent::{
    law_own_mapping_fits,
    placed,
    Extent,
    ExtentError,
    ExtentId,
    ExtentState,
};
use crate::layout::{lemma_page_size_pow2, LayoutSpec};
use crate::memory::{
    covers,
    owned,
    unowned,
    with_owner,
    without_owner,
    AddressRange,
    Effect,
    Mapping,
    Os,
    PageMap,
    PageOwner,
    PAGE_SIZE,
};

verus! {

#[derive(Clone, Copy, Debug, PartialEq, Eq, Structural)]
pub enum ExtentAllocatorError {
    MissingExtent,
    InvalidPointer,
    InvalidMetadata,
}

/// Extents, and mappings for the next ones.
pub struct ExtentAllocator {
    pub extents: ExtentTable,
    pub mapping_cache: MappingCache,
}

/// How the page map names the extent in slot `index`.
pub open spec fn owner_of(index: int) -> PageOwner {
    PageOwner::Extent { heap: 0, extent: index as u32 }
}

/// The extent in slot `index` owns the pages of its mapping.
pub open spec fn slot_ok(slots: Seq<Slot<Extent>>, pages: Map<usize, PageOwner>, index: int) -> bool {
    slots[index] matches Slot::Held(extent) ==> extent.state == ExtentState::Allocated && (
    extent.mapping matches Some(mapping) && owned(pages, mapping.spec_range(), owner_of(index)))
}

/// A page that is owned by an extent lies in the mapping of that extent.
pub open spec fn page_ok(slots: Seq<Slot<Extent>>, pages: Map<usize, PageOwner>, page: usize) -> bool {
    pages[page] matches PageOwner::Extent { heap, extent } ==> heap == 0 && extent < slots.len() && (
    slots[extent as int] matches Slot::Held(held) && (held.mapping matches Some(mapping) && covers(
        mapping.spec_range(),
        page as int,
    )))
}

/// Nothing was done, or the mapping that was at hand was given up.
pub open spec fn gave_back(offered: Option<Mapping>, before: Seq<Effect>, after: Seq<Effect>) -> bool {
    ||| after == before
    ||| offered matches Some(mapping) && after == before.push(Effect::Unmap(mapping.spec_range()))
}

/// Extents and pages agree.
pub open spec fn published(slots: Seq<Slot<Extent>>, pages: Map<usize, PageOwner>) -> bool {
    &&& forall|index: int| 0 <= index < slots.len() ==> #[trigger] slot_ok(slots, pages, index)
    &&& forall|page: usize| #[trigger] pages.contains_key(page) ==> page_ok(slots, pages, page)
}

/// Pages that are not owned by an extent are the same.
pub open spec fn other_pages_same(
    before: Map<usize, PageOwner>,
    after: Map<usize, PageOwner>,
) -> bool {
    forall|page: usize|
        #![trigger before.contains_key(page)]
        #![trigger after.contains_key(page)]
        ({
            let kept = |pages: Map<usize, PageOwner>|
                pages.contains_key(page) && !(pages[page] is Extent);
            kept(before) == kept(after) && (kept(before) ==> before[page] == after[page])
        })
}

/// A new extent on pages without owner keeps extents and pages in agreement.
proof fn lemma_published_added(
    slots: Seq<Slot<Extent>>,
    after: Seq<Slot<Extent>>,
    pages: Map<usize, PageOwner>,
    index: int,
    extent: Extent,
)
    requires
        published(slots, pages),
        after.len() <= u32::MAX,
        0 <= index < after.len(),
        after[index] == Slot::Held(extent),
        !(slots[index] is Held),
        after.len() == slots.len(),
        forall|i: int|
            #![trigger after[i]]
            #![trigger slots[i]]
            0 <= i < slots.len() && i != index ==> after[i] == slots[i],
        extent.state == ExtentState::Allocated,
        extent.mapping is Some,
        extent.mapping->0.wf(),
        unowned(pages, extent.mapping->0.spec_range()),
    ensures
        published(
            after,
            with_owner(pages, extent.mapping->0.spec_range(), owner_of(index)),
        ),
        other_pages_same(
            pages,
            with_owner(pages, extent.mapping->0.spec_range(), owner_of(index)),
        ),
{
    let range = extent.mapping->0.spec_range();
    let new = with_owner(pages, range, owner_of(index));
    assert forall|i: int| 0 <= i < after.len() implies #[trigger] slot_ok(after, new, i) by {
        if i != index {
            assert(after[i] == slots[i]);
            assert(slot_ok(slots, pages, i));
            if let Slot::Held(other) = after[i] {
                let there = other.mapping->0.spec_range();
                assert forall|page: usize|
                    #![trigger new.contains_key(page)]
                    #![trigger new[page]]
                    covers(there, page as int) implies new.contains_key(page) && new[page]
                    == owner_of(i) by {
                    assert(pages.contains_key(page));
                    if covers(range, page as int) {
                        assert(!pages.contains_key(page));
                    }
                }
            }
        }
    }
    assert forall|page: usize| #[trigger] new.contains_key(page) implies page_ok(
        after,
        new,
        page,
    ) by {
        if !covers(range, page as int) {
            assert(pages.contains_key(page));
            assert(page_ok(slots, pages, page));
            if let PageOwner::Extent { heap, extent: other } = pages[page] {
                assert(slots[other as int] is Held);
                assert(other != index);
                assert(after[other as int] == slots[other as int]);
            }
        }
    }
    assert forall|page: usize|
        #![trigger pages.contains_key(page)]
        #![trigger new.contains_key(page)]
        ({
            let kept = |pages: Map<usize, PageOwner>|
                pages.contains_key(page) && !(pages[page] is Extent);
            kept(pages) == kept(new) && (kept(pages) ==> pages[page] == new[page])
        }) by {
        if covers(range, page as int) {
            assert(!pages.contains_key(page));
        }
    }
}

/// Without an extent and its pages, extents and pages still agree.
proof fn lemma_published_removed(
    slots: Seq<Slot<Extent>>,
    after: Seq<Slot<Extent>>,
    pages: Map<usize, PageOwner>,
    index: int,
)
    requires
        published(slots, pages),
        slots.len() <= u32::MAX,
        0 <= index < slots.len(),
        slots[index] is Held,
        slots[index]->Held_0.mapping is Some,
        slots[index]->Held_0.mapping->0.wf(),
        after.len() == slots.len(),
        after[index] is Vacant,
        forall|i: int|
            #![trigger after[i]]
            #![trigger slots[i]]
            0 <= i < slots.len() && i != index ==> after[i] == slots[i],
    ensures
        published(
            after,
            without_owner(pages, slots[index]->Held_0.mapping->0.spec_range()),
        ),
        other_pages_same(
            pages,
            without_owner(pages, slots[index]->Held_0.mapping->0.spec_range()),
        ),
{
    let range = slots[index]->Held_0.mapping->0.spec_range();
    let new = without_owner(pages, range);
    assert(slot_ok(slots, pages, index));
    assert forall|i: int| 0 <= i < after.len() implies #[trigger] slot_ok(after, new, i) by {
        if i != index {
            assert(after[i] == slots[i]);
            assert(slot_ok(slots, pages, i));
            if let Slot::Held(other) = after[i] {
                let there = other.mapping->0.spec_range();
                assert forall|page: usize|
                    #![trigger new.contains_key(page)]
                    #![trigger new[page]]
                    covers(there, page as int) implies new.contains_key(page) && new[page]
                    == owner_of(i) by {
                    assert(pages.contains_key(page) && pages[page] == owner_of(i));
                    if covers(range, page as int) {
                        assert(pages[page] == owner_of(index));
                    }
                }
            }
        }
    }
    assert forall|page: usize| #[trigger] new.contains_key(page) implies page_ok(
        after,
        new,
        page,
    ) by {
        assert(pages.contains_key(page));
        assert(page_ok(slots, pages, page));
        if let PageOwner::Extent { heap, extent: other } = pages[page] {
            if other == index {
                assert(covers(range, page as int));
            }
            assert(after[other as int] == slots[other as int]);
        }
    }
    assert forall|page: usize|
        #![trigger pages.contains_key(page)]
        #![trigger new.contains_key(page)]
        ({
            let kept = |pages: Map<usize, PageOwner>|
                pages.contains_key(page) && !(pages[page] is Extent);
            kept(pages) == kept(new) && (kept(pages) ==> pages[page] == new[page])
        }) by {
        if covers(range, page as int) {
            assert(pages.contains_key(page) && pages[page] == owner_of(index));
        }
    }
}

impl ExtentAllocator {
    /// Table, cache and page map agree.
    pub open spec fn wf(self, pages: Map<usize, PageOwner>) -> bool {
        &&& self.extents.wf()
        &&& self.mapping_cache.wf()
        &&& published(self.extents.slots.slots@, pages)
    }

    /// An extent's block starts at `ptr`.
    pub open spec fn starts(self, ptr: int) -> bool {
        exists|index: int| #[trigger]
            self.extents.slots.holds(index) && self.extents.slots.value(index).base == ptr
    }

    /// The mapping that a layout gets: a retained one of its length first, then one from
    /// the system.
    pub open spec fn mapping_for(self, spec: LayoutSpec, os: Os) -> Option<Mapping> {
        let len = spec.spec_mapping_len(PAGE_SIZE as int);
        if spec.size + spec.align - 1 + PAGE_SIZE - 1 > usize::MAX {
            None
        } else if self.mapping_cache.exact(len as usize) is Some {
            self.mapping_cache.exact(len as usize)
        } else if os.can_map(len, PAGE_SIZE as int) {
            os.grant
        } else {
            None
        }
    }

    /// What a request asks of the system: nothing where a retained mapping serves or no
    /// mapping could; else one mapping of the layout's length, asked for exactly where the
    /// one on offer is another.
    pub open spec fn asked(self, spec: LayoutSpec, os: Os, after: Os) -> bool {
        let len = spec.spec_mapping_len(PAGE_SIZE as int);
        if spec.size + spec.align - 1 + PAGE_SIZE - 1 > usize::MAX || self.mapping_cache.exact(
            len as usize,
        ) is Some {
            after.wanted == os.wanted && after.grant == os.grant
        } else if os.can_map(len, PAGE_SIZE as int) {
            after.wanted is None && after.grant is None
        } else {
            after.asks_pages(len) && after.grant == os.grant
        }
    }

    /// A layout is served.
    pub open spec fn can_serve(
        self,
        spec: LayoutSpec,
        pages: Map<usize, PageOwner>,
        os: Os,
    ) -> bool {
        self.mapping_for(spec, os) matches Some(mapping) && self.extents.slots.next() is Some
            && unowned(pages, mapping.spec_range())
    }

    pub fn new(capacity: u32) -> (heap: Self)
        ensures
            heap.extents.wf(),
            heap.extents.slots.capacity == capacity,
            heap.extents.slots.slots@.len() == 0,
            heap.mapping_cache.wf(),
            heap.mapping_cache.config == (ExtentConfig {
                policy: ExtentPolicy::Keep,
                budget: Budget { slots: SLOTS, bytes: MAX_RETAINED_BYTES },
            }),
            heap.mapping_cache.retained_bytes == 0,
            forall|len: usize| #[trigger] heap.mapping_cache.exact(len) is None,
    {
        Self { extents: ExtentTable::new(capacity), mapping_cache: MappingCache::new() }
    }

    /// An allocator whose cache keeps what `config` allows.
    pub fn with_config(capacity: u32, config: ExtentConfig) -> (heap: Self)
        ensures
            heap.extents.wf(),
            heap.extents.slots.capacity == capacity,
            heap.extents.slots.slots@.len() == 0,
            heap.mapping_cache.wf(),
            heap.mapping_cache.config == config,
            heap.mapping_cache.retained_bytes == 0,
            forall|len: usize| #[trigger] heap.mapping_cache.exact(len) is None,
    {
        Self {
            extents: ExtentTable::new(capacity),
            mapping_cache: MappingCache::with_config(config),
        }
    }

    /// Enter an extent and publish its pages. A page that has an owner undoes both, and the
    /// mapping comes back.
    pub fn insert_extent(
        &mut self,
        reservation: ExtentReservation,
        extent: Extent,
        pages: &mut PageMap,
    ) -> (inserted: Result<(), Mapping>)
        requires
            old(self).wf(old(pages)@),
            reservation.id.index > 0,
            old(self).extents.slots.reserved(reservation.id.spec_index()),
            old(self).extents.slots.capacity < u32::MAX,
            extent.wf(),
            extent.id == reservation.id,
            extent.state == ExtentState::Allocated,
            extent.mapping is Some,
        ensures
            final(self).wf(final(pages)@),
            final(self).mapping_cache == old(self).mapping_cache,
            final(self).extents.slots.others_same(
                old(self).extents.slots,
                reservation.id.spec_index(),
            ),
            final(self).extents.slots.slots@.len() == old(self).extents.slots.slots@.len(),
            other_pages_same(old(pages)@, final(pages)@),
            ({
                let range = extent.mapping->0.spec_range();
                let index = reservation.id.spec_index();
                if unowned(old(pages)@, range) {
                    inserted == Ok::<(), Mapping>(()) && final(self).extents.slots.slots@[index]
                        == Slot::Held(extent) && final(pages)@ == with_owner(
                        old(pages)@,
                        range,
                        owner_of(index),
                    )
                } else {
                    inserted == Err::<(), Mapping>(extent.mapping->0)
                        && final(self).extents.slots.slots@[index] is Vacant && final(pages)@
                        == old(pages)@
                }
            }),
    {
        let ghost before = self.extents.slots.slots@;
        let ghost old_pages = pages@;
        let id = reservation.id;
        let range = match &extent.mapping {
            Some(mapping) => mapping.range(),
            None => AddressRange { base: 0, len: 0 },
        };
        let owner = PageOwner::Extent { heap: 0, extent: id.index() };
        let _entered = self.extents.insert(reservation, extent);
        let ghost entered = self.extents.slots.slots@;
        match pages.publish(range, owner) {
            Ok(()) => {
                proof {
                    lemma_published_added(
                        before,
                        self.extents.slots.slots@,
                        old_pages,
                        id.spec_index(),
                        extent,
                    );
                }
                Ok(())
            },
            Err(_) => {
                let removed = self.extents.remove(id);
                proof {
                    let slots = self.extents.slots.slots@;
                    assert forall|i: int| 0 <= i < slots.len() implies #[trigger] slot_ok(
                        slots,
                        old_pages,
                        i,
                    ) by {
                        if i != id.spec_index() {
                            assert(slots[i] == entered[i]);
                            assert(entered[i] == before[i]);
                            assert(slot_ok(before, old_pages, i));
                        }
                    }
                    assert forall|page: usize| #[trigger] old_pages.contains_key(page) implies page_ok(
                        slots,
                        old_pages,
                        page,
                    ) by {
                        assert(page_ok(before, old_pages, page));
                        if let PageOwner::Extent { heap, extent: other } = old_pages[page] {
                            assert(before[other as int] is Held);
                            assert(slots[other as int] == entered[other as int]);
                            assert(entered[other as int] == before[other as int]);
                        }
                    }
                }
                match removed {
                    Some(extent) => match extent.mapping {
                        Some(mapping) => Err(mapping),
                        None => Ok(()),
                    },
                    None => Ok(()),
                }
            },
        }
    }

    /// Allocate a block with a mapping of its own.
    pub fn allocate(&mut self, spec: LayoutSpec, pages: &mut PageMap, os: &mut Os) -> (allocation:
        Option<Allocation>)
        requires
            old(self).wf(old(pages)@),
            old(self).extents.slots.capacity < u32::MAX,
            old(os).wf(),
            spec.wf(),
        ensures
            final(self).wf(final(pages)@),
            final(self).extents.slots.capacity == old(self).extents.slots.capacity,
            final(self).mapping_cache.config == old(self).mapping_cache.config,
            final(os).wf(),
            other_pages_same(old(pages)@, final(pages)@),
            final(os).discards == old(os).discards,
            final(os).grant == old(os).grant || final(os).grant is None,
            old(self).asked(spec, *old(os), *final(os)),
            allocation is Some == old(self).can_serve(spec, old(pages)@, *old(os)),
            match allocation {
                Some(allocation) => {
                    let mapping = old(self).mapping_for(spec, *old(os))->0;
                    let index = old(self).extents.slots.next()->0;
                    &&& mapping.wf()
                    &&& mapping.len == spec.spec_mapping_len(PAGE_SIZE as int)
                    &&& allocation.ptr == placed(mapping, spec)->0
                    &&& allocation.ptr > 0
                    &&& allocation.ptr % spec.align == 0
                    &&& mapping.base <= allocation.ptr
                    &&& allocation.ptr + spec.size <= mapping.base + mapping.len
                    &&& allocation.zero_status == if old(self).mapping_cache.exact(
                        mapping.len,
                    ) is Some {
                        ZeroStatus::NeedsZeroing
                    } else {
                        ZeroStatus::KnownZeroed
                    }
                    &&& final(pages)@ == with_owner(
                        old(pages)@,
                        mapping.spec_range(),
                        owner_of(index as int),
                    )
                    &&& final(self).extents.slots.others_same(
                        old(self).extents.slots,
                        index as int,
                    )
                    &&& !old(self).extents.slots.holds(index as int)
                    &&& final(self).extents.slots.holds(index as int)
                    &&& final(self).extents.slots.value(index as int).base == allocation.ptr
                    &&& final(self).extents.slots.value(index as int).len == spec.size
                    &&& final(self).extents.slots.value(index as int).mapping == Some(mapping)
                    &&& final(os).effects == old(os).effects
                },
                None => final(pages)@ == old(pages)@ && gave_back(
                    old(self).mapping_for(spec, *old(os)),
                    old(os).effects@,
                    final(os).effects@,
                ) && forall|index: int| #[trigger]
                    final(self).extents.slots.holds(index) == old(self).extents.slots.holds(index)
                        && (old(self).extents.slots.holds(index)
                        ==> final(self).extents.slots.value(index)
                        == old(self).extents.slots.value(index)),
            },
    {
        proof {
            lemma_page_size_pow2();
        }
        let ghost before = *self;
        let len: usize = match spec.mapping_len(PAGE_SIZE) {
            Some(len) => len,
            None => return None,
        };
        let (mapping, zero_status) = match self.mapping_cache.take_exact(len) {
            Some(mapping) => (mapping, ZeroStatus::NeedsZeroing),
            None => match os.map(len) {
                Some(mapping) => (mapping, ZeroStatus::KnownZeroed),
                None => return None,
            },
        };
        let ghost chosen = mapping;
        proof {
            law_own_mapping_fits(mapping, spec, PAGE_SIZE as int);
        }
        let reservation = match self.extents.reserve() {
            Some(reservation) => reservation,
            None => {
                os.unmap(mapping);
                return None;
            },
        };
        let ghost index = reservation.id.spec_index();
        let ghost reserved = self.extents.slots;
        proof {
            let slots = self.extents.slots.slots@;
            let old_slots = before.extents.slots.slots@;
            assert forall|i: int| 0 <= i < slots.len() implies #[trigger] slot_ok(
                slots,
                pages@,
                i,
            ) by {
                if i != index {
                    assert(slots[i] == old_slots[i]);
                    assert(slot_ok(old_slots, pages@, i));
                }
            }
            assert forall|page: usize| #[trigger] pages@.contains_key(page) implies page_ok(
                slots,
                pages@,
                page,
            ) by {
                assert(page_ok(old_slots, pages@, page));
                if let PageOwner::Extent { heap, extent: other } = pages@[page] {
                    assert(before.extents.slots.holds(other as int));
                    assert(slots[other as int] == old_slots[other as int]);
                }
            }
        }
        match Extent::new(reservation.id, 0, mapping, spec) {
            Some(extent) => {
                let ptr: usize = extent.base;
                match self.insert_extent(reservation, extent, pages) {
                    Ok(()) => {
                        proof {
                            self.extents.slots.lemma_others_same_trans(
                                reserved,
                                before.extents.slots,
                                index,
                            );
                        }
                        Some(Allocation::new(ptr, zero_status))
                    },
                    Err(mapping) => {
                        proof {
                            let slots = self.extents.slots;
                            assert forall|i: int| #[trigger]
                                slots.holds(i) == before.extents.slots.holds(i) && (
                                before.extents.slots.holds(i) ==> slots.value(i)
                                    == before.extents.slots.value(i)) by {
                                assert(i != index && 0 <= i < slots.slots@.len() ==> slots.slots@[i]
                                    == reserved.slots@[i] && reserved.slots@[i]
                                    == before.extents.slots.slots@[i]);
                            }
                        }
                        os.unmap(mapping);
                        None
                    },
                }
            },
            None => {
                assert(false);
                None
            },
        }
    }

    /// What freeing `ptr` of the extent `id` answers.
    pub open spec fn freed(self, id: ExtentId, ptr: usize) -> Result<(), ExtentAllocatorError> {
        if !self.extents.holds(id) {
            Err(ExtentAllocatorError::MissingExtent)
        } else if self.extents.extent(id).base != ptr {
            Err(ExtentAllocatorError::InvalidPointer)
        } else {
            Ok(())
        }
    }

    /// Free a block. Its mapping is retained, or unmapped when a budget is spent.
    pub fn free(&mut self, id: ExtentId, ptr: usize, pages: &mut PageMap, os: &mut Os) -> (freed:
        Result<(), ExtentAllocatorError>)
        requires
            old(self).wf(old(pages)@),
            old(self).extents.slots.capacity < u32::MAX,
            old(os).wf(),
            id.index > 0,
        ensures
            final(self).wf(final(pages)@),
            final(self).extents.slots.capacity == old(self).extents.slots.capacity,
            final(self).mapping_cache.config == old(self).mapping_cache.config,
            final(os).wf(),
            final(os).grant == old(os).grant,
            freed == old(self).freed(id, ptr),
            other_pages_same(old(pages)@, final(pages)@),
            freed is Err ==> *final(self) == *old(self) && final(pages)@ == old(pages)@
                && *final(os) == *old(os),
            freed is Ok ==> {
                let mapping = old(self).extents.extent(id).mapping->0;
                &&& final(pages)@ == without_owner(old(pages)@, mapping.spec_range())
                &&& final(self).extents.slots.others_same(
                    old(self).extents.slots,
                    id.spec_index(),
                )
                &&& final(self).extents.slots.slots@.len() == old(self).extents.slots.slots@.len()
                &&& final(self).extents.slots.slots@[id.spec_index()] is Vacant
                &&& final(os).effects@ == old(os).effects@ + old(self).mapping_cache.leaving(
                    mapping,
                )
                &&& if old(self).mapping_cache.keeps(mapping.len as int) {
                    final(self).mapping_cache.slots@ == kept_in(
                        old(self).mapping_cache.slots@,
                        first_empty(old(self).mapping_cache.slots@, 0),
                        mapping,
                    )
                } else {
                    final(self).mapping_cache == old(self).mapping_cache
                }
            },
    {
        let ghost before = *self;
        let ghost old_pages = pages@;
        let ghost index = id.spec_index();
        let range = match self.extents.get(id) {
            Some(extent) => {
                assert(self.extents.slots.slots@[index] is Held);
                assert(slot_ok(self.extents.slots.slots@, pages@, index));
                if extent.base != ptr {
                    return Err(ExtentAllocatorError::InvalidPointer);
                }
                match &extent.mapping {
                    Some(mapping) => mapping.range(),
                    None => return Err(ExtentAllocatorError::InvalidMetadata),
                }
            },
            None => return Err(ExtentAllocatorError::MissingExtent),
        };
        let owner = PageOwner::Extent { heap: 0, extent: id.index() };
        match pages.unpublish(range, owner) {
            Ok(()) => {},
            Err(_) => return Err(ExtentAllocatorError::InvalidMetadata),
        }
        match self.extents.remove(id) {
            Some(extent) => {
                proof {
                    lemma_published_removed(
                        before.extents.slots.slots@,
                        self.extents.slots.slots@,
                        old_pages,
                        index,
                    );
                }
                match extent.mapping {
                    Some(mapping) => {
                        match self.mapping_cache.insert(mapping) {
                            Ok(()) => {
                                if matches!(self.mapping_cache.config.policy(), ExtentPolicy::Discard) {
                                    let _zeroed = os.discard(range);
                                }
                            },
                            Err(mapping) => os.unmap(mapping),
                        }
                        assert(os.effects@ =~= old(os).effects@ + before.mapping_cache.leaving(
                            before.extents.extent(id).mapping->0,
                        ));
                        Ok(())
                    },
                    None => Err(ExtentAllocatorError::InvalidMetadata),
                }
            },
            None => Err(ExtentAllocatorError::MissingExtent),
        }
    }

    /// Serve another layout from a block's own mapping, if that holds it.
    pub fn resize_in_place(
        &mut self,
        id: ExtentId,
        ptr: usize,
        spec: LayoutSpec,
        pages: &PageMap,
    ) -> (stays: Result<bool, ExtentAllocatorError>)
        requires
            old(self).wf(pages@),
            id.index > 0,
            spec.wf(),
        ensures
            final(self).wf(pages@),
            final(self).extents.slots.capacity == old(self).extents.slots.capacity,
            final(self).mapping_cache == old(self).mapping_cache,
            final(self).extents.slots.released == old(self).extents.slots.released,
            ({
                if !old(self).extents.holds(id) {
                    stays == Err::<bool, ExtentAllocatorError>(ExtentAllocatorError::MissingExtent)
                } else {
                    match old(self).extents.extent(id).resized(ptr, spec) {
                        Ok(fits) => stays == Ok::<bool, ExtentAllocatorError>(fits),
                        Err(_) => stays == Err::<bool, ExtentAllocatorError>(
                            ExtentAllocatorError::InvalidPointer,
                        ),
                    }
                }
            }),
            final(self).extents.slots.slots@.len() == old(self).extents.slots.slots@.len(),
            forall|index: int| #[trigger]
                final(self).extents.slots.holds(index) == old(self).extents.slots.holds(index) && (
                old(self).extents.slots.holds(index) ==> final(self).extents.slots.value(
                    index,
                ).base == old(self).extents.slots.value(index).base),
            stays != Ok::<bool, ExtentAllocatorError>(true) ==> final(self).extents.slots.slots@
                == old(self).extents.slots.slots@,
            final(self).extents.slots.others_same(old(self).extents.slots, id.spec_index()),
            stays == Ok::<bool, ExtentAllocatorError>(true) ==> final(self).extents.extent(id)
                == (Extent { len: spec.size, ..old(self).extents.extent(id) }),
    {
        let ghost before = self.extents.slots.slots@;
        let answer = self.extents.resize(id, ptr, spec);
        proof {
            let slots = self.extents.slots.slots@;
            if answer is Some && answer->0 != Ok::<bool, ExtentError>(true) {
                assert(slots =~= before);
            }
            assert forall|i: int| 0 <= i < slots.len() implies #[trigger] slot_ok(
                slots,
                pages@,
                i,
            ) by {
                assert(slot_ok(before, pages@, i));
                if i != id.spec_index() {
                    assert(slots[i] == before[i]);
                }
            }
            assert forall|page: usize| #[trigger] pages@.contains_key(page) implies page_ok(
                slots,
                pages@,
                page,
            ) by {
                assert(page_ok(before, pages@, page));
                if let PageOwner::Extent { heap, extent: other } = pages@[page] {
                    if other != id.spec_index() {
                        assert(slots[other as int] == before[other as int]);
                    }
                }
            }
            assert forall|index: int| #[trigger]
                self.extents.slots.holds(index) == old(self).extents.slots.holds(index) && (
                old(self).extents.slots.holds(index) ==> self.extents.slots.value(index).base
                    == old(self).extents.slots.value(index).base) by {
                if 0 <= index < slots.len() && index != id.spec_index() {
                    assert(slots[index] == before[index]);
                }
            }
        }
        match answer {
            Some(Ok(fits)) => Ok(fits),
            Some(Err(_)) => Err(ExtentAllocatorError::InvalidPointer),
            None => Err(ExtentAllocatorError::MissingExtent),
        }
    }

    /// Whether `ptr` is the block of the extent `id`.
    pub fn validate_allocated(&self, id: ExtentId, ptr: usize) -> (valid: Result<
        (),
        ExtentAllocatorError,
    >)
        requires
            id.index > 0,
        ensures
            valid == self.freed(id, ptr),
    {
        match self.extents.get(id) {
            Some(extent) => if extent.base != ptr {
                Err(ExtentAllocatorError::InvalidPointer)
            } else {
                Ok(())
            },
            None => Err(ExtentAllocatorError::MissingExtent),
        }
    }
}

/// A block that was freed, and whose mapping is kept, is what the next block of the same
/// mapping length gets, as long as no mapping of that length was kept before.
pub proof fn law_freed_mapping_serves_its_length(
    heap: ExtentAllocator,
    mapping: Mapping,
    after: MappingCache,
)
    requires
        heap.mapping_cache.wf(),
        mapping.wf(),
        heap.mapping_cache.keeps(mapping.len as int),
        heap.mapping_cache.exact(mapping.len) is None,
        after.slots@ == kept_in(
            heap.mapping_cache.slots@,
            first_empty(heap.mapping_cache.slots@, 0),
            mapping,
        ),
    ensures
        after.exact(mapping.len) == Some(mapping),
{
    crate::extent::mapping_cache::law_kept_mapping_is_reused(heap.mapping_cache, mapping);
    let at = first_with(after.slots@, mapping.len, 0);
    assert(at == first_empty(heap.mapping_cache.slots@, 0));
}

} // verus!
