use vstd::prelude::*;

use super::cache::{
    lemma_total_len_same,
    link_ok,
    linked,
    mapped_len,
    slot_at,
    ExtentCache,
};
use super::config::ExtentConfig;
use super::{law_own_mapping_fits, placed, Extent, ExtentId, ExtentInit, ExtentState};
use crate::arena::Arena;
use crate::config::Hints;
use crate::heap::error::HeapError;
use crate::layout::LayoutSpec;
use crate::memory::{
    covers,
    owned,
    unowned,
    with_owner,
    without_owner,
    Effect,
    Mapping,
    Os,
    PageMap,
    PageOwner,
    PAGE_SIZE,
};

verus! {

/// A heap's extents: published, cached, or unmapped.
pub struct ExtentHeap {
    pub extents: Arena<Extent>,
    pub cache: ExtentCache,
    /// Unmapped slots, linked through [`Extent::next`].
    pub unmapped: Option<u32>,
    pub hints: Hints,
    /// The unmapped slots in list order.
    pub hollow: Ghost<Seq<u32>>,
}

/// The owner of the pages of extent `slot` in heap `heap`.
pub open spec fn extent_owner(heap: u32, slot: u32) -> PageOwner {
    PageOwner::Extent { heap, extent: slot }
}

/// Every mapped extent owns its pages, and no other page names an extent of this
/// heap.
pub open spec fn extents_published(
    extents: Map<u32, Extent>,
    pages: Map<usize, PageOwner>,
    heap: u32,
) -> bool {
    &&& forall|slot: u32|
        #![trigger extents.contains_key(slot)]
        #![trigger extents[slot]]
        extents.contains_key(slot) && extents[slot].mapping is Some ==> owned(
            pages,
            extents[slot].mapping->0.spec_range(),
            extent_owner(heap, slot),
        )
    &&& forall|page: usize|
        #![trigger pages.contains_key(page)]
        #![trigger pages[page]]
        pages.contains_key(page) ==> (pages[page] matches PageOwner::Extent {
            heap: owning,
            extent,
        } ==> owning == heap ==> (extents.contains_key(extent) && extents[extent].mapping is Some
            && covers(extents[extent].mapping->0.spec_range(), page as int)))
}

/// Pages that belong to something other than an extent of `heap` are as before.
pub open spec fn foreign_same(
    before: Map<usize, PageOwner>,
    after: Map<usize, PageOwner>,
    heap: u32,
) -> bool {
    forall|page: usize|
        #![trigger before.contains_key(page)]
        #![trigger after.contains_key(page)]
        ({
            let kept = |pages: Map<usize, PageOwner>|
                pages.contains_key(page) && !(pages[page] matches PageOwner::Extent {
                    heap: owning,
                    ..
                } && owning == heap);
            kept(before) == kept(after) && (kept(before) ==> before[page] == after[page])
        })
}

impl ExtentHeap {
    /// Every slot but `loose` is live, cached, or on the unmapped list.
    pub open spec fn complete(self, loose: Option<u32>) -> bool {
        forall|slot: u32|
            #![trigger self.extents@.contains_key(slot)]
            #![trigger self.extents@[slot]]
            self.extents@.contains_key(slot) && loose != Some(slot) ==> {
                &&& self.extents@[slot].mapping is None ==> self.hollow@.contains(slot)
                &&& self.extents@[slot].mapping is Some && self.extents@[slot].state
                    == ExtentState::Free ==> self.cache.chain@.contains(slot)
            }
    }

    /// Slots are well-formed and know their place; both lists are intact.
    pub open spec fn lists_wf(self, heap: u32) -> bool {
        &&& self.extents.wf()
        &&& forall|slot: u32|
            #![trigger self.extents@.contains_key(slot)]
            #![trigger self.extents@[slot]]
            self.extents@.contains_key(slot) ==> self.extents@[slot].wf()
                && self.extents@[slot].id.index == slot + 1 && self.extents@[slot].heap == heap
        &&& self.cache.wf(self.extents@)
        &&& self.unmapped == slot_at(self.hollow@, 0)
        &&& linked(self.extents@, self.hollow@)
        &&& forall|k: int|
            0 <= k < self.hollow@.len() ==> self.extents@[#[trigger] self.hollow@[k]].mapping
                is None
    }

    pub open spec fn wf(self, heap: u32) -> bool {
        self.lists_wf(heap) && self.complete(None)
    }

    /// A live block starts at `addr`.
    pub open spec fn holds(self, addr: int) -> bool {
        exists|slot: u32| #[trigger]
            self.extents@.contains_key(slot) && self.extents@[slot].state == ExtentState::Allocated
                && self.extents@[slot].base == addr
    }

    pub fn new(config: ExtentConfig, hints: Hints) -> (heap: Self)
        ensures
            forall|slot: u32| #[trigger] heap.wf(slot),
            heap.extents@ == Map::<u32, Extent>::empty(),
            heap.extents.slots@.len() == 0,
            heap.extents.holes@.len() == 0,
            heap.hollow@.len() == 0,
            heap.cache.chain@.len() == 0,
            heap.cache.config == config,
            heap.hints == hints,
    {
        Self {
            extents: Arena::new(),
            cache: ExtentCache::new(config),
            unmapped: None,
            hints,
            hollow: Ghost(Seq::empty()),
        }
    }

    /// Borrow an extent slot. Slots are never removed.
    pub fn slot(&self, slot: u32) -> (extent: Option<&Extent>)
        ensures
            extent == if self.extents@.contains_key(slot) {
                Some(&self.extents@[slot])
            } else {
                None
            },
    {
        self.extents.get(slot)
    }

    /// Whether an extent is still allocated or claimed.
    pub fn has_live(&self) -> (live: bool)
        requires
            self.extents.wf(),
        ensures
            live == exists|slot: u32| #[trigger]
                self.extents@.contains_key(slot) && self.extents@[slot].live(),
    {
        let indices = self.extents.occupied();
        let mut i: usize = 0;
        while i < indices.len()
            invariant
                i <= indices@.len(),
                forall|k: int|
                    0 <= k < indices@.len() ==> self.extents@.contains_key(#[trigger] indices@[k]),
                forall|k: int| 0 <= k < i ==> !self.extents@[#[trigger] indices@[k]].live(),
            decreases indices@.len() - i,
        {
            match self.extents.get(indices[i]) {
                Some(extent) => {
                    if extent.is_live() {
                        assert(self.extents@.contains_key(indices@[i as int]));
                        return true;
                    }
                },
                None => {},
            }
            i = i + 1;
        }
        assert forall|slot: u32| #[trigger]
            self.extents@.contains_key(slot) implies !self.extents@[slot].live() by {
            let k = choose|k: int| 0 <= k < indices@.len() && indices@[k] == slot;
            assert(indices@[k] == slot);
        }
        false
    }

    /// The cached slot that a request for `len` bytes takes.
    pub open spec fn cached(self, len: int) -> Option<u32> {
        if exists|at: int| #[trigger] self.cache.found(self.extents@, len, at) {
            Some(
                self.cache.chain@[choose|at: int| #[trigger]
                    self.cache.found(self.extents@, len, at)],
            )
        } else {
            None
        }
    }

    /// A fresh mapping of `len` bytes can be mapped, published, and recorded.
    pub open spec fn can_grow(self, len: int, pages: Map<usize, PageOwner>, os: Os) -> bool {
        &&& os.can_map(len, PAGE_SIZE as int)
        &&& unowned(pages, os.grant->0.spec_range())
        &&& self.hollow@.len() > 0 || self.extents.has_room()
    }

    /// The slot that a fresh mapping goes to.
    pub open spec fn grow_slot(self) -> u32 {
        if self.hollow@.len() > 0 {
            self.hollow@[0]
        } else {
            self.extents.next_index() as u32
        }
    }

    /// Slots other than `slot` hold the same extents, up to list links.
    pub open spec fn others_same(self, before: ExtentHeap, slot: u32) -> bool {
        forall|other: u32|
            #![trigger self.extents@.contains_key(other)]
            #![trigger before.extents@.contains_key(other)]
            #![trigger self.extents@[other]]
            other != slot ==> self.extents@.contains_key(other) == before.extents@.contains_key(
                other,
            ) && (before.extents@.contains_key(other) ==> self.extents@[other] == (Extent {
                next: self.extents@[other].next,
                ..before.extents@[other]
            }))
    }

    /// Slot `slot` is neither cached nor on the unmapped list.
    pub open spec fn unlisted(self, slot: u32) -> bool {
        !self.cache.chain@.contains(slot) && !self.hollow@.contains(slot)
    }

    /// Changing an unlisted slot keeps both lists.
    pub proof fn lemma_set_loose(self, after: ExtentHeap, slot: u32, heap: u32)
        requires
            self.lists_wf(heap),
            self.complete(Some(slot)),
            self.unlisted(slot),
            after.extents.wf(),
            after.extents@ == self.extents@.insert(slot, after.extents@[slot]),
            after.cache == self.cache,
            after.unmapped == self.unmapped,
            after.hollow == self.hollow,
            after.extents@[slot].wf(),
            after.extents@[slot].id.index == slot + 1,
            after.extents@[slot].heap == heap,
        ensures
            after.lists_wf(heap),
            after.complete(Some(slot)),
            after.others_same(self, slot),
            after.extents@[slot].live() ==> after.complete(None),
    {
        let chain = self.cache.chain@;
        let hollow = self.hollow@;
        assert forall|k: int| 0 <= k < chain.len() implies #[trigger] link_ok(
            after.extents@,
            chain,
            k,
        ) by {
            assert(link_ok(self.extents@, chain, k));
        }
        assert forall|k: int| 0 <= k < hollow.len() implies #[trigger] link_ok(
            after.extents@,
            hollow,
            k,
        ) by {
            assert(link_ok(self.extents@, hollow, k));
        }
        lemma_total_len_same(self.extents@, after.extents@, chain);
        assert forall|k: int| 0 <= k < chain.len() implies (
        after.extents@[#[trigger] chain[k]].mapping is Some && after.extents@[chain[k]].state
            == ExtentState::Free) by {}
    }

    /// The lists depend only on the extents.
    pub proof fn lemma_same_extents(self, after: ExtentHeap, heap: u32)
        requires
            self.wf(heap),
            after.extents.wf(),
            after.extents@ == self.extents@,
            after.cache == self.cache,
            after.unmapped == self.unmapped,
            after.hollow == self.hollow,
        ensures
            after.wf(heap),
    {
        assert forall|k: int| 0 <= k < self.hollow@.len() implies #[trigger] link_ok(
            after.extents@,
            self.hollow@,
            k,
        ) by {
            assert(link_ok(self.extents@, self.hollow@, k));
        }
    }

    /// Changing a slot's length keeps both lists.
    pub proof fn lemma_set_len(self, after: ExtentHeap, slot: u32, heap: u32)
        requires
            self.wf(heap),
            self.extents@.contains_key(slot),
            after.extents.wf(),
            after.extents@ == self.extents@.insert(slot, after.extents@[slot]),
            after.extents@[slot] == (Extent {
                len: after.extents@[slot].len,
                ..self.extents@[slot]
            }),
            after.extents@[slot].wf(),
            after.cache == self.cache,
            after.unmapped == self.unmapped,
            after.hollow == self.hollow,
        ensures
            after.wf(heap),
            after.others_same(self, slot),
    {
        self.lemma_set_detail(after, slot, heap);
    }

    /// Changing a slot's queued mark keeps both lists.
    pub proof fn lemma_set_link(self, after: ExtentHeap, slot: u32, heap: u32)
        requires
            self.wf(heap),
            self.extents@.contains_key(slot),
            after.extents.wf(),
            after.extents@ == self.extents@.insert(slot, after.extents@[slot]),
            after.extents@[slot] == (Extent {
                link: after.extents@[slot].link,
                ..self.extents@[slot]
            }),
            after.cache == self.cache,
            after.unmapped == self.unmapped,
            after.hollow == self.hollow,
        ensures
            after.wf(heap),
            after.others_same(self, slot),
    {
        assert(self.extents@[slot].wf());
        self.lemma_set_detail(after, slot, heap);
    }

    /// Changing a slot's queued mark or length keeps both lists.
    proof fn lemma_set_detail(self, after: ExtentHeap, slot: u32, heap: u32)
        requires
            self.wf(heap),
            self.extents@.contains_key(slot),
            after.extents.wf(),
            after.extents@ == self.extents@.insert(slot, after.extents@[slot]),
            after.extents@[slot] == (Extent {
                link: after.extents@[slot].link,
                len: after.extents@[slot].len,
                ..self.extents@[slot]
            }),
            after.extents@[slot].wf(),
            after.cache == self.cache,
            after.unmapped == self.unmapped,
            after.hollow == self.hollow,
        ensures
            after.wf(heap),
            after.others_same(self, slot),
    {
        let chain = self.cache.chain@;
        let hollow = self.hollow@;
        assert forall|k: int| 0 <= k < chain.len() implies #[trigger] link_ok(
            after.extents@,
            chain,
            k,
        ) by {
            assert(link_ok(self.extents@, chain, k));
        }
        assert forall|k: int| 0 <= k < hollow.len() implies #[trigger] link_ok(
            after.extents@,
            hollow,
            k,
        ) by {
            assert(link_ok(self.extents@, hollow, k));
        }
        lemma_total_len_same(self.extents@, after.extents@, chain);
        assert forall|k: int| 0 <= k < chain.len() implies (
        after.extents@[#[trigger] chain[k]].mapping is Some && after.extents@[chain[k]].state
            == ExtentState::Free) by {
            assert(self.extents@[chain[k]].mapping is Some);
        }
        assert forall|k: int| 0 <= k < hollow.len() implies
            after.extents@[#[trigger] hollow[k]].mapping is None by {
            assert(self.extents@[hollow[k]].mapping is None);
        }
    }

    /// After a cache hit only the taken slot is loose.
    proof fn lemma_acquired(self, before: ExtentHeap, slot: u32, heap: u32)
        requires
            before.wf(heap),
            before.cache.chain@.contains(slot),
            self.extents.wf(),
            self.cache.wf(self.extents@),
            self.unmapped == before.unmapped,
            self.hollow == before.hollow,
            self.extents@.dom() == before.extents@.dom(),
            forall|other: u32| #[trigger]
                before.extents@.contains_key(other) ==> self.extents@[other] == (Extent {
                    next: self.extents@[other].next,
                    ..before.extents@[other]
                }),
            forall|other: u32| #[trigger]
                before.extents@.contains_key(other) && !before.cache.chain@.contains(other)
                    ==> self.extents@[other] == before.extents@[other],
            self.cache.chain@ == before.cache.chain@.remove(before.cache.chain@.index_of(slot)),
            !self.cache.chain@.contains(slot),
        ensures
            self.lists_wf(heap),
            self.complete(Some(slot)),
            self.unlisted(slot),
            self.others_same(before, slot),
            before.extents@.contains_key(slot),
            before.extents@[slot].mapping is Some,
            before.extents@[slot].state == ExtentState::Free,
    {
        let chain = before.cache.chain@;
        let hollow = before.hollow@;
        let at = chain.index_of(slot);
        assert(chain[at] == slot);
        assert(link_ok(before.extents@, chain, at));
        assert forall|other: u32| #[trigger] before.extents@.contains_key(other) == self.extents@.contains_key(other) by {
            assert(before.extents@.dom().contains(other) == self.extents@.dom().contains(other));
        }
        assert forall|k: int| 0 <= k < hollow.len() implies #[trigger] link_ok(
            self.extents@,
            hollow,
            k,
        ) && self.extents@[hollow[k]].mapping is None by {
            assert(link_ok(before.extents@, hollow, k));
            assert(before.extents@[hollow[k]].mapping is None);
            if chain.contains(hollow[k]) {
                let j = choose|j: int| 0 <= j < chain.len() && chain[j] == hollow[k];
                assert(before.extents@[chain[j]].mapping is Some);
            }
        }
        if hollow.contains(slot) {
            let k = choose|k: int| 0 <= k < hollow.len() && hollow[k] == slot;
            assert(before.extents@[hollow[k]].mapping is None);
        }
        assert forall|other: u32|
            #![trigger self.extents@.contains_key(other)]
            #![trigger self.extents@[other]]
            self.extents@.contains_key(other) implies self.extents@[other].wf()
            && self.extents@[other].id.index == other + 1 && self.extents@[other].heap == heap by {
            assert(before.extents@.contains_key(other));
            assert(before.extents@[other].wf());
        }
        assert forall|k: int| 0 <= k < hollow.len() implies
            self.extents@[#[trigger] hollow[k]].mapping is None by {
            assert(link_ok(self.extents@, hollow, k));
        }
        assert forall|other: u32|
            #![trigger self.extents@.contains_key(other)]
            self.extents@.contains_key(other) && other != slot implies {
            &&& self.extents@[other].mapping is None ==> hollow.contains(other)
            &&& self.extents@[other].mapping is Some && self.extents@[other].state
                == ExtentState::Free ==> self.cache.chain@.contains(other)
        } by {
            if chain.contains(other) {
                let j = choose|j: int| 0 <= j < chain.len() && chain[j] == other;
                if j < at {
                    assert(self.cache.chain@[j] == other);
                } else {
                    assert(self.cache.chain@[j - 1] == other);
                }
            }
        }
    }

    /// The slot that a cache hit takes is the cached one.
    proof fn lemma_cached(self, slot: u32, len: int)
        requires
            self.cache.chain@.no_duplicates(),
            self.cache.chain@.contains(slot),
            self.cache.found(self.extents@, len, self.cache.chain@.index_of(slot)),
        ensures
            self.cached(len) == Some(slot),
    {
        let chain = self.cache.chain@;
        let at = chain.index_of(slot);
        let other = choose|at: int| #[trigger] self.cache.found(self.extents@, len, at);
        assert(self.cache.found(self.extents@, len, other));
        if other < at {
            assert(mapped_len(self.extents@, chain[other]) != len);
        } else if at < other {
            assert(mapped_len(self.extents@, chain[at]) != len);
        }
        assert(chain[at] == slot);
    }

    /// Put an unmapped slot in front of the unmapped list.
    fn push_unmapped(&mut self, slot: u32, heap: Ghost<u32>)
        requires
            old(self).lists_wf(heap@),
            old(self).complete(Some(slot)),
            old(self).unlisted(slot),
            old(self).extents@.contains_key(slot),
            old(self).extents@[slot].mapping is None,
        ensures
            final(self).wf(heap@),
            final(self).hollow@ == seq![slot] + old(self).hollow@,
            final(self).room_kept(*old(self)),
            final(self).hints == old(self).hints,
            final(self).cache == old(self).cache,
            final(self).extents@ == old(self).extents@.insert(
                slot,
                Extent { next: old(self).unmapped, ..old(self).extents@[slot] },
            ),
            final(self).others_same(*old(self), slot),
    {
        let ghost before = *self;
        let next = self.unmapped;
        match self.extents.get_mut(slot) {
            Some(extent) => {
                extent.set_next(next);
            },
            None => {},
        }
        proof {
            before.lemma_set_loose(*self, slot, heap@);
        }
        self.unmapped = Some(slot);
        proof {
            let hollow = before.hollow@;
            let longer = seq![slot] + hollow;
            self.hollow@ = longer;
            assert forall|k: int| 0 <= k < longer.len() implies #[trigger] link_ok(
                self.extents@,
                longer,
                k,
            ) by {
                if k > 0 {
                    assert(longer[k] == hollow[k - 1]);
                    assert(link_ok(before.extents@, hollow, k - 1));
                    assert(hollow.contains(hollow[k - 1]));
                    assert(slot_at(longer, k + 1) == slot_at(hollow, k));
                } else {
                    assert(slot_at(longer, 1) == slot_at(hollow, 0));
                }
            }
            assert forall|k: int| 0 <= k < longer.len() implies
                self.extents@[#[trigger] longer[k]].mapping is None by {
                if k > 0 {
                    assert(longer[k] == hollow[k - 1]);
                    assert(hollow.contains(hollow[k - 1]));
                }
            }
            assert forall|other: u32| hollow.contains(other) implies #[trigger] longer.contains(
                other,
            ) by {
                let k = choose|k: int| 0 <= k < hollow.len() && hollow[k] == other;
                assert(longer[k + 1] == other);
            }
            assert(longer[0] == slot);
            assert(longer.no_duplicates());
        }
    }

    /// Take the newest slot off the unmapped list.
    fn pop_unmapped(&mut self, heap: Ghost<u32>) -> (slot: Option<u32>)
        requires
            old(self).wf(heap@),
        ensures
            slot == slot_at(old(self).hollow@, 0),
            slot is None ==> *final(self) == *old(self),
            slot matches Some(slot) ==> {
                &&& final(self).lists_wf(heap@)
                &&& final(self).complete(Some(slot))
                &&& final(self).unlisted(slot)
                &&& final(self).hollow@ == old(self).hollow@.skip(1)
                &&& final(self).hints == old(self).hints
                &&& final(self).cache == old(self).cache
                &&& old(self).extents@.contains_key(slot)
                &&& old(self).extents@[slot].mapping is None
                &&& final(self).extents@ == old(self).extents@.insert(
                    slot,
                    Extent { next: None, ..old(self).extents@[slot] },
                )
                &&& final(self).others_same(*old(self), slot)
            },
    {
        let ghost before = *self;
        let ghost hollow = self.hollow@;
        match self.unmapped {
            None => None,
            Some(slot) => {
                assert(link_ok(before.extents@, hollow, 0));
                assert(before.extents@[hollow[0]].mapping is None);
                match self.extents.get_mut(slot) {
                    None => None,
                    Some(extent) => {
                        self.unmapped = extent.next();
                        extent.set_next(None);
                        proof {
                            let rest = hollow.skip(1);
                            self.hollow@ = rest;
                            let chain = before.cache.chain@;
                            assert forall|k: int| 0 <= k < rest.len() implies #[trigger] link_ok(
                                self.extents@,
                                rest,
                                k,
                            ) by {
                                assert(link_ok(before.extents@, hollow, k + 1));
                                assert(rest[k] == hollow[k + 1]);
                                assert(slot_at(rest, k + 1) == slot_at(hollow, k + 2));
                            }
                            assert forall|k: int| 0 <= k < rest.len() implies
                                self.extents@[#[trigger] rest[k]].mapping is None by {
                                assert(rest[k] == hollow[k + 1]);
                            }
                            assert forall|k: int| 0 <= k < chain.len() implies #[trigger] chain[k]
                                != slot by {
                                assert(before.extents@[chain[k]].mapping is Some);
                            }
                            assert forall|k: int| 0 <= k < chain.len() implies #[trigger] link_ok(
                                self.extents@,
                                chain,
                                k,
                            ) by {
                                assert(link_ok(before.extents@, chain, k));
                            }
                            lemma_total_len_same(before.extents@, self.extents@, chain);
                            assert(slot_at(rest, 0) == slot_at(hollow, 1));
                            if rest.contains(slot) {
                                let k = choose|k: int| 0 <= k < rest.len() && rest[k] == slot;
                                assert(hollow[k + 1] == hollow[0]);
                            }
                            assert forall|other: u32|
                                hollow.contains(other) && other != slot implies #[trigger] rest.contains(
                                other,
                            ) by {
                                let k = choose|k: int| 0 <= k < hollow.len() && hollow[k] == other;
                                assert(rest[k - 1] == other);
                            }
                        }
                        Some(slot)
                    },
                }
            },
        }
    }

    /// Publish an allocated slot's pages. On a conflict the slot gives its mapping up
    /// and joins the unmapped list.
    pub fn insert_extent(&mut self, slot: u32, heap: u32, pages: &mut PageMap, os: &mut Os) -> (inserted:
        bool)
        requires
            old(self).lists_wf(heap),
            old(self).complete(Some(slot)),
            old(self).unlisted(slot),
            old(self).extents@.contains_key(slot),
            old(self).extents@[slot].mapping is Some,
            old(self).extents@[slot].state == ExtentState::Allocated,
            old(os).wf(),
        ensures
            final(self).wf(heap),
            final(os).wf(),
            final(os).grant == old(os).grant,
            final(os).wanted == old(os).wanted,
            final(os).discards == old(os).discards,
            final(self).cache == old(self).cache,
            final(self).others_same(*old(self), slot),
            final(self).extents@.contains_key(slot),
            final(self).extents@[slot].link == old(self).extents@[slot].link,
            final(self).hints == old(self).hints,
            ({
                let range = old(self).extents@[slot].mapping->0.spec_range();
                &&& inserted == unowned(old(pages)@, range)
                &&& inserted ==> *final(self) == *old(self) && final(pages)@ == with_owner(
                    old(pages)@,
                    range,
                    extent_owner(heap, slot),
                ) && final(os).effects == old(os).effects
                &&& !inserted ==> final(self).extents@[slot].mapping is None && final(pages)@ == old(pages)@ && final(os).effects@ == old(os).effects@.push(Effect::Unmap(range))
                    && final(self).hollow@ == seq![slot] + old(self).hollow@
            }),
    {
        let ghost before = *self;
        let range = match self.extents.get(slot) {
            None => {
                return false;
            },
            Some(extent) => match &extent.mapping {
                None => {
                    return false;
                },
                Some(mapping) => mapping.range(),
            },
        };
        let owner = PageOwner::Extent { heap, extent: slot };
        match pages.publish(range, owner) {
            Ok(()) => {
                proof {
                    assert(self.extents@ =~= self.extents@.insert(slot, self.extents@[slot]));
                    before.lemma_set_loose(*self, slot, heap);
                }
                true
            },
            Err(_) => {
                let mut dropped: Option<Mapping> = None;
                match self.extents.get_mut(slot) {
                    Some(extent) => {
                        dropped = extent.unmount();
                    },
                    None => {},
                }
                proof {
                    before.lemma_set_loose(*self, slot, heap);
                }
                match dropped {
                    Some(mapping) => {
                        os.unmap(mapping);
                    },
                    None => {},
                }
                self.push_unmapped(slot, Ghost(heap));
                false
            },
        }
    }

    /// Record a fresh mapping with a block for `spec` in it: in an unmapped slot,
    /// else in a new one.
    fn allocate_mapping(
        &mut self,
        spec: LayoutSpec,
        heap: u32,
        mapping: Mapping,
        pages: &mut PageMap,
        os: &mut Os,
    ) -> (ptr: Option<usize>)
        requires
            old(self).wf(heap),
            extents_published(old(self).extents@, old(pages)@, heap),
            mapping.wf(),
            spec.wf(),
            placed(mapping, spec) is Some,
            old(os).wf(),
        ensures
            final(self).wf(heap),
            extents_published(final(self).extents@, final(pages)@, heap),
            foreign_same(old(pages)@, final(pages)@, heap),
            final(os).wf(),
            final(os).grant == old(os).grant,
            final(os).wanted == old(os).wanted,
            final(os).discards == old(os).discards,
            final(self).cache == old(self).cache,
            final(self).hints == old(self).hints,
            final(self).others_same(*old(self), old(self).grow_slot()),
            old(self).extents@.contains_key(old(self).grow_slot()) ==> final(self).extents@.contains_key(old(self).grow_slot()) && final(self).extents@[old(self).grow_slot()].link == old(self).extents@[old(self).grow_slot()].link,
            old(self).extents@.contains_key(old(self).grow_slot()) ==> !old(self).extents@[old(self).grow_slot()].live(),
            ptr is Some == (unowned(old(pages)@, mapping.spec_range()) && (old(self).hollow@.len()
                > 0 || old(self).extents.has_room())),
            ptr is Some ==> ptr == placed(mapping, spec) && final(self).extents@[old(self).grow_slot()].mapping == Some(mapping) && allocated_at(
                *final(self),
                old(self).grow_slot(),
                ptr->0,
                spec,
            ) && final(os).effects == old(os).effects && final(pages)@ == with_owner(
                old(pages)@,
                mapping.spec_range(),
                extent_owner(heap, old(self).grow_slot()),
            ),
            ptr is None && final(self).extents@.contains_key(old(self).grow_slot())
                ==> final(self).extents@[old(self).grow_slot()].mapping is None,
            ptr is None ==> final(pages)@ == old(pages)@ && final(os).effects@ == old(os).effects@.push(Effect::Unmap(mapping.spec_range())) && (final(self).extents@.contains_key(old(self).grow_slot()) ==> !final(self).extents@[old(self).grow_slot()].live()),
    {
        let ghost before = *self;
        let ghost old_pages = pages@;
        proof {
            self.extents.lemma_bounds();
        }
        match self.pop_unmapped(Ghost(heap)) {
            Some(slot) => {
                let ghost popped = *self;
                let mut mounted: Option<usize> = None;
                match self.extents.get_mut(slot) {
                    None => {},
                    Some(extent) => match extent.remount(mapping, spec) {
                        Ok(ptr) => {
                            mounted = Some(ptr);
                        },
                        Err(_) => {},
                    },
                }
                proof {
                    popped.lemma_set_loose(*self, slot, heap);
                }
                let ghost loaded = *self;
                let inserted = self.insert_extent(slot, heap, pages, os);
                proof {
                    if inserted {
                        lemma_published_added(
                            before.extents@,
                            self.extents@,
                            old_pages,
                            heap,
                            slot,
                        );
                    } else {
                        lemma_published_kept(before.extents@, self.extents@, old_pages, heap, slot);
                        lemma_foreign_same_refl(old_pages, heap);
                    }
                }
                if inserted {
                    mounted
                } else {
                    None
                }
            },
            None => {
                proof {
                    lemma_foreign_same_refl(old_pages, heap);
                }
                match self.extents.vacant() {
                    None => {
                        os.unmap(mapping);
                        None
                    },
                    Some(slot) => match ExtentId::from_index(slot) {
                        None => {
                            os.unmap(mapping);
                            None
                        },
                        Some(id) => match Extent::new(id, heap, mapping, spec) {
                            None => None,
                            Some(extent) => {
                                let ptr: usize = extent.ptr();
                                let placed_in = self.extents.insert(slot, extent);
                                if !placed_in {
                                    return None;
                                }
                                proof {
                                    before.lemma_unused_unlisted(slot, heap);
                                    before.lemma_set_loose(*self, slot, heap);
                                }
                                let inserted = self.insert_extent(slot, heap, pages, os);
                                proof {
                                    if inserted {
                                        lemma_published_added(
                                            before.extents@,
                                            self.extents@,
                                            old_pages,
                                            heap,
                                            slot,
                                        );
                                    } else {
                                        lemma_published_kept(
                                            before.extents@,
                                            self.extents@,
                                            old_pages,
                                            heap,
                                            slot,
                                        );
                                    }
                                }
                                if inserted {
                                    Some(ptr)
                                } else {
                                    None
                                }
                            },
                        },
                    },
                }
            },
        }
    }

    /// A slot that holds nothing is on no list.
    proof fn lemma_unused_unlisted(self, slot: u32, heap: u32)
        requires
            self.lists_wf(heap),
            !self.extents@.contains_key(slot),
        ensures
            self.unlisted(slot),
    {
        let chain = self.cache.chain@;
        let hollow = self.hollow@;
        if chain.contains(slot) {
            let k = choose|k: int| 0 <= k < chain.len() && chain[k] == slot;
            assert(link_ok(self.extents@, chain, k));
        }
        if hollow.contains(slot) {
            let k = choose|k: int| 0 <= k < hollow.len() && hollow[k] == slot;
            assert(link_ok(self.extents@, hollow, k));
        }
    }

    /// A live slot is on no list.
    pub proof fn lemma_live_unlisted(self, slot: u32, heap: u32)
        requires
            self.lists_wf(heap),
            self.extents@.contains_key(slot),
            self.extents@[slot].live(),
        ensures
            self.unlisted(slot),
            self.extents@[slot].mapping is Some,
    {
        let chain = self.cache.chain@;
        let hollow = self.hollow@;
        assert(self.extents@[slot].wf());
        if chain.contains(slot) {
            let k = choose|k: int| 0 <= k < chain.len() && chain[k] == slot;
            assert(self.extents@[chain[k]].state == ExtentState::Free);
        }
        if hollow.contains(slot) {
            let k = choose|k: int| 0 <= k < hollow.len() && hollow[k] == slot;
            assert(self.extents@[hollow[k]].mapping is None);
        }
    }

    /// Allocate one block in a mapping of its own: a cached one of exactly the right
    /// length, else a fresh one.
    pub fn allocate(
        &mut self,
        spec: LayoutSpec,
        heap: u32,
        pages: &mut PageMap,
        init: ExtentInit,
        os: &mut Os,
    ) -> (allocated: Result<Option<usize>, HeapError>)
        requires
            old(self).wf(heap),
            extents_published(old(self).extents@, old(pages)@, heap),
            spec.wf(),
            old(os).wf(),
        ensures
            final(self).wf(heap),
            extents_published(final(self).extents@, final(pages)@, heap),
            foreign_same(old(pages)@, final(pages)@, heap),
            final(os).wf(),
            final(os).discards == old(os).discards,
            final(self).cache.config == old(self).cache.config,
            final(self).hints == old(self).hints,
            old(self).asked(spec, *old(os), *final(os)),
            allocated is Ok,
            allocated->Ok_0 == old(self).allocation(spec, old(pages)@, *old(os)),
            final(self).others_same(*old(self), old(self).target(spec)),
            old(self).extents@.contains_key(old(self).target(spec)) ==> final(self).extents@.contains_key(old(self).target(spec)) && final(self).extents@[old(self).target(spec)].link == old(self).extents@[old(self).target(spec)].link,
            old(self).extents@.contains_key(old(self).target(spec)) ==> !old(self).extents@[old(self).target(spec)].live(),
            allocated->Ok_0 matches Some(ptr) ==> allocated_at(
                *final(self),
                old(self).target(spec),
                ptr,
                spec,
            ),
            forall|page: usize| #[trigger]
                final(pages)@.contains_key(page) && !old(pages)@.contains_key(page) ==> old(
                    os,
                ).offers(page as int),
            allocated->Ok_0 is None ==> final(pages)@ == old(pages)@ && (final(self).extents@.contains_key(old(self).target(spec)) ==> !final(self).extents@[old(self).target(spec)].live()),
            final(os).grant == old(os).grant || final(os).grant is None,
            allocated->Ok_0 is None ==> final(os).effects == old(os).effects || (
            old(os).grant is Some && final(os).effects@ == old(os).effects@.push(
                Effect::Unmap(old(os).grant->0.spec_range()),
            )),
            allocated->Ok_0 is None && final(self).extents@.contains_key(old(self).target(spec))
                ==> final(self).extents@[old(self).target(spec)].mapping is None || (
            old(self).extents@.contains_key(old(self).target(spec))
                && final(self).extents@[old(self).target(spec)] == old(self).extents@[old(self).target(spec)]),
            old(self).is_hit(spec) ==> old(self).extents@.contains_key(old(self).target(spec))
                && old(self).extents@[old(self).target(spec)].mapping is Some,
            old(self).is_hit(spec) ==> final(pages)@ == old(pages)@ && final(os).grant == old(os).grant && final(self).extents@[old(self).target(spec)].mapping == old(self).extents@[old(self).target(spec)].mapping && final(os).effects@ == old(os).effects@
                + (if init == ExtentInit::Zeroed && !old(self).extents@[old(self).target(
                spec,
            )].clean {
                old(self).extents@[old(self).target(spec)].zeroing(
                    spec,
                    allocated->Ok_0->0,
                    old(os).discards,
                )
            } else {
                Seq::<Effect>::empty()
            }),
            !old(self).is_hit(spec) && allocated->Ok_0 is Some ==> final(os).grant is None && final(self).extents@[old(self).target(spec)].mapping == old(os).grant && final(os).effects
                == old(os).effects,
    {
        let ghost before = *self;
        let ghost old_pages = pages@;
        let ghost wide = spec.spec_mapping_len(PAGE_SIZE as int);
        proof {
            crate::layout::lemma_page_size_pow2();
            lemma_foreign_same_refl(old_pages, heap);
            before.lemma_target(spec, heap);
        }
        let len: usize = match spec.mapping_len(Os::page_size()) {
            None => {
                return Ok(None);
            },
            Some(len) => len,
        };
        let taken = match self.cache.acquire(&mut self.extents, len) {
            Err(error) => {
                return Err(error);
            },
            Ok(taken) => taken,
        };
        match taken {
            Some(slot) => {
                proof {
                    before.lemma_cached(slot, wide);
                    self.lemma_acquired(before, slot, heap);
                    law_own_mapping_fits(
                        before.extents@[slot].mapping->0,
                        spec,
                        PAGE_SIZE as int,
                    );
                }
                let ghost acquired = *self;
                let mut reused: Option<usize> = None;
                match self.extents.get_mut(slot) {
                    None => {},
                    Some(extent) => {
                        reused = extent.reuse(spec, init, os);
                    },
                }
                proof {
                    acquired.lemma_set_loose(*self, slot, heap);
                    lemma_published_kept(before.extents@, self.extents@, old_pages, heap, slot);
                }
                match reused {
                    Some(ptr) => Ok(Some(ptr)),
                    None => Err(HeapError::MissingExtent),
                }
            },
            None => {
                proof {
                    assert(before.cached(wide) is None) by {
                        if before.cached(wide) is Some {
                            let at = choose|at: int| #[trigger]
                                before.cache.found(before.extents@, wide, at);
                            assert(mapped_len(before.extents@, before.cache.chain@[at]) == wide);
                        }
                    }
                }
                match os.map(len) {
                    None => Ok(None),
                    Some(mapping) => {
                        proof {
                            law_own_mapping_fits(mapping, spec, PAGE_SIZE as int);
                        }
                        Ok(self.allocate_mapping(spec, heap, mapping, pages, os))
                    },
                }
            },
        }
    }

    /// A mapping for `spec` has a length that fits the address space.
    pub open spec fn mappable(spec: LayoutSpec) -> bool {
        spec.size + spec.align - 1 + PAGE_SIZE - 1 <= usize::MAX
    }

    /// A request for `spec` is served from the cache.
    pub open spec fn is_hit(self, spec: LayoutSpec) -> bool {
        Self::mappable(spec) && self.cached(spec.spec_mapping_len(PAGE_SIZE as int)) is Some
    }

    /// What a request for `spec` asks of the system: nothing where a cached mapping serves
    /// or no mapping could; else one mapping of the layout's length, asked for exactly
    /// where the one on offer is another.
    pub open spec fn asked(self, spec: LayoutSpec, os: Os, after: Os) -> bool {
        let len = spec.spec_mapping_len(PAGE_SIZE as int);
        if self.is_hit(spec) || !Self::mappable(spec) {
            after.wanted == os.wanted && after.grant == os.grant
        } else if os.can_map(len, PAGE_SIZE as int) {
            after.wanted is None && after.grant is None
        } else {
            after.asks_pages(len) && after.grant == os.grant && after.effects == os.effects
        }
    }

    /// No fewer slots can take a fresh mapping than before.
    pub open spec fn room_kept(self, before: ExtentHeap) -> bool {
        &&& self.hollow@.len() >= before.hollow@.len()
        &&& self.extents.has_room() == before.extents.has_room()
    }

    /// The slot that a request for `spec` takes.
    pub open spec fn target(self, spec: LayoutSpec) -> u32 {
        if self.is_hit(spec) {
            self.cached(spec.spec_mapping_len(PAGE_SIZE as int))->0
        } else {
            self.grow_slot()
        }
    }

    /// The block that a request for `spec` gets.
    pub open spec fn allocation(
        self,
        spec: LayoutSpec,
        pages: Map<usize, PageOwner>,
        os: Os,
    ) -> Option<usize> {
        if self.is_hit(spec) {
            placed(self.extents@[self.target(spec)].mapping->0, spec)
        } else if Self::mappable(spec) && self.can_grow(
            spec.spec_mapping_len(PAGE_SIZE as int),
            pages,
            os,
        ) {
            placed(os.grant->0, spec)
        } else {
            None
        }
    }

    /// A cached mapping of the right length serves its request.
    pub proof fn lemma_hit_serves(
        self,
        spec: LayoutSpec,
        heap: u32,
        pages: Map<usize, PageOwner>,
        os: Os,
    )
        requires
            self.wf(heap),
            spec.wf(),
            self.is_hit(spec),
        ensures
            self.allocation(spec, pages, os) is Some,
    {
        let len = spec.spec_mapping_len(PAGE_SIZE as int);
        let at = choose|at: int| #[trigger] self.cache.found(self.extents@, len, at);
        let slot = self.cache.chain@[at];
        assert(link_ok(self.extents@, self.cache.chain@, at));
        assert(self.extents@[slot].wf());
        crate::layout::lemma_page_size_pow2();
        law_own_mapping_fits(self.extents@[slot].mapping->0, spec, PAGE_SIZE as int);
    }

    /// The slot that a request takes is not live.
    proof fn lemma_target(self, spec: LayoutSpec, heap: u32)
        requires
            self.wf(heap),
        ensures
            self.extents@.contains_key(self.target(spec)) ==> !self.extents@[self.target(
                spec,
            )].live(),
    {
        let slot = self.target(spec);
        self.extents.lemma_bounds();
        if self.is_hit(spec) {
            let len = spec.spec_mapping_len(PAGE_SIZE as int);
            let at = choose|at: int| #[trigger] self.cache.found(self.extents@, len, at);
            assert(self.extents@[self.cache.chain@[at]].state == ExtentState::Free);
        } else if self.hollow@.len() > 0 {
            assert(link_ok(self.extents@, self.hollow@, 0));
            assert(self.extents@[self.hollow@[0]].mapping is None);
            assert(self.extents@[slot].wf());
        }
    }

    /// The slot that a request takes has an index in range.
    pub proof fn lemma_target_bound(self, spec: LayoutSpec, heap: u32)
        requires
            self.wf(heap),
        ensures
            self.target(spec) < u32::MAX,
            self.extents@.contains_key(self.target(spec)) ==> !self.extents@[self.target(
                spec,
            )].live(),
    {
        self.lemma_target(spec, heap);
        self.extents.lemma_bounds();
        if self.is_hit(spec) {
            let len = spec.spec_mapping_len(PAGE_SIZE as int);
            let at = choose|at: int| #[trigger] self.cache.found(self.extents@, len, at);
            assert(link_ok(self.extents@, self.cache.chain@, at));
        } else if self.hollow@.len() > 0 {
            assert(link_ok(self.extents@, self.hollow@, 0));
        } else {
            self.extents.lemma_next_bound();
        }
    }

    /// What a released slot became: cached, or unmapped.
    pub open spec fn released(
        self,
        before: ExtentHeap,
        slot: u32,
        heap: u32,
        pages: Map<usize, PageOwner>,
        old_pages: Map<usize, PageOwner>,
        effects: Seq<Effect>,
        old_effects: Seq<Effect>,
    ) -> bool {
        let range = before.extents@[slot].mapping->0.spec_range();
        let kept = Extent {
            state: ExtentState::Free,
            link: self.extents@[slot].link,
            next: self.extents@[slot].next,
            clean: self.extents@[slot].clean,
            ..before.extents@[slot]
        };
        &&& self.extents@.contains_key(slot)
        &&& self.others_same(before, slot)
        &&& self.room_kept(before)
        &&& self.hints == before.hints
        &&& if before.cache.retains(mapped_len(before.extents@, slot)) {
            &&& self.extents@[slot] == kept
            &&& self.cache.chain@ == seq![slot] + before.cache.chain@
            &&& self.hollow == before.hollow
            &&& pages == old_pages
            &&& effects == if before.cache.config.policy
                == super::config::ExtentPolicy::Discard {
                old_effects.push(Effect::Discard(range))
            } else {
                old_effects
            }
        } else {
            &&& self.extents@[slot] == (Extent { mapping: None, base: 0, len: 0, clean: false, ..kept })
            &&& self.cache == before.cache
            &&& self.hollow@ == seq![slot] + before.hollow@
            &&& pages == without_owner(old_pages, range)
            &&& effects == old_effects.push(Effect::Unmap(range))
        }
    }

    /// A released slot is clean only after its pages were dropped on a platform that
    /// zeroes them.
    pub open spec fn cleaned(self, before: ExtentHeap, slot: u32, discards: bool) -> bool {
        self.extents@[slot].clean && self.extents@[slot].mapping is Some ==> discards
            && before.cache.config.policy == super::config::ExtentPolicy::Discard
            && before.cache.retains(mapped_len(before.extents@, slot))
    }

    /// What freeing the block at `ptr` in `slot` answers.
    pub open spec fn free_result(self, slot: u32, ptr: usize) -> Result<(), HeapError> {
        let extent = self.extents@[slot];
        if ptr == 0 || ptr != extent.base {
            Err(HeapError::InvalidExtentPointer)
        } else if extent.state != ExtentState::Allocated {
            Err(HeapError::DoubleFree)
        } else {
            Ok(())
        }
    }

    /// A block that was freed is not freed again: while its mapping is kept the second free
    /// is a double free, and its pages still name the slot; after that nothing starts there.
    pub proof fn law_second_free_is_refused(
        self,
        before: ExtentHeap,
        slot: u32,
        ptr: usize,
        heap: u32,
        pages: Map<usize, PageOwner>,
        old_pages: Map<usize, PageOwner>,
        effects: Seq<Effect>,
        old_effects: Seq<Effect>,
    )
        requires
            before.free_result(slot, ptr) is Ok,
            self.released(before, slot, heap, pages, old_pages, effects, old_effects),
        ensures
            before.cache.retains(mapped_len(before.extents@, slot)) ==> self.free_result(slot, ptr)
                == Err::<(), HeapError>(HeapError::DoubleFree) && pages == old_pages,
            !before.cache.retains(mapped_len(before.extents@, slot)) ==> self.free_result(
                slot,
                ptr,
            ) == Err::<(), HeapError>(HeapError::InvalidExtentPointer),
    {
    }

    /// A freed mapping is kept exactly where the policy keeps any and the budget has room for
    /// one more of its length; else it is returned to the system, and its pages have no
    /// owner.
    pub proof fn law_freed_mapping_is_kept_within_budget(
        self,
        before: ExtentHeap,
        slot: u32,
        heap: u32,
        pages: Map<usize, PageOwner>,
        old_pages: Map<usize, PageOwner>,
        effects: Seq<Effect>,
        old_effects: Seq<Effect>,
    )
        requires
            before.wf(heap),
            before.extents@.contains_key(slot),
            before.extents@[slot].mapping is Some,
            self.released(before, slot, heap, pages, old_pages, effects, old_effects),
        ensures
            ({
                let mapping = before.extents@[slot].mapping->0;
                let config = before.cache.config;
                if config.policy != super::config::ExtentPolicy::Unmap && before.cache.chain@.len()
                    + 1 <= config.budget.slots && super::cache::total_len(
                    before.extents@,
                    before.cache.chain@,
                ) + mapping.len <= config.budget.bytes {
                    &&& self.extents@[slot].mapping == Some(mapping)
                    &&& pages == old_pages
                    &&& self.cache.chain@[0] == slot
                    &&& effects.len() == old_effects.len() + if config.policy
                        == super::config::ExtentPolicy::Discard {
                        1int
                    } else {
                        0
                    }
                } else {
                    &&& self.extents@[slot].mapping is None
                    &&& effects == old_effects.push(Effect::Unmap(mapping.spec_range()))
                    &&& forall|page: usize|
                        covers(mapping.spec_range(), page as int) ==> !#[trigger] pages.contains_key(
                            page,
                        )
                }
            }),
    {
    }

    /// A mapping that was kept when its block was freed serves the next request for its
    /// length.
    pub proof fn law_kept_mapping_is_reused(
        self,
        before: ExtentHeap,
        slot: u32,
        heap: u32,
        pages: Map<usize, PageOwner>,
        old_pages: Map<usize, PageOwner>,
        effects: Seq<Effect>,
        old_effects: Seq<Effect>,
    )
        requires
            self.released(before, slot, heap, pages, old_pages, effects, old_effects),
            before.cache.retains(mapped_len(before.extents@, slot)),
        ensures
            self.cached(mapped_len(before.extents@, slot)) == Some(slot),
    {
        let len = mapped_len(before.extents@, slot);
        assert(self.cache.chain@[0] == slot);
        assert(self.cache.found(self.extents@, len, 0));
        let at = choose|at: int| #[trigger] self.cache.found(self.extents@, len, at);
        if at > 0 {
            assert(mapped_len(self.extents@, self.cache.chain@[0]) != len);
        }
    }

    /// Owner-local free of the block in `slot`.
    pub fn free(&mut self, slot: u32, ptr: usize, heap: u32, pages: &mut PageMap, os: &mut Os) -> (freed:
        Result<(), HeapError>)
        requires
            old(self).wf(heap),
            extents_published(old(self).extents@, old(pages)@, heap),
            old(self).extents@.contains_key(slot),
            old(os).wf(),
        ensures
            final(self).wf(heap),
            extents_published(final(self).extents@, final(pages)@, heap),
            foreign_same(old(pages)@, final(pages)@, heap),
            final(os).wf(),
            final(os).grant == old(os).grant,
            final(os).wanted == old(os).wanted,
            final(os).discards == old(os).discards,
            final(self).cache.config == old(self).cache.config,
            freed == old(self).free_result(slot, ptr),
            final(self).hints == old(self).hints,
            freed is Err ==> final(self).extents@ == old(self).extents@ && final(self).cache == old(self).cache && final(self).hollow == old(self).hollow && final(pages)@ == old(pages)@
                && final(os).effects == old(os).effects,
            freed is Ok ==> final(self).extents@[slot].link == old(self).extents@[slot].link,
            freed is Ok ==> final(self).cleaned(*old(self), slot, old(os).discards),
            freed is Ok ==> final(self).released(
                *old(self),
                slot,
                heap,
                final(pages)@,
                old(pages)@,
                final(os).effects@,
                old(os).effects@,
            ),
    {
        let ghost before = *self;
        proof {
            lemma_foreign_same_refl(pages@, heap);
        }
        let mut outcome: Result<(), HeapError> = Err(HeapError::MissingExtent);
        match self.extents.get_mut(slot) {
            None => {},
            Some(extent) => {
                outcome = match extent.free(ptr) {
                    Ok(()) => Ok(()),
                    Err(error) => Err(HeapError::from(error)),
                };
            },
        }
        match outcome {
            Err(error) => {
                assert(self.extents@ =~= before.extents@);
                Err(error)
            },
            Ok(()) => {
                proof {
                    before.lemma_live_unlisted(slot, heap);
                    before.lemma_set_loose(*self, slot, heap);
                    lemma_published_kept(before.extents@, self.extents@, pages@, heap, slot);
                }
                let ghost loose = *self;
                let result = self.cache_or_unmap(slot, heap, pages, os);
                proof {
                    self.lemma_others_same_trans(loose, before, slot);
                }
                result
            },
        }
    }

    /// Owner: complete a claimed remote free of the block in `slot`.
    pub fn accept(&mut self, slot: u32, ptr: usize, heap: u32, pages: &mut PageMap, os: &mut Os) -> (accepted:
        Result<(), HeapError>)
        requires
            old(self).wf(heap),
            extents_published(old(self).extents@, old(pages)@, heap),
            old(self).extents@.contains_key(slot),
            old(os).wf(),
        ensures
            final(self).wf(heap),
            extents_published(final(self).extents@, final(pages)@, heap),
            foreign_same(old(pages)@, final(pages)@, heap),
            final(os).wf(),
            final(os).grant == old(os).grant,
            final(os).wanted == old(os).wanted,
            final(os).discards == old(os).discards,
            final(self).cache.config == old(self).cache.config,
            ({
                let extent = old(self).extents@[slot];
                accepted == if ptr == 0 || ptr != extent.base {
                    Err::<(), HeapError>(HeapError::InvalidExtentPointer)
                } else if extent.state == ExtentState::Free {
                    Err::<(), HeapError>(HeapError::DoubleFree)
                } else if extent.state == ExtentState::Allocated {
                    Err::<(), HeapError>(HeapError::InvalidExtentPointer)
                } else {
                    Ok::<(), HeapError>(())
                }
            }),
            accepted is Err ==> final(self).room_kept(*old(self)) && final(self).hints == old(self).hints && final(self).extents@ == old(self).extents@ && final(self).cache
                == old(self).cache && final(self).hollow == old(self).hollow && final(pages)@
                == old(pages)@ && final(os).effects == old(os).effects,
            accepted is Ok ==> final(self).cleaned(*old(self), slot, old(os).discards),
            accepted is Ok ==> !final(self).extents@[slot].link.queued && final(self).released(
                *old(self),
                slot,
                heap,
                final(pages)@,
                old(pages)@,
                final(os).effects@,
                old(os).effects@,
            ),
    {
        let ghost before = *self;
        proof {
            lemma_foreign_same_refl(pages@, heap);
        }
        let mut outcome: Result<(), HeapError> = Err(HeapError::MissingExtent);
        match self.extents.get_mut(slot) {
            None => {},
            Some(extent) => {
                outcome = match extent.accept(ptr) {
                    Ok(()) => Ok(()),
                    Err(error) => Err(HeapError::from(error)),
                };
            },
        }
        match outcome {
            Err(error) => {
                assert(self.extents@ =~= before.extents@);
                Err(error)
            },
            Ok(()) => {
                proof {
                    before.lemma_live_unlisted(slot, heap);
                    before.lemma_set_loose(*self, slot, heap);
                    lemma_published_kept(before.extents@, self.extents@, pages@, heap, slot);
                }
                let ghost loose = *self;
                let result = self.cache_or_unmap(slot, heap, pages, os);
                proof {
                    self.lemma_others_same_trans(loose, before, slot);
                }
                result
            },
        }
    }

    proof fn lemma_others_same_trans(self, middle: ExtentHeap, before: ExtentHeap, slot: u32)
        requires
            self.others_same(middle, slot),
            middle.others_same(before, slot),
        ensures
            self.others_same(before, slot),
    {
        assert forall|other: u32|
            #![trigger self.extents@.contains_key(other)]
            #![trigger before.extents@.contains_key(other)]
            #![trigger self.extents@[other]]
            other != slot implies self.extents@.contains_key(other)
            == before.extents@.contains_key(other) && (before.extents@.contains_key(other)
            ==> self.extents@[other] == (Extent {
            next: self.extents@[other].next,
            ..before.extents@[other]
        })) by {
            assert(middle.extents@.contains_key(other) == before.extents@.contains_key(other));
        }
    }

    /// After a free or accept: Keep and Discard retain the slot published in the
    /// cache; Unmap or a full budget unpublishes it.
    fn cache_or_unmap(&mut self, slot: u32, heap: u32, pages: &mut PageMap, os: &mut Os) -> (done:
        Result<(), HeapError>)
        requires
            old(self).lists_wf(heap),
            old(self).complete(Some(slot)),
            old(self).unlisted(slot),
            extents_published(old(self).extents@, old(pages)@, heap),
            old(self).extents@.contains_key(slot),
            old(self).extents@[slot].mapping is Some,
            old(self).extents@[slot].state == ExtentState::Free,
            !old(self).extents@[slot].clean,
            old(os).wf(),
        ensures
            done == Ok::<(), HeapError>(()),
            final(self).wf(heap),
            extents_published(final(self).extents@, final(pages)@, heap),
            foreign_same(old(pages)@, final(pages)@, heap),
            final(os).wf(),
            final(os).grant == old(os).grant,
            final(os).wanted == old(os).wanted,
            final(os).discards == old(os).discards,
            final(self).cache.config == old(self).cache.config,
            final(self).extents@[slot].link == old(self).extents@[slot].link,
            final(self).cleaned(*old(self), slot, old(os).discards),
            final(self).released(
                *old(self),
                slot,
                heap,
                final(pages)@,
                old(pages)@,
                final(os).effects@,
                old(os).effects@,
            ),
    {
        let ghost before = *self;
        if self.cache.insert(&mut self.extents, slot, os) {
            proof {
                lemma_foreign_same_refl(pages@, heap);
                lemma_published_kept(before.extents@, self.extents@, pages@, heap, slot);
                let chain = before.cache.chain@;
                let longer = self.cache.chain@;
                let hollow = before.hollow@;
                assert(longer[0] == slot);
                assert forall|other: u32| chain.contains(other) implies #[trigger] longer.contains(
                    other,
                ) by {
                    let k = choose|k: int| 0 <= k < chain.len() && chain[k] == other;
                    assert(longer[k + 1] == other);
                }
                assert forall|k: int| 0 <= k < hollow.len() implies #[trigger] link_ok(
                    self.extents@,
                    hollow,
                    k,
                ) by {
                    assert(link_ok(before.extents@, hollow, k));
                    assert(hollow.contains(hollow[k]));
                }
                assert forall|k: int| 0 <= k < hollow.len() implies
                    self.extents@[#[trigger] hollow[k]].mapping is None by {
                    assert(hollow.contains(hollow[k]));
                }
            }
            return Ok(());
        }
        self.unmap(slot, heap, pages, os)
    }

    /// Unpublish a free mapped slot and give its mapping up.
    fn unmap(&mut self, slot: u32, heap: u32, pages: &mut PageMap, os: &mut Os) -> (done: Result<
        (),
        HeapError,
    >)
        requires
            old(self).lists_wf(heap),
            old(self).complete(Some(slot)),
            old(self).unlisted(slot),
            extents_published(old(self).extents@, old(pages)@, heap),
            old(self).extents@.contains_key(slot),
            old(self).extents@[slot].mapping is Some,
            old(self).extents@[slot].state == ExtentState::Free,
            old(os).wf(),
        ensures
            done == Ok::<(), HeapError>(()),
            final(self).wf(heap),
            extents_published(final(self).extents@, final(pages)@, heap),
            foreign_same(old(pages)@, final(pages)@, heap),
            final(os).wf(),
            final(os).grant == old(os).grant,
            final(os).wanted == old(os).wanted,
            final(os).discards == old(os).discards,
            final(self).cache == old(self).cache,
            final(self).hollow@ == seq![slot] + old(self).hollow@,
            final(self).room_kept(*old(self)),
            final(self).hints == old(self).hints,
            final(self).others_same(*old(self), slot),
            final(self).extents@.contains_key(slot),
            final(self).extents@[slot] == (Extent {
                state: ExtentState::Free,
                mapping: None,
                base: 0,
                len: 0,
                clean: false,
                next: final(self).extents@[slot].next,
                ..old(self).extents@[slot]
            }),
            final(pages)@ == without_owner(
                old(pages)@,
                old(self).extents@[slot].mapping->0.spec_range(),
            ),
            final(os).effects@ == old(os).effects@.push(
                Effect::Unmap(old(self).extents@[slot].mapping->0.spec_range()),
            ),
    {
        let ghost before = *self;
        let range = match self.extents.get(slot) {
            None => {
                return Err(HeapError::MissingExtent);
            },
            Some(extent) => match &extent.mapping {
                None => {
                    return Err(HeapError::InvalidMetadata);
                },
                Some(mapping) => mapping.range(),
            },
        };
        let owner = PageOwner::Extent { heap, extent: slot };
        let ghost old_pages = pages@;
        assert(before.extents@[slot].wf());
        match pages.unpublish(range, owner) {
            Err(_) => Err(HeapError::InvalidMetadata),
            Ok(()) => {
                let mut dropped: Option<Mapping> = None;
                match self.extents.get_mut(slot) {
                    Some(extent) => {
                        dropped = extent.unmount();
                    },
                    None => {},
                }
                proof {
                    before.lemma_set_loose(*self, slot, heap);
                }
                match dropped {
                    Some(mapping) => {
                        os.unmap(mapping);
                    },
                    None => {},
                }
                let ghost loose = *self;
                self.push_unmapped(slot, Ghost(heap));
                proof {
                    self.lemma_others_same_trans(loose, before, slot);
                    lemma_published_removed(before.extents@, self.extents@, old_pages, heap, slot);
                }
                Ok(())
            },
        }
    }
}

/// Unchanged pages are unchanged for every heap.
pub proof fn lemma_foreign_same_refl(pages: Map<usize, PageOwner>, heap: u32)
    ensures
        foreign_same(pages, pages, heap),
{
}

/// Slots other than `slot` have the same mappings, up to list links.
pub open spec fn mappings_same(before: Map<u32, Extent>, after: Map<u32, Extent>, slot: u32) -> bool {
    forall|other: u32|
        #![trigger after.contains_key(other)]
        #![trigger before.contains_key(other)]
        #![trigger after[other]]
        other != slot ==> after.contains_key(other) == before.contains_key(other) && (
        before.contains_key(other) ==> after[other].mapping == before[other].mapping)
}

/// Keeping a slot's mapping, or leaving an unmapped slot unmapped, keeps publication.
proof fn lemma_published_kept(
    before: Map<u32, Extent>,
    after: Map<u32, Extent>,
    pages: Map<usize, PageOwner>,
    heap: u32,
    slot: u32,
)
    requires
        extents_published(before, pages, heap),
        mappings_same(before, after, slot),
        after.contains_key(slot),
        after[slot].mapping == if before.contains_key(slot) {
            before[slot].mapping
        } else {
            None
        },
    ensures
        extents_published(after, pages, heap),
{
    assert forall|page: usize|
        #![trigger pages.contains_key(page)]
        #![trigger pages[page]]
        pages.contains_key(page) implies (pages[page] matches PageOwner::Extent {
        heap: owning,
        extent,
    } ==> owning == heap ==> (after.contains_key(extent) && after[extent].mapping is Some && covers(
        after[extent].mapping->0.spec_range(),
        page as int,
    ))) by {
        match pages[page] {
            PageOwner::Extent { heap: owning, extent } => {
                if owning == heap {
                    assert(before.contains_key(extent));
                }
            },
            PageOwner::Run { .. } => {},
        }
    }
}

/// Publishing a new mapping's free pages extends publication to it.
proof fn lemma_published_added(
    before: Map<u32, Extent>,
    after: Map<u32, Extent>,
    pages: Map<usize, PageOwner>,
    heap: u32,
    slot: u32,
)
    requires
        extents_published(before, pages, heap),
        mappings_same(before, after, slot),
        after.contains_key(slot),
        after[slot].mapping is Some,
        before.contains_key(slot) ==> before[slot].mapping is None,
        unowned(pages, after[slot].mapping->0.spec_range()),
    ensures
        extents_published(
            after,
            with_owner(pages, after[slot].mapping->0.spec_range(), extent_owner(heap, slot)),
            heap,
        ),
        foreign_same(
            pages,
            with_owner(pages, after[slot].mapping->0.spec_range(), extent_owner(heap, slot)),
            heap,
        ),
{
    let range = after[slot].mapping->0.spec_range();
    let added = with_owner(pages, range, extent_owner(heap, slot));
    assert forall|other: u32|
        #![trigger after.contains_key(other)]
        #![trigger after[other]]
        after.contains_key(other) && after[other].mapping is Some implies owned(
        added,
        after[other].mapping->0.spec_range(),
        extent_owner(heap, other),
    ) by {
        if other != slot {
            assert(before.contains_key(other));
            let other_range = before[other].mapping->0.spec_range();
            assert(owned(pages, other_range, extent_owner(heap, other)));
            assert forall|page: usize|
                #![trigger added.contains_key(page)]
                #![trigger added[page]]
                covers(other_range, page as int) implies added.contains_key(page) && added[page]
                == extent_owner(heap, other) by {
                assert(pages.contains_key(page));
                assert(pages[page] == extent_owner(heap, other));
            }
        }
    }
    assert forall|page: usize|
        #![trigger added.contains_key(page)]
        #![trigger added[page]]
        added.contains_key(page) implies (added[page] matches PageOwner::Extent {
        heap: owning,
        extent,
    } ==> owning == heap ==> (after.contains_key(extent) && after[extent].mapping is Some && covers(
        after[extent].mapping->0.spec_range(),
        page as int,
    ))) by {
        if !covers(range, page as int) {
            assert(pages.contains_key(page));
            match pages[page] {
                PageOwner::Extent { heap: owning, extent } => {
                    if owning == heap {
                        assert(before.contains_key(extent));
                    }
                },
                PageOwner::Run { .. } => {},
            }
        }
    }
}

/// Unpublishing a slot's pages ends its publication and no other.
proof fn lemma_published_removed(
    before: Map<u32, Extent>,
    after: Map<u32, Extent>,
    pages: Map<usize, PageOwner>,
    heap: u32,
    slot: u32,
)
    requires
        extents_published(before, pages, heap),
        mappings_same(before, after, slot),
        before.contains_key(slot),
        before[slot].mapping is Some,
        after.contains_key(slot),
        after[slot].mapping is None,
    ensures
        extents_published(
            after,
            without_owner(pages, before[slot].mapping->0.spec_range()),
            heap,
        ),
        foreign_same(
            pages,
            without_owner(pages, before[slot].mapping->0.spec_range()),
            heap,
        ),
{
    let range = before[slot].mapping->0.spec_range();
    let left = without_owner(pages, range);
    assert(owned(pages, range, extent_owner(heap, slot)));
    assert forall|other: u32|
        #![trigger after.contains_key(other)]
        #![trigger after[other]]
        after.contains_key(other) && after[other].mapping is Some implies owned(
        left,
        after[other].mapping->0.spec_range(),
        extent_owner(heap, other),
    ) by {
        assert(before.contains_key(other));
        let other_range = before[other].mapping->0.spec_range();
        assert(owned(pages, other_range, extent_owner(heap, other)));
        assert forall|page: usize|
            #![trigger left.contains_key(page)]
            #![trigger left[page]]
            covers(other_range, page as int) implies left.contains_key(page) && left[page]
            == extent_owner(heap, other) by {
            assert(pages.contains_key(page));
            assert(pages[page] == extent_owner(heap, other));
        }
    }
    assert forall|page: usize|
        #![trigger left.contains_key(page)]
        #![trigger left[page]]
        left.contains_key(page) implies (left[page] matches PageOwner::Extent {
        heap: owning,
        extent,
    } ==> owning == heap ==> (after.contains_key(extent) && after[extent].mapping is Some && covers(
        after[extent].mapping->0.spec_range(),
        page as int,
    ))) by {
        assert(pages.contains_key(page));
        match pages[page] {
            PageOwner::Extent { heap: owning, extent } => {
                if owning == heap {
                    assert(before.contains_key(extent));
                }
            },
            PageOwner::Run { .. } => {},
        }
    }
    assert forall|page: usize|
        #![trigger pages.contains_key(page)]
        #![trigger left.contains_key(page)]
        covers(range, page as int) implies pages.contains_key(page) && pages[page] == extent_owner(
        heap,
        slot,
    ) by {
        assert(pages.contains_key(page));
        assert(pages[page] == extent_owner(heap, slot));
    }
}

/// Slot `slot` holds an allocated block for `spec` at `ptr`.
pub open spec fn allocated_at(heap: ExtentHeap, slot: u32, ptr: usize, spec: LayoutSpec) -> bool {
    &&& heap.extents@.contains_key(slot)
    &&& heap.extents@[slot].state == ExtentState::Allocated
    &&& heap.extents@[slot].base == ptr
    &&& heap.extents@[slot].len == spec.size
    &&& ptr > 0
    &&& ptr % spec.align == 0
}

} // verus!
