//! Directory of heaps, with a stack of Free ones for reuse.

use vstd::prelude::*;

use super::id::HeapId;
use super::service::{lemma_extent_holder, lemma_run_holder};
use super::state::{HeapMode, Snapshot};
use super::extent::ExtentState;
use super::{lemma_published_elsewhere, Heap};
use crate::arena::{max_slots, Arena};
use crate::config::AllocatorConfig;
use crate::memory::{others_kept, PageMap, PageOwner};
use crate::heap::extent::Extent;

verus! {

const FREE_END: u32 = u32::MAX;

/// Indexes heaps. Free heaps are an index stack linked through `free_next`.
pub struct Heaps {
    pub arena: Arena<Heap>,
    pub free_head: u32,
    pub config: AllocatorConfig,
    /// The Free heaps on the stack, newest first.
    pub stack: Ghost<Seq<u32>>,
}

/// The index that stands before `stack[at..]`.
pub open spec fn free_at(stack: Seq<u32>, at: int) -> u32 {
    if 0 <= at < stack.len() {
        stack[at]
    } else {
        u32::MAX
    }
}

/// The heap at place `k` of the stack exists, is free, and links to the one after it.
pub open spec fn free_ok(heaps: Map<u32, Heap>, stack: Seq<u32>, k: int) -> bool {
    let heap = heaps[stack[k]];
    &&& heaps.contains_key(stack[k])
    &&& heap.free_next == free_at(stack, k + 1)
    &&& heap.state@.mode == HeapMode::Free
    &&& heap.state@.leases == 0
    &&& heap.idle()
}

/// A heap that no thread uses any more is idle.
pub open spec fn at_rest(heap: Heap) -> bool {
    heap.state@.mode == HeapMode::Active || heap.state@.mode == HeapMode::Draining || heap.idle()
}

/// A block that `heap` holds lies on a page of that heap.
pub proof fn lemma_heap_holder(heap: Heap, pages: Map<usize, PageOwner>, addr: int)
    requires
        heap.wf(),
        heap.published(pages),
        heap.holds(addr),
    ensures
        0 < addr <= usize::MAX,
        pages.contains_key((addr / 4096) as usize),
        pages[(addr / 4096) as usize].spec_heap() == heap.spec_index(),
{
    if heap.inner.runs.holds(addr) {
        let slot = choose|slot: u32| #[trigger]
            heap.inner.runs.runs@.contains_key(slot) && heap.inner.runs.runs@[slot].holds(addr);
        lemma_run_holder(heap, pages, slot, addr);
        assert(heap.inner.runs.run_wf(slot, heap.spec_index()));
    } else {
        let extents = heap.inner.extents.extents@;
        let slot = choose|slot: u32| #[trigger]
            extents.contains_key(slot) && extents[slot].state == ExtentState::Allocated
                && extents[slot].base == addr;
        assert(extents[slot].wf());
        lemma_extent_holder(heap, pages, slot);
    }
}

impl Heaps {
    /// Heap `index` is consistent, knows its place, and is published.
    pub open spec fn heap_wf(self, index: u32, pages: Map<usize, PageOwner>) -> bool {
        &&& self.arena@[index].wf()
        &&& self.arena@[index].slot == index + 1
        &&& self.arena@[index].published(pages)
    }

    pub open spec fn wf(self, pages: Map<usize, PageOwner>) -> bool {
        &&& self.arena.wf()
        &&& forall|index: u32|
            #![trigger self.arena@.contains_key(index)]
            #![trigger self.arena@[index]]
            self.arena@.contains_key(index) ==> self.heap_wf(index, pages) && at_rest(
                self.arena@[index],
            ) && self.arena@[index].configured(self.config)
        &&& forall|page: usize|
            #![trigger pages.contains_key(page)]
            #![trigger pages[page]]
            pages.contains_key(page) ==> self.arena@.contains_key(pages[page].spec_heap())
        &&& self.stack@.no_duplicates()
        &&& self.free_head == free_at(self.stack@, 0)
        &&& forall|k: int|
            0 <= k < self.stack@.len() ==> #[trigger] free_ok(self.arena@, self.stack@, k)
    }

    /// A held block of some heap starts at `addr`.
    pub open spec fn holds(self, addr: int) -> bool {
        exists|index: u32| #[trigger]
            self.arena@.contains_key(index) && self.arena@[index].holds(addr)
    }

    /// The heap that `id` names, unless it is stale.
    pub open spec fn found(self, id: HeapId) -> Option<u32> {
        let index = id.spec_index() as u32;
        if self.arena@.contains_key(index) && self.arena@[index].state@.mode != HeapMode::Retired
            && self.arena@[index].spec_id() == id {
            Some(index)
        } else {
            None
        }
    }

    /// The owner is a run or extent of one of these heaps.
    pub open spec fn has_owner(self, owner: PageOwner) -> bool {
        self.arena@.contains_key(owner.spec_heap()) && self.arena@[owner.spec_heap()].has_owner(
            owner,
        )
    }

    /// Only heap `index` changed.
    pub open spec fn only(self, before: Heaps, index: u32) -> bool {
        &&& before.arena@.contains_key(index)
        &&& self.arena@ == before.arena@.insert(index, self.arena@[index])
        &&& self.config == before.config
    }

    /// An owner that a page names exists.
    pub proof fn lemma_page_owner(self, pages: Map<usize, PageOwner>, page: usize)
        requires
            self.wf(pages),
            pages.contains_key(page),
        ensures
            self.has_owner(pages[page]),
    {
        let owner = pages[page];
        let index = owner.spec_heap();
        assert(self.arena@.contains_key(index));
        assert(self.heap_wf(index, pages));
    }

    /// Changing one heap and its pages keeps the directory consistent.
    pub proof fn lemma_changed(
        self,
        before: Heaps,
        index: u32,
        old_pages: Map<usize, PageOwner>,
        pages: Map<usize, PageOwner>,
    )
        requires
            before.wf(old_pages),
            self.arena.wf(),
            self.only(before, index),
            self.arena@[index].wf(),
            at_rest(self.arena@[index]),
            self.arena@[index].same_settings(before.arena@[index]),
            self.arena@[index].slot == before.arena@[index].slot,
            self.arena@[index].published(pages),
            others_kept(old_pages, pages, index),
            self.free_head == before.free_head,
            self.stack == before.stack,
            before.stack@.contains(index) ==> self.arena@[index].free_next
                == before.arena@[index].free_next && self.arena@[index].state@
                == before.arena@[index].state@ && self.arena@[index].idle(),
        ensures
            self.wf(pages),
    {
        assert(before.heap_wf(index, old_pages));
        assert forall|other: u32|
            #![trigger self.arena@.contains_key(other)]
            #![trigger self.arena@[other]]
            self.arena@.contains_key(other) implies self.heap_wf(other, pages) && at_rest(
            self.arena@[other],
        ) && self.arena@[other].configured(self.config) by {
            if other != index {
                assert(before.heap_wf(other, old_pages));
                lemma_published_elsewhere(self.arena@[other], old_pages, pages, index);
            }
        }
        assert forall|page: usize|
            #![trigger pages.contains_key(page)]
            #![trigger pages[page]]
            pages.contains_key(page) implies self.arena@.contains_key(pages[page].spec_heap()) by {
            if pages[page].spec_heap() != index {
                assert(old_pages.contains_key(page) || !old_pages.contains_key(page));
                assert(before.arena@.contains_key(old_pages[page].spec_heap()));
            }
        }
        assert forall|k: int| 0 <= k < self.stack@.len() implies #[trigger] free_ok(
            self.arena@,
            self.stack@,
            k,
        ) by {
            assert(free_ok(before.arena@, before.stack@, k));
            if self.stack@[k] == index {
                assert(before.stack@.contains(index));
            }
        }
    }

    /// No heap but `index` holds a block on a page of `index`.
    pub proof fn lemma_sole_heap(self, pages: Map<usize, PageOwner>, index: u32, addr: int)
        requires
            self.wf(pages),
            self.arena@.contains_key(index),
            0 <= addr <= usize::MAX,
            pages.contains_key((addr / 4096) as usize),
            pages[(addr / 4096) as usize].spec_heap() == index,
        ensures
            self.holds(addr) == self.arena@[index].holds(addr),
            forall|other: u32|
                other != index && #[trigger] self.arena@.contains_key(other)
                    ==> !self.arena@[other].holds(addr),
    {
        assert forall|other: u32|
            other != index && #[trigger] self.arena@.contains_key(other) implies !self.arena@[other].holds(
            addr,
        ) by {
            assert(self.heap_wf(other, pages));
            if self.arena@[other].holds(addr) {
                lemma_heap_holder(self.arena@[other], pages, addr);
            }
        }
    }

    /// What the heaps hold once only heap `index` changed.
    pub proof fn lemma_only_holds(self, before: Heaps, index: u32)
        requires
            self.only(before, index),
        ensures
            forall|addr: int|
                self.arena@[index].holds(addr) == before.arena@[index].holds(addr)
                    ==> #[trigger] self.holds(addr) == before.holds(addr),
            forall|addr: int| self.arena@[index].holds(addr) ==> #[trigger] self.holds(addr),
    {
        let heaps = self.arena@;
        let was = before.arena@;
        assert(heaps.contains_key(index));
        assert forall|addr: int|
            heaps[index].holds(addr) == was[index].holds(addr) implies #[trigger] self.holds(addr)
            == before.holds(addr) by {
            if self.holds(addr) {
                let other = choose|other: u32| #[trigger]
                    heaps.contains_key(other) && heaps[other].holds(addr);
                assert(was.contains_key(other) && was[other].holds(addr));
            }
            if before.holds(addr) {
                let other = choose|other: u32| #[trigger]
                    was.contains_key(other) && was[other].holds(addr);
                assert(heaps.contains_key(other) && heaps[other].holds(addr));
            }
        }
    }

    pub fn new(config: AllocatorConfig) -> (heaps: Self)
        ensures
            heaps.wf(Map::<usize, PageOwner>::empty()),
            heaps.arena@ == Map::<u32, Heap>::empty(),
            heaps.config == config,
            heaps.stack@.len() == 0,
            forall|addr: int| !#[trigger] heaps.holds(addr),
    {
        Self { arena: Arena::new(), free_head: FREE_END, config, stack: Ghost(Seq::empty()) }
    }

    /// Take the newest Free heap off the stack.
    fn pop_free(&mut self, pages: &PageMap) -> (index: Option<u32>)
        requires
            old(self).wf(pages@),
        ensures
            final(self).wf(pages@),
            final(self).arena == old(self).arena,
            final(self).config == old(self).config,
            old(self).stack@.len() == 0 ==> index is None && *final(self) == *old(self),
            old(self).stack@.len() > 0 ==> index == Some(old(self).stack@[0]) && final(self).stack@
                == old(self).stack@.skip(1) && free_ok(old(self).arena@, old(self).stack@, 0),
    {
        let ghost stack = self.stack@;
        if self.free_head == FREE_END {
            proof {
                if stack.len() > 0 {
                    assert(free_ok(self.arena@, stack, 0));
                    self.arena.lemma_bounds();
                }
            }
            return None;
        }
        assert(free_ok(self.arena@, stack, 0));
        let index: u32 = self.free_head;
        match self.arena.get(index) {
            None => None,
            Some(heap) => {
                self.free_head = heap.free_next;
                proof {
                    let rest = stack.skip(1);
                    self.stack@ = rest;
                    assert forall|k: int| 0 <= k < rest.len() implies #[trigger] free_ok(
                        self.arena@,
                        rest,
                        k,
                    ) by {
                        assert(free_ok(self.arena@, stack, k + 1));
                        assert(rest[k] == stack[k + 1]);
                        assert(free_at(rest, k + 1) == free_at(stack, k + 2));
                    }
                    assert(free_at(rest, 0) == free_at(stack, 1));
                    assert forall|other: u32|
                        #![trigger self.arena@.contains_key(other)]
                        #![trigger self.arena@[other]]
                        self.arena@.contains_key(other) implies self.heap_wf(other, pages@) && at_rest(
                        self.arena@[other],
                    ) && self.arena@[other].configured(self.config) by {
                        assert(old(self).heap_wf(other, pages@));
                    }
                }
                Some(index)
            },
        }
    }

    /// Put a just-reclaimed Free heap on the stack.
    pub fn push_free(&mut self, index: u32, pages: &PageMap)
        requires
            old(self).wf(pages@),
            old(self).arena@.contains_key(index),
            !old(self).stack@.contains(index),
            old(self).arena@[index].state@.mode == HeapMode::Free,
            old(self).arena@[index].state@.leases == 0,
            old(self).arena@[index].idle(),
        ensures
            final(self).wf(pages@),
            final(self).only(*old(self), index),
            final(self).arena@[index] == (Heap {
                free_next: final(self).arena@[index].free_next,
                ..old(self).arena@[index]
            }),
            final(self).stack@ == seq![index] + old(self).stack@,
            forall|addr: int| #[trigger] final(self).holds(addr) == old(self).holds(addr),
    {
        let ghost before = *self;
        let ghost stack = self.stack@;
        assert(before.heap_wf(index, pages@));
        let head: u32 = self.free_head;
        match self.arena.get_mut(index) {
            None => {},
            Some(heap) => {
                heap.free_next = head;
            },
        }
        self.free_head = index;
        proof {
            let longer = seq![index] + stack;
            self.stack@ = longer;
            let heap = self.arena@[index];
            let was = before.arena@[index];
            heap.lemma_same_places(was, pages@);
            assert forall|other: u32|
                #![trigger self.arena@.contains_key(other)]
                #![trigger self.arena@[other]]
                self.arena@.contains_key(other) implies self.heap_wf(other, pages@) && at_rest(
                        self.arena@[other],
                    ) && self.arena@[other].configured(self.config) by {
                if other != index {
                    assert(before.heap_wf(other, pages@));
                }
            }
            assert forall|page: usize|
                #![trigger pages@.contains_key(page)]
                #![trigger pages@[page]]
                pages@.contains_key(page) implies self.arena@.contains_key(
                pages@[page].spec_heap(),
            ) by {
                assert(before.arena@.contains_key(pages@[page].spec_heap()));
            }
            assert forall|k: int| 0 <= k < longer.len() implies #[trigger] free_ok(
                self.arena@,
                longer,
                k,
            ) by {
                if k > 0 {
                    assert(longer[k] == stack[k - 1]);
                    assert(free_ok(before.arena@, stack, k - 1));
                    assert(stack.contains(stack[k - 1]));
                    assert(free_at(longer, k + 1) == free_at(stack, k));
                } else {
                    assert(free_at(longer, 1) == free_at(stack, 0));
                }
            }
            assert(longer.no_duplicates());
            assert forall|addr: int| heap.holds(addr) == was.holds(addr) by {}
            self.lemma_only_holds(before, index);
        }
    }

    /// Reactivate the newest Free heap.
    fn reuse(&mut self, pages: &PageMap) -> (index: Option<u32>)
        requires
            old(self).wf(pages@),
        ensures
            final(self).wf(pages@),
            old(self).stack@.len() == 0 ==> index is None && *final(self) == *old(self),
            old(self).stack@.len() > 0 ==> {
                let top = old(self).stack@[0];
                &&& index == Some(top)
                &&& final(self).stack@ == old(self).stack@.skip(1)
                &&& final(self).only(*old(self), top)
                &&& final(self).arena@[top].same_but_state(old(self).arena@[top])
                &&& final(self).arena@[top].state@ == (Snapshot {
                    generation: old(self).arena@[top].state@.generation,
                    mode: HeapMode::Active,
                    leases: 0,
                })
                &&& old(self).arena@[top].state@.mode == HeapMode::Free
                &&& old(self).arena@[top].idle()
            },
            forall|addr: int| #[trigger] final(self).holds(addr) == old(self).holds(addr),
    {
        let ghost before = *self;
        loop
            invariant
                self.wf(pages@),
                *self == before,
                before == *old(self),
            decreases self.stack@.len(),
        {
            let index: u32 = match self.pop_free(pages) {
                None => {
                    return None;
                },
                Some(index) => index,
            };
            let ghost popped = *self;
            assert(popped.heap_wf(index, pages@));
            assert(!popped.stack@.contains(index)) by {
                if popped.stack@.contains(index) {
                    let k = choose|k: int|
                        0 <= k < popped.stack@.len() && popped.stack@[k] == index;
                    assert(before.stack@[k + 1] == before.stack@[0]);
                }
            }
            let mut taken = false;
            match self.arena.get_mut(index) {
                None => {},
                Some(heap) => {
                    if !heap.state.is_retired() && heap.state.is_free() {
                        heap.reactivate();
                        taken = true;
                    }
                },
            }
            if taken {
                proof {
                    let heap = self.arena@[index];
                    let was = before.arena@[index];
                    heap.lemma_same_places(was, pages@);
                    self.lemma_changed(popped, index, pages@, pages@);
                    assert forall|addr: int| heap.holds(addr) == was.holds(addr) by {}
                    self.lemma_only_holds(before, index);
                }
                return Some(index);
            }
        }
    }

    /// A heap for a thread to own: a Free one, else a fresh one.
    pub fn acquire(&mut self, pages: &PageMap) -> (index: Option<u32>)
        requires
            old(self).wf(pages@),
        ensures
            final(self).wf(pages@),
            final(self).config == old(self).config,
            forall|other: u32|
                #![trigger final(self).arena@.contains_key(other)]
                #![trigger old(self).arena@.contains_key(other)]
                Some(other) != index ==> final(self).arena@.contains_key(other) == old(self).arena@.contains_key(other) && (old(self).arena@.contains_key(other) ==> final(self).arena@[other] == old(self).arena@[other]),
            index matches Some(index) ==> !old(self).arena@.contains_key(index) ==> final(self).arena@[index].inner.runs.runs@ == Map::<u32, super::run::Run>::empty() && final(self).arena@[index].inner.extents.extents@ == Map::<u32, Extent>::empty() && final(self).arena@[index].inner.runs.map_index is None && final(self).arena@[index].inner.runs.maps@ == Map::<u32, crate::memory::Mapping>::empty(),
            index matches Some(index) ==> {
                let heap = final(self).arena@[index];
                &&& final(self).arena@.contains_key(index)
                &&& heap.state@.mode == HeapMode::Active
                &&& heap.state@.leases == 0
                &&& heap.idle()
                &&& heap.slot == index + 1
                &&& old(self).arena@.contains_key(index) ==> old(self).arena@[index].state@.mode
                    == HeapMode::Free && heap.same_but_state(old(self).arena@[index])
                    && heap.state@.generation == old(self).arena@[index].state@.generation
            },
            final(self).stack@ == if old(self).stack@.len() > 0 {
                old(self).stack@.skip(1)
            } else {
                old(self).stack@
            },
            if old(self).stack@.len() > 0 {
                index == Some(old(self).stack@[0])
            } else {
                &&& index is Some == (old(self).arena.slots@.len() < u32::MAX - 1 && old(self).arena.slots@.len() < max_slots::<Heap>())
                &&& index matches Some(index) ==> index == old(self).arena.slots@.len() && !old(self).arena@.contains_key(index) && final(self).arena@[index].state@.generation == 1
            },
            forall|addr: int| #[trigger] final(self).holds(addr) == old(self).holds(addr),
    {
        match self.reuse(pages) {
            Some(index) => {
                return Some(index);
            },
            None => {},
        }
        let ghost before = *self;
        let config = self.config;
        let init = |index: u32| -> (heap: Option<Heap>)
            ensures
                index < u32::MAX ==> heap is Some,
                heap matches Some(heap) ==> heap.wf() && heap.slot == index + 1 && heap.state@ == (
                Snapshot { generation: 1, mode: HeapMode::Active, leases: 0 }) && heap.idle()
                    && heap.configured(config)
                    && heap.inner.runs.runs@ == Map::<u32, super::run::Run>::empty()
                    && heap.inner.runs.map_index is None
                    && heap.inner.runs.maps@ == Map::<u32, crate::memory::Mapping>::empty()
                    && heap.inner.extents.extents@ == Map::<u32, super::extent::Extent>::empty()
                    && forall|addr: int| !#[trigger] heap.holds(addr),
            {
                match HeapId::new(index, 1) {
                    None => None,
                    Some(id) => Some(Heap::new(id, config)),
                }
            };
        let index = self.arena.push(init);
        proof {
            match index {
                None => {},
                Some(index) => {
                    let heap = self.arena@[index];
                    assert(heap.published(pages@)) by {
                        assert forall|page: usize|
                            #![trigger pages@.contains_key(page)]
                            #![trigger pages@[page]]
                            pages@.contains_key(page) implies pages@[page].spec_heap() != index by {
                            assert(before.arena@.contains_key(pages@[page].spec_heap()));
                        }
                    }
                    assert forall|other: u32|
                        #![trigger self.arena@.contains_key(other)]
                        #![trigger self.arena@[other]]
                        self.arena@.contains_key(other) implies self.heap_wf(other, pages@) && at_rest(
                        self.arena@[other],
                    ) && self.arena@[other].configured(self.config) by {
                        if other != index {
                            assert(before.heap_wf(other, pages@));
                        }
                    }
                    assert forall|page: usize|
                        #![trigger pages@.contains_key(page)]
                        #![trigger pages@[page]]
                        pages@.contains_key(page) implies self.arena@.contains_key(
                        pages@[page].spec_heap(),
                    ) by {
                        assert(before.arena@.contains_key(pages@[page].spec_heap()));
                    }
                    assert forall|addr: int| #[trigger] self.holds(addr) == before.holds(addr) by {
                        if self.holds(addr) {
                            let other = choose|other: u32| #[trigger]
                                self.arena@.contains_key(other) && self.arena@[other].holds(addr);
                            assert(before.arena@.contains_key(other)
                                && before.arena@[other].holds(addr));
                        }
                        if before.holds(addr) {
                            let other = choose|other: u32| #[trigger]
                                before.arena@.contains_key(other) && before.arena@[other].holds(
                                    addr,
                                );
                            assert(self.arena@.contains_key(other) && self.arena@[other].holds(
                                addr,
                            ));
                        }
                    }
                },
            }
        }
        index
    }

    /// Generation-checked lookup.
    pub fn get(&self, id: HeapId) -> (index: Option<u32>)
        requires
            id.wf(),
            forall|index: u32| #[trigger]
                self.arena@.contains_key(index) ==> self.arena@[index].wf(),
        ensures
            index == self.found(id),
    {
        let index: u32 = id.index();
        match self.arena.get(index) {
            None => None,
            Some(heap) => if heap.matches(id) {
                Some(index)
            } else {
                None
            },
        }
    }
}

} // verus!
