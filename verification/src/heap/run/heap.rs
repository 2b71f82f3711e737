use vstd::prelude::*;

use super::config::{RunConfig, RunPolicy};
use super::{
    Accept,
    AvailableLink,
    Run,
    RunFree,
    RunId,
    MAP_RUNS,
    MAP_SIZE,
    RUN_SIZE,
    RUN_SPACE,
};
use crate::arena::Arena;
use crate::config::Hints;
use crate::heap::error::HeapError;
use crate::heap::extent::cache::slot_at;
use crate::memory::{covers, owned, unowned, with_owner, Effect, Mapping, Os, PageMap, PageOwner};
use crate::size_class::{SizeClass, COUNT};

verus! {

/// Owner-local run directory and available lists.
///
/// Run mappings stay for the process.
pub struct RunHeap {
    pub runs: Arena<Run>,
    pub maps: Arena<Mapping>,
    pub map_index: Option<u32>,
    /// Runs taken from the current map.
    pub used: usize,
    /// First available run of each class.
    pub available: Vec<Option<u32>>,
    pub policy: RunPolicy,
    pub hints: Hints,
    /// The available runs of each class in list order.
    pub lists: Ghost<Seq<Seq<u32>>>,
}

/// The owner of the pages of run `slot` in heap `heap`.
pub open spec fn run_owner(heap: u32, slot: u32) -> PageOwner {
    PageOwner::Run { heap, run: slot }
}

/// Every run owns its payload pages, and no other page names a run of this heap.
pub open spec fn runs_published(
    runs: Map<u32, Run>,
    pages: Map<usize, PageOwner>,
    heap: u32,
) -> bool {
    &&& forall|slot: u32|
        #![trigger runs.contains_key(slot)]
        #![trigger runs[slot]]
        runs.contains_key(slot) ==> owned(pages, runs[slot].spec_range(), run_owner(heap, slot))
    &&& forall|page: usize|
        #![trigger pages.contains_key(page)]
        #![trigger pages[page]]
        pages.contains_key(page) ==> (pages[page] matches PageOwner::Run { heap: owning, run }
            ==> owning == heap ==> (runs.contains_key(run) && covers(
            runs[run].spec_range(),
            page as int,
        )))
}

/// Pages that belong to something other than a run of `heap` are as before.
pub open spec fn foreign_same_runs(
    before: Map<usize, PageOwner>,
    after: Map<usize, PageOwner>,
    heap: u32,
) -> bool {
    forall|page: usize|
        #![trigger before.contains_key(page)]
        #![trigger after.contains_key(page)]
        ({
            let kept = |pages: Map<usize, PageOwner>|
                pages.contains_key(page) && !(pages[page] matches PageOwner::Run {
                    heap: owning,
                    ..
                } && owning == heap);
            kept(before) == kept(after) && (kept(before) ==> before[page] == after[page])
        })
}

/// The run at place `k` of the list of class `class` exists, is of that class, and
/// links to the one after it.
pub open spec fn run_link_ok(runs: Map<u32, Run>, list: Seq<u32>, class: int, k: int) -> bool {
    &&& runs.contains_key(list[k])
    &&& runs[list[k]].class.index == class
    &&& runs[list[k]].available == AvailableLink::spec_from_next(slot_at(list, k + 1))
}

/// The runs' links go through `list` in order and then end.
pub open spec fn runs_linked(runs: Map<u32, Run>, list: Seq<u32>, class: int) -> bool {
    &&& list.no_duplicates()
    &&& forall|k: int| 0 <= k < list.len() ==> #[trigger] run_link_ok(runs, list, class, k)
}

impl RunHeap {
    /// The head and links of the list of class `class` are intact.
    pub open spec fn list_wf(self, class: int) -> bool {
        &&& self.available@[class] == slot_at(self.lists@[class], 0)
        &&& runs_linked(self.runs@, self.lists@[class], class)
    }

    /// Run `slot` is well-formed, knows its place, and is listed only where its class
    /// says.
    pub open spec fn run_wf(self, slot: u32, heap: u32) -> bool {
        &&& self.runs@[slot].wf()
        &&& self.runs@[slot].id.index == slot + 1
        &&& self.runs@[slot].heap == heap
        &&& self.runs@[slot].policy == self.policy
        &&& self.runs@[slot].available != AvailableLink::Unlisted
            ==> self.lists@[self.runs@[slot].class.index as int].contains(slot)
    }

    pub open spec fn maps_wf(self) -> bool {
        &&& self.maps.wf()
        &&& forall|slot: u32|
            #![trigger self.maps@.contains_key(slot)]
            #![trigger self.maps@[slot]]
            self.maps@.contains_key(slot) ==> self.maps@[slot].wf() && self.maps@[slot].len
                == MAP_SIZE && self.maps@[slot].base % RUN_SIZE == 0
        &&& self.map_index matches Some(index) ==> self.maps@.contains_key(index)
        &&& self.used <= MAP_RUNS
    }

    pub open spec fn wf(self, heap: u32) -> bool {
        &&& self.runs.wf()
        &&& self.maps_wf()
        &&& self.available@.len() == COUNT
        &&& self.lists@.len() == COUNT
        &&& forall|slot: u32|
            #![trigger self.runs@.contains_key(slot)]
            #![trigger self.runs@[slot]]
            self.runs@.contains_key(slot) ==> self.run_wf(slot, heap)
        &&& forall|class: int| 0 <= class < COUNT ==> #[trigger] self.list_wf(class)
    }

    /// Every run is the same, up to available links.
    pub open spec fn links_only(self, before: RunHeap) -> bool {
        forall|slot: u32|
            #![trigger self.runs@.contains_key(slot)]
            #![trigger before.runs@.contains_key(slot)]
            #![trigger self.runs@[slot]]
            self.runs@.contains_key(slot) == before.runs@.contains_key(slot) && (
            before.runs@.contains_key(slot) ==> self.runs@[slot] == (Run {
                available: self.runs@[slot].available,
                ..before.runs@[slot]
            }))
    }

    /// The same slots are taken.
    pub open spec fn slots_same(self, before: RunHeap) -> bool {
        self.runs.holes == before.runs.holes && self.runs.slots@.len()
            == before.runs.slots@.len()
    }

    /// Everything but the runs and their lists is the same.
    pub open spec fn maps_same(self, before: RunHeap) -> bool {
        &&& self.maps == before.maps
        &&& self.map_index == before.map_index
        &&& self.used == before.used
        &&& self.policy == before.policy
        &&& self.hints == before.hints
    }

    /// A map that the heap keeps covers `page`.
    pub open spec fn keeps(self, page: int) -> bool {
        exists|map: u32| #[trigger]
            self.maps@.contains_key(map) && covers(self.maps@[map].spec_range(), page)
    }

    /// The maps cover more only where the mapping on offer did.
    pub open spec fn maps_from(self, before: RunHeap, os: Os) -> bool {
        forall|page: int| #[trigger]
            self.keeps(page) ==> before.keeps(page) || os.offers(page)
    }

    /// The same maps cover the same pages.
    pub proof fn lemma_keeps_same(self, before: RunHeap)
        requires
            self.maps == before.maps,
        ensures
            forall|page: int|
                #![trigger self.keeps(page)]
                #![trigger before.keeps(page)]
                self.keeps(page) == before.keeps(page),
    {
    }

    /// Run `slot` has room and is on no list.
    pub open spec fn loose(self, slot: u32) -> bool {
        self.runs@.contains_key(slot) && self.runs@[slot].live < self.runs@[slot].capacity
            && self.runs@[slot].available == AvailableLink::Unlisted
    }

    /// No run with room dropped off its list, but perhaps `except`.
    pub open spec fn tidy(self, before: RunHeap, except: Option<u32>) -> bool {
        forall|slot: u32| #[trigger]
            self.loose(slot) ==> before.loose(slot) || except == Some(slot)
    }

    /// The runs in front of the first with room are full.
    proof fn lemma_full_prefix(self, list: Seq<u32>, k: int)
        requires
            0 <= k < self.full_prefix(list),
        ensures
            self.full_prefix(list) <= list.len(),
            self.runs@[list[k]].live == self.runs@[list[k]].capacity,
        decreases list.len(),
    {
        self.lemma_full_prefix_len(list);
        if k > 0 {
            self.lemma_full_prefix(list.skip(1), k - 1);
            assert(list.skip(1)[k - 1] == list[k]);
        }
    }

    /// While a run with room is on its list, one with room is found there.
    pub proof fn lemma_listed_is_found(self, slot: u32, heap: u32)
        requires
            self.wf(heap),
            self.runs@.contains_key(slot),
            self.runs@[slot].available != AvailableLink::Unlisted,
            self.runs@[slot].live < self.runs@[slot].capacity,
        ensures
            self.first_open(self.runs@[slot].class.index as int) is Some,
    {
        assert(self.run_wf(slot, heap));
        let list = self.lists@[self.runs@[slot].class.index as int];
        self.lemma_full_prefix_len(list);
        let k = choose|k: int| 0 <= k < list.len() && list[k] == slot;
        if self.full_prefix(list) > k {
            self.lemma_full_prefix(list, k);
        }
    }

    proof fn lemma_full_prefix_len(self, list: Seq<u32>)
        ensures
            self.full_prefix(list) <= list.len(),
        decreases list.len(),
    {
        if list.len() > 0 {
            self.lemma_full_prefix_len(list.skip(1));
        }
    }

    /// Taking the first run with room off its list, and full ones in front of it, loses no
    /// other.
    proof fn lemma_taken_tidy(
        self,
        before: RunHeap,
        class: int,
        slot: Option<u32>,
        heap: u32,
    )
        requires
            before.wf(heap),
            self.wf(heap),
            0 <= class < COUNT,
            before.first_open(class) matches Some(open) ==> slot == Some(open),
            forall|other: u32| #[trigger]
                self.runs@.contains_key(other) && slot != Some(other) ==> before.runs@.contains_key(
                    other,
                ) && self.runs@[other] == (Run {
                    available: self.runs@[other].available,
                    ..before.runs@[other]
                }),
            ({
                let list = before.lists@[class];
                let taken = before.full_prefix(list) as int + 1;
                self.lists@ == before.lists@.update(
                    class,
                    if taken <= list.len() {
                        list.skip(taken)
                    } else {
                        Seq::<u32>::empty()
                    },
                )
            }),
        ensures
            self.tidy(before, slot),
    {
        let list = before.lists@[class];
        let taken = before.full_prefix(list) as int + 1;
        before.lemma_full_prefix_len(list);
        assert forall|other: u32| #[trigger] self.loose(other) implies before.loose(other) || slot
            == Some(other) by {
            if slot != Some(other) && !before.loose(other) {
                let run = before.runs@[other];
                assert(before.run_wf(other, heap));
                let place = run.class.index as int;
                assert(before.lists@[place].contains(other));
                let k = choose|k: int|
                    0 <= k < before.lists@[place].len() && before.lists@[place][k] == other;
                assert(before.list_wf(place) && self.list_wf(place));
                if place != class {
                    assert(self.lists@[place] == before.lists@[place]);
                    assert(run_link_ok(self.runs@, self.lists@[place], place, k));
                } else if k >= taken {
                    let rest = self.lists@[class];
                    assert(rest == list.skip(taken));
                    assert(rest[k - taken] == other);
                    assert(run_link_ok(self.runs@, rest, class, k - taken));
                } else if k < taken - 1 {
                    before.lemma_full_prefix(list, k);
                }
            }
        }
    }

    /// What making a run asks of the system: nothing while the current map has a part left
    /// or no further map can be kept, else a map. The mapping on offer is taken when it is
    /// one, and is left alone, with a request in the mailbox, when it is not.
    pub open spec fn asked(self, os: Os, after: Os) -> bool {
        if self.part() is Some || !self.maps.has_room() {
            after.grant == os.grant && after.wanted == os.wanted
        } else if os.can_map(MAP_SIZE as int, RUN_SIZE as int) {
            after.grant is None && after.wanted is None
        } else {
            &&& after.grant == os.grant
            &&& after.wanted matches Some(request)
            &&& request.len == MAP_SIZE
            &&& request.align == RUN_SIZE
            &&& request.hints == self.hints
        }
    }

    /// One more part of a map is in use: the next of the current map, or the first of the
    /// mapping that was on offer.
    pub open spec fn cut_on(self, before: RunHeap, os: Os) -> bool {
        match before.part() {
            Some(_) => self.maps == before.maps && self.map_index == before.map_index && self.used
                == before.used + 1,
            None => self.used == 1 && (self.map_index matches Some(index)
                && self.maps@.contains_key(index) && Some(self.maps@[index]) == os.grant),
        }
    }

    /// A new run that does not come about leaves the part it would have had for later.
    pub open spec fn cut_stays(self, before: RunHeap, os: Os) -> bool {
        if before.part() is None && before.maps.has_room() && os.can_map(
            MAP_SIZE as int,
            RUN_SIZE as int,
        ) {
            self.part() == Some(os.grant->0.base as int)
        } else {
            self.maps == before.maps && self.map_index == before.map_index && self.used
                == before.used
        }
    }

    /// Maps, and pages with an owner, were added only where the heap kept a map before or
    /// where the mapping on offer lies.
    pub open spec fn drew(
        self,
        before: RunHeap,
        pages: Map<usize, PageOwner>,
        now: Map<usize, PageOwner>,
        os: Os,
    ) -> bool {
        &&& self.maps_from(before, os)
        &&& forall|page: usize| #[trigger]
            now.contains_key(page) && !pages.contains_key(page) ==> before.keeps(page as int)
                || os.offers(page as int)
    }

    pub fn new(config: RunConfig, hints: Hints) -> (heap: Self)
        ensures
            forall|slot: u32| #[trigger] heap.wf(slot),
            heap.runs@ == Map::<u32, Run>::empty(),
            heap.maps@ == Map::<u32, Mapping>::empty(),
            heap.map_index is None,
            heap.policy == config.policy,
            heap.hints == hints,
            heap.runs.slots@.len() == 0,
            heap.runs.holes@.len() == 0,
            forall|class: int| 0 <= class < COUNT ==> #[trigger] heap.lists@[class].len() == 0,
    {
        let none: Option<u32> = None;
        let available: Vec<Option<u32>> = vec![none; COUNT];
        let heap = Self {
            runs: Arena::new(),
            maps: Arena::new(),
            map_index: None,
            used: 0,
            available,
            policy: config.policy(),
            hints,
            lists: Ghost(Seq::new(COUNT as nat, |i: int| Seq::empty())),
        };
        assert forall|class: int| 0 <= class < COUNT implies #[trigger] heap.list_wf(class) by {}
        heap
    }

    /// Changing one run's contents, but not its class or link, keeps the lists.
    pub proof fn lemma_set_run(self, after: RunHeap, slot: u32, heap: u32)
        requires
            self.wf(heap),
            self.runs@.contains_key(slot),
            after.runs.wf(),
            after.runs@ == self.runs@.insert(slot, after.runs@[slot]),
            after.maps_same(self),
            after.available == self.available,
            after.lists == self.lists,
            after.runs@[slot].wf(),
            after.runs@[slot].same_shape(self.runs@[slot]),
            after.runs@[slot].available == self.runs@[slot].available,
        ensures
            after.wf(heap),
    {
        assert(self.run_wf(slot, heap));
        assert forall|class: int| 0 <= class < COUNT implies #[trigger] after.list_wf(class) by {
            assert(self.list_wf(class));
            let list = self.lists@[class];
            assert forall|k: int| 0 <= k < list.len() implies #[trigger] run_link_ok(
                after.runs@,
                list,
                class,
                k,
            ) by {
                assert(run_link_ok(self.runs@, list, class, k));
            }
        }
        assert forall|other: u32|
            #![trigger after.runs@.contains_key(other)]
            #![trigger after.runs@[other]]
            after.runs@.contains_key(other) implies after.run_wf(other, heap) by {
            assert(self.run_wf(other, heap));
        }
    }

    /// Whether a run has outstanding allocated or claimed blocks.
    pub fn has_live(&self) -> (live: bool)
        requires
            self.runs.wf(),
        ensures
            live == exists|slot: u32| #[trigger]
                self.runs@.contains_key(slot) && self.runs@[slot].live != 0,
    {
        let indices = self.runs.occupied();
        let mut i: usize = 0;
        while i < indices.len()
            invariant
                i <= indices@.len(),
                forall|k: int|
                    0 <= k < indices@.len() ==> self.runs@.contains_key(#[trigger] indices@[k]),
                forall|k: int| 0 <= k < i ==> self.runs@[#[trigger] indices@[k]].live == 0,
            decreases indices@.len() - i,
        {
            match self.runs.get(indices[i]) {
                Some(run) => {
                    if run.is_live() {
                        assert(self.runs@.contains_key(indices@[i as int]));
                        return true;
                    }
                },
                None => {},
            }
            i = i + 1;
        }
        assert forall|slot: u32| #[trigger]
            self.runs@.contains_key(slot) implies self.runs@[slot].live == 0 by {
            let k = choose|k: int| 0 <= k < indices@.len() && indices@[k] == slot;
            assert(indices@[k] == slot);
        }
        false
    }

    /// Put a run that has room on the available list of its class. A run already
    /// listed stays where it is.
    pub fn push_available(&mut self, slot: u32, heap: Ghost<u32>) -> (pushed: Result<(), HeapError>)
        requires
            old(self).wf(heap@),
            old(self).runs@.contains_key(slot),
        ensures
            final(self).wf(heap@),
            final(self).maps_same(*old(self)),
            final(self).links_only(*old(self)),
            final(self).slots_same(*old(self)),
            ({
                let run = old(self).runs@[slot];
                let class = run.class.index as int;
                if run.available != AvailableLink::Unlisted {
                    pushed == Ok::<(), HeapError>(()) && final(self).runs@ == old(self).runs@
                        && final(self).lists == old(self).lists
                } else if run.live == run.capacity {
                    pushed == Err::<(), HeapError>(HeapError::InvalidMetadata) && final(self).runs@
                        == old(self).runs@ && final(self).lists == old(self).lists
                } else {
                    pushed == Ok::<(), HeapError>(()) && final(self).lists@ == old(self).lists@.update(class, seq![slot] + old(self).lists@[class]) && final(self).runs@ == old(self).runs@.insert(
                        slot,
                        Run {
                            available: AvailableLink::spec_from_next(
                                old(self).available@[class],
                            ),
                            ..run
                        },
                    )
                }
            }),
    {
        let ghost before = *self;
        assert(before.run_wf(slot, heap@));
        let (listed, full, class): (bool, bool, usize) = match self.runs.get(slot) {
            None => {
                return Err(HeapError::InvalidMetadata);
            },
            Some(run) => (run.listed(), run.is_full(), run.class().index()),
        };
        if listed {
            return Ok(());
        }
        if full {
            return Err(HeapError::InvalidMetadata);
        }
        assert(before.list_wf(class as int));
        let head: Option<u32> = self.available[class];
        match self.runs.get_mut(slot) {
            None => {
                return Err(HeapError::InvalidMetadata);
            },
            Some(run) => {
                run.list_available(head);
            },
        }
        self.available.set(class, Some(slot));
        proof {
            let list = before.lists@[class as int];
            let longer = seq![slot] + list;
            self.lists@ = before.lists@.update(class as int, longer);
            if list.contains(slot) {
                let k = choose|k: int| 0 <= k < list.len() && list[k] == slot;
                assert(run_link_ok(before.runs@, list, class as int, k));
            }
            assert forall|c: int| 0 <= c < COUNT implies #[trigger] self.list_wf(c) by {
                assert(before.list_wf(c));
                let was = before.lists@[c];
                let now = self.lists@[c];
                assert forall|k: int| 0 <= k < now.len() implies #[trigger] run_link_ok(
                    self.runs@,
                    now,
                    c,
                    k,
                ) by {
                    if c == class {
                        if k > 0 {
                            assert(now[k] == was[k - 1]);
                            assert(run_link_ok(before.runs@, was, c, k - 1));
                            assert(slot_at(now, k + 1) == slot_at(was, k));
                            assert(was.contains(was[k - 1]));
                        } else {
                            assert(slot_at(now, 1) == slot_at(was, 0));
                        }
                    } else {
                        assert(run_link_ok(before.runs@, was, c, k));
                    }
                }
                if c == class {
                    assert(now.no_duplicates());
                }
            }
            assert forall|other: u32|
                #![trigger self.runs@.contains_key(other)]
                #![trigger self.runs@[other]]
                self.runs@.contains_key(other) implies self.run_wf(other, heap@) by {
                assert(before.run_wf(other, heap@));
                let c = before.runs@[other].class.index as int;
                if other == slot {
                    assert(longer[0] == slot);
                } else if before.lists@[c].contains(other) && c == class {
                    let k = choose|k: int| 0 <= k < list.len() && list[k] == other;
                    assert(longer[k + 1] == other);
                }
            }
        }
        Ok(())
    }

    /// Take the first run off an available list.
    fn pop_available(&mut self, class: usize, heap: Ghost<u32>) -> (slot: Option<u32>)
        requires
            old(self).wf(heap@),
            class < COUNT,
        ensures
            final(self).wf(heap@),
            final(self).maps_same(*old(self)),
            final(self).links_only(*old(self)),
            final(self).slots_same(*old(self)),
            slot == slot_at(old(self).lists@[class as int], 0),
            slot is None ==> *final(self) == *old(self),
            slot matches Some(slot) ==> old(self).runs@.contains_key(slot) && old(self).runs@[slot].class.index == class && final(self).runs@[slot].available
                == AvailableLink::Unlisted && final(self).lists@ == old(self).lists@.update(
                class as int,
                old(self).lists@[class as int].skip(1),
            ),
    {
        let ghost before = *self;
        let ghost list = self.lists@[class as int];
        assert(before.list_wf(class as int));
        match self.available[class] {
            None => None,
            Some(slot) => {
                assert(run_link_ok(before.runs@, list, class as int, 0));
                assert(before.run_wf(slot, heap@));
                let mut next: Option<u32> = None;
                match self.runs.get_mut(slot) {
                    None => {},
                    Some(run) => {
                        next = run.unlist_available();
                    },
                }
                self.available.set(class, next);
                proof {
                    let rest = list.skip(1);
                    self.lists@ = before.lists@.update(class as int, rest);
                    assert forall|c: int| 0 <= c < COUNT implies #[trigger] self.list_wf(c) by {
                        assert(before.list_wf(c));
                        let was = before.lists@[c];
                        let now = self.lists@[c];
                        assert forall|k: int| 0 <= k < now.len() implies #[trigger] run_link_ok(
                            self.runs@,
                            now,
                            c,
                            k,
                        ) by {
                            if c == class {
                                assert(now[k] == was[k + 1]);
                                assert(run_link_ok(before.runs@, was, c, k + 1));
                                assert(slot_at(now, k + 1) == slot_at(was, k + 2));
                                assert(was[0] != was[k + 1]);
                            } else {
                                assert(run_link_ok(before.runs@, was, c, k));
                            }
                        }
                        if c == class {
                            assert(slot_at(now, 0) == slot_at(was, 1));
                        }
                    }
                    assert forall|other: u32|
                        #![trigger self.runs@.contains_key(other)]
                        #![trigger self.runs@[other]]
                        self.runs@.contains_key(other) implies self.run_wf(other, heap@) by {
                        assert(before.run_wf(other, heap@));
                        let c = before.runs@[other].class.index as int;
                        if other != slot && before.lists@[c].contains(other) && c == class {
                            let k = choose|k: int| 0 <= k < list.len() && list[k] == other;
                            assert(rest[k - 1] == other);
                        }
                    }
                }
                Some(slot)
            },
        }
    }

    /// How many runs at the front of a list are full.
    pub open spec fn full_prefix(self, list: Seq<u32>) -> nat
        decreases list.len(),
    {
        if list.len() == 0 {
            0
        } else if self.runs@[list[0]].live == self.runs@[list[0]].capacity {
            1 + self.full_prefix(list.skip(1))
        } else {
            0
        }
    }

    /// The first run with room on the available list of `class`.
    pub open spec fn first_open(self, class: int) -> Option<u32> {
        slot_at(self.lists@[class], self.full_prefix(self.lists@[class]) as int)
    }

    /// Take the first run with room off the available list. Full runs before it are
    /// dropped from the list.
    fn take_available(&mut self, class: SizeClass, heap: Ghost<u32>) -> (slot: Option<u32>)
        requires
            old(self).wf(heap@),
            class.wf(),
        ensures
            final(self).wf(heap@),
            final(self).maps_same(*old(self)),
            final(self).links_only(*old(self)),
            final(self).slots_same(*old(self)),
            slot == old(self).first_open(class.index as int),
            slot matches Some(slot) ==> final(self).runs@.contains_key(slot) && final(self).runs@[slot].available == AvailableLink::Unlisted && final(self).runs@[slot].live
                < final(self).runs@[slot].capacity && final(self).runs@[slot].class.index
                == class.index,
            ({
                let list = old(self).lists@[class.index as int];
                let taken = old(self).full_prefix(list) as int + 1;
                final(self).lists@ == old(self).lists@.update(
                    class.index as int,
                    if taken <= list.len() {
                        list.skip(taken)
                    } else {
                        Seq::<u32>::empty()
                    },
                )
            }),
    {
        let ghost before = *self;
        let index: usize = class.index();
        let ghost list = self.lists@[index as int];
        let ghost mut popped: int = 0;
        assert(list.skip(0) =~= list);
        assert(self.lists@ =~= before.lists@.update(index as int, list));
        loop
            invariant
                index == class.index,
                index < COUNT,
                self.wf(heap@),
                before.wf(heap@),
                before == *old(self),
                self.maps_same(before),
                self.links_only(before),
                self.slots_same(before),
                list == before.lists@[index as int],
                0 <= popped <= list.len(),
                before.full_prefix(list) == popped + before.full_prefix(list.skip(popped)),
                self.lists@ == before.lists@.update(index as int, list.skip(popped)),
            decreases list.len() - popped,
        {
            let ghost rest = list.skip(popped);
            assert(self.lists@[index as int] == rest);
            let ghost round = *self;
            match self.pop_available(index, heap) {
                None => {
                    assert(rest =~= Seq::<u32>::empty());
                    assert(before.full_prefix(rest) == 0);
                    assert(self.lists@ =~= before.lists@.update(
                        index as int,
                        Seq::<u32>::empty(),
                    ));
                    return None;
                },
                Some(slot) => {
                    assert(rest[0] == slot);
                    assert(rest.skip(1) =~= list.skip(popped + 1));
                    assert(self.lists@ =~= before.lists@.update(
                        index as int,
                        list.skip(popped + 1),
                    ));
                    proof {
                        self.lemma_links_only_trans(round, before);
                        assert(self.run_wf(slot, heap@));
                    }
                    let full = match self.runs.get(slot) {
                        Some(run) => run.is_full(),
                        None => true,
                    };
                    if !full {
                        assert(before.full_prefix(rest) == 0);
                        proof {
                            let run = self.runs@[slot];
                            run.lemma_live_bound();
                        }
                        return Some(slot);
                    }
                    proof {
                        popped = popped + 1;
                    }
                },
            }
        }
    }

    pub proof fn lemma_links_only_trans(self, middle: RunHeap, before: RunHeap)
        requires
            self.links_only(middle),
            middle.links_only(before),
        ensures
            self.links_only(before),
    {
        assert forall|slot: u32|
            #![trigger self.runs@.contains_key(slot)]
            #![trigger before.runs@.contains_key(slot)]
            #![trigger self.runs@[slot]]
            self.runs@.contains_key(slot) == before.runs@.contains_key(slot) && (
            before.runs@.contains_key(slot) ==> self.runs@[slot] == (Run {
                available: self.runs@[slot].available,
                ..before.runs@[slot]
            })) by {
            assert(middle.runs@.contains_key(slot) == before.runs@.contains_key(slot));
        }
    }

    /// The base that the next run takes: the next part of the current map.
    pub open spec fn part(self) -> Option<int> {
        match self.map_index {
            Some(index) if self.used < MAP_RUNS => Some(
                self.maps@[index].base + self.used * RUN_SPACE,
            ),
            _ => None,
        }
    }

    /// Payload space for a new run: the next part of the current map, else the start
    /// of a fresh one.
    fn take(&mut self, os: &mut Os, heap: Ghost<u32>) -> (base: Option<usize>)
        requires
            old(self).wf(heap@),
            old(os).wf(),
        ensures
            final(self).wf(heap@),
            final(os).wf(),
            final(os).effects == old(os).effects,
            final(os).discards == old(os).discards,
            final(self).runs == old(self).runs,
            final(self).lists == old(self).lists,
            final(self).available == old(self).available,
            final(self).policy == old(self).policy,
            final(self).hints == old(self).hints,
            base matches Some(base) ==> base > 0 && base % RUN_SIZE == 0 && base + RUN_SPACE
                <= usize::MAX && final(self).used < MAP_RUNS && final(self).part() == Some(
                base as int,
            ),
            match old(self).part() {
                Some(part) => base == Some(part as usize) && final(self).maps_same(*old(self))
                    && *final(os) == *old(os),
                None => base is Some == (old(self).maps.has_room() && old(os).can_map(
                    MAP_SIZE as int,
                    RUN_SIZE as int,
                )) && (base matches Some(base) ==> base == old(os).grant->0.base && final(self).used
                    == 0 && final(os).grant is None) && (base is None ==> final(self).maps_same(
                    *old(self),
                ) && final(os).grant == old(os).grant),
            },
            old(self).asked(*old(os), *final(os)),
            base is Some && old(self).part() is None ==> (final(self).map_index matches Some(index)
                && final(self).maps@.contains_key(index) && Some(final(self).maps@[index])
                == old(os).grant),
            final(self).maps_from(*old(self), *old(os)),
            base matches Some(base) ==> forall|page: int| #[trigger]
                covers(
                    crate::memory::AddressRange { base, len: RUN_SIZE },
                    page,
                ) ==> old(self).keeps(page) || old(os).offers(page),
    {
        match self.map_index {
            Some(index) => {
                if self.used < MAP_RUNS {
                    assert(self.maps@.contains_key(index));
                    assert(self.maps@[index].wf());
                    match self.maps.get(index) {
                        Some(mapping) => {
                            let base: usize = mapping.base() + self.used * RUN_SPACE;
                            proof {
                                let range = self.maps@[index].spec_range();
                                let part = crate::memory::AddressRange { base, len: RUN_SIZE };
                                assert(base + RUN_SIZE <= range.base + range.len);
                                assert forall|page: int| #[trigger]
                                    covers(part, page) implies self.keeps(page) by {
                                    assert(covers(range, page));
                                }
                            }
                            return Some(base);
                        },
                        None => {},
                    }
                }
            },
            None => {},
        }
        self.map(os, heap)
    }

    /// Map space for another sixteen runs.
    fn map(&mut self, os: &mut Os, heap: Ghost<u32>) -> (base: Option<usize>)
        requires
            old(self).wf(heap@),
            old(os).wf(),
        ensures
            final(self).wf(heap@),
            final(os).wf(),
            final(os).effects == old(os).effects,
            final(os).discards == old(os).discards,
            final(self).runs == old(self).runs,
            final(self).lists == old(self).lists,
            final(self).available == old(self).available,
            final(self).policy == old(self).policy,
            final(self).hints == old(self).hints,
            base is Some == (old(self).maps.has_room() && old(os).can_map(
                MAP_SIZE as int,
                RUN_SIZE as int,
            )),
            base matches Some(base) ==> base > 0 && base % RUN_SIZE == 0 && base + MAP_SIZE
                <= usize::MAX && base == old(os).grant->0.base && final(self).used == 0 && final(os).grant is None && final(self).part() == Some(base as int),
            base is None ==> final(self).maps_same(*old(self)) && final(os).grant == old(os).grant,
            old(self).maps.has_room() && base is None ==> (final(os).wanted matches Some(request)
                && request.len == MAP_SIZE && request.align == RUN_SIZE && request.hints
                == old(self).hints),
            old(self).maps.has_room() && base is Some ==> final(os).wanted is None,
            !old(self).maps.has_room() ==> final(os).wanted == old(os).wanted,
            base is Some ==> (final(self).map_index matches Some(index)
                && final(self).maps@.contains_key(index) && Some(final(self).maps@[index])
                == old(os).grant),
            final(self).maps_from(*old(self), *old(os)),
            base matches Some(base) ==> forall|page: int| #[trigger]
                covers(
                    crate::memory::AddressRange { base, len: RUN_SIZE },
                    page,
                ) ==> old(os).offers(page),
    {
        let ghost before = *self;
        match self.maps.vacant() {
            None => None,
            Some(index) => match os.map_aligned_payload(MAP_SIZE, RUN_SIZE, self.hints) {
                None => None,
                Some(mapping) => {
                    let base: usize = mapping.base();
                    let inserted = self.maps.insert(index, mapping);
                    if !inserted {
                        return None;
                    }
                    self.map_index = Some(index);
                    self.used = 0;
                    proof {
                        before.lemma_lists_kept(*self, heap@);
                        assert forall|page: int| #[trigger] self.keeps(page) implies before.keeps(
                            page,
                        ) || old(os).offers(page) by {
                            let map = choose|map: u32| #[trigger]
                                self.maps@.contains_key(map) && covers(
                                    self.maps@[map].spec_range(),
                                    page,
                                );
                            if map != index {
                                assert(before.maps@.contains_key(map));
                            }
                        }
                    }
                    Some(base)
                },
            },
        }
    }

    /// The lists depend only on the runs.
    proof fn lemma_lists_kept(self, after: RunHeap, heap: u32)
        requires
            self.wf(heap),
            after.runs == self.runs,
            after.lists == self.lists,
            after.available == self.available,
            after.policy == self.policy,
            after.maps_wf(),
        ensures
            after.wf(heap),
    {
        assert forall|class: int| 0 <= class < COUNT implies #[trigger] after.list_wf(class) by {
            assert(self.list_wf(class));
        }
        assert forall|other: u32|
            #![trigger after.runs@.contains_key(other)]
            #![trigger after.runs@[other]]
            after.runs@.contains_key(other) implies after.run_wf(other, heap) by {
            assert(self.run_wf(other, heap));
        }
    }

    /// Record a new run and publish its payload pages. On a conflict the run is
    /// dropped again.
    pub fn insert_run(&mut self, run: Run, heap: u32, pages: &mut PageMap) -> (slot: Option<u32>)
        requires
            old(self).wf(heap),
            runs_published(old(self).runs@, old(pages)@, heap),
            run.wf(),
            run.heap == heap,
            run.policy == old(self).policy,
            run.available == AvailableLink::Unlisted,
        ensures
            final(self).wf(heap),
            runs_published(final(self).runs@, final(pages)@, heap),
            foreign_same_runs(old(pages)@, final(pages)@, heap),
            final(self).maps_same(*old(self)),
            final(self).lists == old(self).lists,
            slot is Some == (old(self).runs.has_room() && run.id.spec_index() == old(self).runs.next_index() && unowned(old(pages)@, run.spec_range())),
            slot is None ==> final(self).runs@ == old(self).runs@ && final(pages)@ == old(pages)@
                && final(self).runs.has_room() == old(self).runs.has_room() && final(self).runs.next_index() == old(self).runs.next_index(),
            slot matches Some(slot) ==> slot == run.id.spec_index() && !old(self).runs@.contains_key(slot) && final(self).runs@ == old(self).runs@.insert(slot, run)
                && final(pages)@ == with_owner(old(pages)@, run.spec_range(), run_owner(
                heap,
                slot,
            )),
    {
        let ghost before = *self;
        let ghost old_pages = pages@;
        let index: u32 = run.id().index();
        let range = run.range();
        let ghost added = run;
        if !self.runs.insert(index, run) {
            return None;
        }
        let ghost inserted = *self;
        proof {
            assert forall|class: int| 0 <= class < COUNT implies #[trigger] self.list_wf(class) by {
                assert(before.list_wf(class));
                let list = before.lists@[class];
                assert forall|k: int| 0 <= k < list.len() implies #[trigger] run_link_ok(
                    self.runs@,
                    list,
                    class,
                    k,
                ) by {
                    assert(run_link_ok(before.runs@, list, class, k));
                }
            }
            assert forall|other: u32|
                #![trigger self.runs@.contains_key(other)]
                #![trigger self.runs@[other]]
                self.runs@.contains_key(other) implies self.run_wf(other, heap) by {
                if other != index {
                    assert(before.run_wf(other, heap));
                }
            }
        }
        let owner = PageOwner::Run { heap, run: index };
        match pages.publish(range, owner) {
            Ok(()) => {
                proof {
                    lemma_runs_published_added(before.runs@, old_pages, heap, index, added);
                }
                Some(index)
            },
            Err(_) => {
                let _removed = self.runs.remove(index);
                proof {
                    assert(self.runs@ =~= before.runs@);
                    assert(self.runs.holes@[0] == index);
                    assert forall|class: int| 0 <= class < COUNT implies #[trigger] self.list_wf(
                        class,
                    ) by {
                        assert(before.list_wf(class));
                    }
                    assert forall|other: u32|
                        #![trigger self.runs@.contains_key(other)]
                        #![trigger self.runs@[other]]
                        self.runs@.contains_key(other) implies self.run_wf(other, heap) by {
                        assert(before.run_wf(other, heap));
                    }
                }
                None
            },
        }
    }

    /// A new run for `class` can be made in the space at `base`.
    pub open spec fn can_add(self, base: int, pages: Map<usize, PageOwner>) -> bool {
        self.runs.has_room() && unowned(
            pages,
            crate::memory::AddressRange { base: base as usize, len: RUN_SIZE },
        )
    }

    /// A new run can be made: space for one is at hand and free.
    pub open spec fn can_make(self, pages: Map<usize, PageOwner>, os: Os) -> bool {
        let base = match self.part() {
            Some(part) => Some(part),
            None => if self.maps.has_room() && os.can_map(MAP_SIZE as int, RUN_SIZE as int) {
                Some(os.grant->0.base as int)
            } else {
                None
            },
        };
        base is Some && self.can_add(base->0, pages)
    }

    /// Make a run for `class` in fresh payload space.
    fn new_run(&mut self, class: SizeClass, heap: u32, pages: &mut PageMap, os: &mut Os) -> (slot:
        Option<u32>)
        requires
            old(self).wf(heap),
            runs_published(old(self).runs@, old(pages)@, heap),
            class.wf(),
            old(os).wf(),
        ensures
            final(self).wf(heap),
            runs_published(final(self).runs@, final(pages)@, heap),
            foreign_same_runs(old(pages)@, final(pages)@, heap),
            final(os).effects == old(os).effects,
            final(os).wf(),
            final(os).grant == old(os).grant || final(os).grant is None,
            final(os).discards == old(os).discards,
            final(self).lists == old(self).lists,
            final(self).policy == old(self).policy,
            ({
                let base = match old(self).part() {
                    Some(part) => Some(part),
                    None => if old(self).maps.has_room() && old(os).can_map(
                        MAP_SIZE as int,
                        RUN_SIZE as int,
                    ) {
                        Some(old(os).grant->0.base as int)
                    } else {
                        None
                    },
                };
                &&& slot is Some == (base is Some && old(self).can_add(base->0, old(pages)@))
                &&& slot matches Some(slot) ==> {
                    &&& slot == old(self).runs.next_index()
                    &&& !old(self).runs@.contains_key(slot)
                    &&& final(self).runs@.contains_key(slot)
                    &&& final(self).runs@ == old(self).runs@.insert(slot, final(self).runs@[slot])
                    &&& final(self).runs@[slot].base == base->0
                    &&& fresh_run(final(self).runs@[slot], class)
                }
            }),
            slot is None ==> final(self).runs@ == old(self).runs@ && final(pages)@ == old(pages)@,
            slot matches Some(slot) ==> final(pages)@ == with_owner(
                old(pages)@,
                final(self).runs@[slot].spec_range(),
                run_owner(heap, slot),
            ),
            old(self).asked(*old(os), *final(os)),
            final(self).hints == old(self).hints,
            slot is Some ==> final(self).cut_on(*old(self), *old(os)),
            slot is None ==> final(self).cut_stays(*old(self), *old(os)),
            final(self).drew(*old(self), old(pages)@, final(pages)@, *old(os)),
    {
        let ghost before = *self;
        proof {
            lemma_foreign_same_runs_refl(pages@, heap);
        }
        let base = self.take(os, Ghost(heap));
        let ghost taken = *self;
        match base {
            None => None,
            Some(base) => match self.runs.vacant() {
                None => None,
                Some(index) => match RunId::from_index(index) {
                    None => None,
                    Some(id) => match Run::new(id, heap, base, class, self.policy) {
                        None => None,
                        Some(run) => {
                            let ghost made = run;
                            match self.insert_run(run, heap, pages) {
                                None => {
                                    proof {
                                        self.lemma_keeps_same(taken);
                                    }
                                    None
                                },
                                Some(slot) => {
                                    let ghost listed = *self;
                                    self.used = self.used + 1;
                                    proof {
                                        listed.lemma_lists_kept(*self, heap);
                                        let range = made.spec_range();
                                        assert forall|page: usize| #[trigger]
                                            pages@.contains_key(page) && !old(
                                                pages,
                                            )@.contains_key(page) implies before.keeps(page as int)
                                            || old(os).offers(page as int) by {
                                            assert(covers(range, page as int));
                                        }
                                        self.lemma_keeps_same(taken);
                                    }
                                    Some(slot)
                                },
                            }
                        },
                    },
                },
            },
        }
    }

    /// Checkout a run for `class`: the available list, else new space in a map.
    pub fn acquire(&mut self, class: SizeClass, heap: u32, pages: &mut PageMap, os: &mut Os) -> (slot:
        Option<u32>)
        requires
            old(self).wf(heap),
            runs_published(old(self).runs@, old(pages)@, heap),
            class.wf(),
            old(os).wf(),
        ensures
            final(self).wf(heap),
            runs_published(final(self).runs@, final(pages)@, heap),
            foreign_same_runs(old(pages)@, final(pages)@, heap),
            final(os).effects == old(os).effects,
            final(os).wf(),
            final(os).grant == old(os).grant || final(os).grant is None,
            final(os).discards == old(os).discards,
            final(self).policy == old(self).policy,
            final(self).hints == old(self).hints,
            final(self).drew(*old(self), old(pages)@, final(pages)@, *old(os)),
            final(self).tidy(*old(self), slot),
            ({
                let list = old(self).lists@[class.index as int];
                let taken = old(self).full_prefix(list) as int + 1;
                final(self).lists@ == old(self).lists@.update(
                    class.index as int,
                    if taken <= list.len() {
                        list.skip(taken)
                    } else {
                        Seq::<u32>::empty()
                    },
                )
            }),
            slot matches Some(slot) ==> final(self).runs@.contains_key(slot) && final(self).runs@[slot].class.index == class.index && final(self).runs@[slot].live < final(self).runs@[slot].capacity && final(self).runs@[slot].available == AvailableLink::Unlisted,
            match old(self).first_open(class.index as int) {
                Some(open) => slot == Some(open) && final(self).links_only(*old(self)) && final(self).maps_same(*old(self)) && final(pages)@ == old(pages)@ && *final(os) == *old(os),
                None => {
                    let base = match old(self).part() {
                        Some(part) => Some(part),
                        None => if old(self).maps.has_room() && old(os).can_map(
                            MAP_SIZE as int,
                            RUN_SIZE as int,
                        ) {
                            Some(old(os).grant->0.base as int)
                        } else {
                            None
                        },
                    };
                    &&& slot is Some == (base is Some && old(self).can_add(base->0, old(pages)@))
                    &&& old(self).asked(*old(os), *final(os))
                    &&& slot is None ==> final(self).links_only(*old(self)) && final(pages)@ == old(pages)@ && final(self).cut_stays(*old(self), *old(os))
                    &&& slot matches Some(slot) ==> {
                        &&& slot == old(self).runs.next_index()
                        &&& !old(self).runs@.contains_key(slot)
                        &&& fresh_run(final(self).runs@[slot], class)
                        &&& final(self).runs@[slot].base == base->0
                        &&& final(self).others_linked(*old(self), slot)
                        &&& final(self).cut_on(*old(self), *old(os))
                        &&& final(pages)@ == with_owner(
                            old(pages)@,
                            final(self).runs@[slot].spec_range(),
                            run_owner(heap, slot),
                        )
                    }
                },
            },
    {
        let ghost before = *self;
        match self.take_available(class, Ghost(heap)) {
            Some(slot) => {
                proof {
                    lemma_foreign_same_runs_refl(pages@, heap);
                    lemma_runs_published_same(before, *self, pages@, heap);
                    self.lemma_taken_tidy(before, class.index as int, Some(slot), heap);
                    self.lemma_keeps_same(before);
                }
                Some(slot)
            },
            None => {
                let ghost dropped = *self;
                proof {
                    lemma_runs_published_same(before, *self, pages@, heap);
                }
                let slot = self.new_run(class, heap, pages, os);
                proof {
                    assert(dropped.runs.next_index() == before.runs.next_index());
                    match slot {
                        Some(slot) => {
                            assert(self.run_wf(slot, heap));
                            self.runs@[slot].lemma_live_bound();
                        },
                        None => {},
                    }
                    self.lemma_taken_tidy(before, class.index as int, slot, heap);
                }
                slot
            },
        }
    }

    /// Only run `slot` changed.
    pub open spec fn only(self, before: RunHeap, slot: u32) -> bool {
        &&& before.runs@.contains_key(slot)
        &&& self.runs@ == before.runs@.insert(slot, self.runs@[slot])
        &&& self.maps_same(before)
        &&& self.slots_same(before)
    }

    /// A held block of some run starts at `addr`.
    pub open spec fn holds(self, addr: int) -> bool {
        exists|slot: u32| #[trigger]
            self.runs@.contains_key(slot) && self.runs@[slot].holds(addr)
    }

    /// Owner: drain every claimed bit on a run and put the freed blocks back.
    ///
    /// A run that was full becomes available again.
    pub fn accept(&mut self, slot: u32, heap: Ghost<u32>, os: &mut Os) -> (accepted: Result<
        Accept,
        HeapError,
    >)
        requires
            old(self).wf(heap@),
            old(self).runs@.contains_key(slot),
            old(os).wf(),
        ensures
            final(self).wf(heap@),
            final(os).wf(),
            accepted == Ok::<Accept, HeapError>(Accept::Done),
            final(self).only(*old(self), slot),
            ({
                let before = old(self).runs@[slot];
                let after = final(self).runs@[slot];
                &&& after.same_shape(before)
                &&& after.claims.none()
                &&& !after.link.queued
                &&& after.live == before.live - before.all_claimed().len()
                &&& forall|i: int| #[trigger]
                    after.outstanding(i) == (before.outstanding(i) && !before.claims.has(i))
                &&& before.live == before.capacity && after.live < after.capacity
                    ==> after.available != AvailableLink::Unlisted
                &&& before.available != AvailableLink::Unlisted ==> after.available
                    != AvailableLink::Unlisted
                &&& before.accept_discards() ==> after.bump == 0 && after.free@ == Seq::<usize>::empty() && final(os).effects@ == old(os).effects@.push(Effect::Discard(before.spec_range()))
                &&& !before.accept_discards() ==> after.bump == before.bump && after.free@
                    == before.all_claimed() + before.free@ && final(os).effects == old(os).effects
            }),
            final(os).grant == old(os).grant,
            final(os).wanted == old(os).wanted,
            final(os).discards == old(os).discards,
    {
        let ghost before = *self;
        assert(before.run_wf(slot, heap@));
        let mut was_full = false;
        let mut now_full = false;
        let mut outcome = Accept::Done;
        match self.runs.get_mut(slot) {
            None => {},
            Some(run) => {
                was_full = run.is_full();
                outcome = run.accept(os);
                now_full = run.is_full();
            },
        }
        proof {
            before.lemma_set_run(*self, slot, heap@);
            assert(self.run_wf(slot, heap@));
            self.runs@[slot].lemma_live_bound();
        }
        let ghost middle = *self;
        if was_full && !now_full {
            match self.push_available(slot, heap) {
                Ok(()) => {},
                Err(error) => {
                    return Err(error);
                },
            }
        }
        proof {
            assert(self.runs@ =~= before.runs@.insert(slot, self.runs@[slot]));
            let after = self.runs@[slot];
            assert(after == (Run { available: after.available, ..middle.runs@[slot] }));
            assert forall|i: int| #[trigger] after.outstanding(i) == (
            before.runs@[slot].outstanding(i) && !before.runs@[slot].claims.has(i)) by {
                assert(after.outstanding(i) == middle.runs@[slot].outstanding(i));
            }
            assert forall|i: int| !#[trigger] after.claims.has(i) by {
                assert(!middle.runs@[slot].claims.has(i));
            }
        }
        Ok(outcome)
    }

    /// Slow-path owner free: list a run that left full, then discard an empty
    /// payload.
    pub fn release(&mut self, slot: u32, outcome: RunFree, heap: Ghost<u32>, os: &mut Os) -> (released:
        Result<(), HeapError>)
        requires
            old(self).wf(heap@),
            old(self).runs@.contains_key(slot),
            old(os).wf(),
        ensures
            final(self).wf(heap@),
            final(os).wf(),
            final(self).only(*old(self), slot),
            ({
                let before = old(self).runs@[slot];
                let after = final(self).runs@[slot];
                let refused = outcome == RunFree::Available && before.available
                    == AvailableLink::Unlisted && before.live == before.capacity;
                let discards = !refused && before.policy == RunPolicy::Discard && before.live == 0;
                &&& released == if refused {
                    Err::<(), HeapError>(HeapError::InvalidMetadata)
                } else {
                    Ok::<(), HeapError>(())
                }
                &&& after.same_shape(before)
                &&& after.live == before.live
                &&& after.link == before.link
                &&& after.claims == before.claims
                &&& forall|i: int| #[trigger] after.outstanding(i) == before.outstanding(i)
                &&& outcome == RunFree::Available && !refused ==> after.available
                    != AvailableLink::Unlisted
                &&& outcome == RunFree::Unchanged || refused ==> after.available
                    == before.available
                &&& discards ==> after.bump == 0 && after.free@ == Seq::<usize>::empty() && final(os).effects@ == old(os).effects@.push(
                    Effect::Discard(before.spec_range()),
                )
                &&& !discards ==> after.bump == before.bump && after.free == before.free && final(os).effects == old(os).effects
            }),
            final(os).grant == old(os).grant,
            final(os).wanted == old(os).wanted,
            final(os).discards == old(os).discards,
    {
        let ghost before = *self;
        assert(before.run_wf(slot, heap@));
        if outcome == RunFree::Available {
            match self.push_available(slot, heap) {
                Ok(()) => {},
                Err(error) => {
                    proof {
                        assert(self.runs@ =~= before.runs@.insert(slot, self.runs@[slot]));
                    }
                    return Err(error);
                },
            }
        }
        let ghost pushed = *self;
        proof {
            assert(self.runs@ =~= before.runs@.insert(slot, self.runs@[slot]));
            assert(pushed.run_wf(slot, heap@));
        }
        match self.runs.get_mut(slot) {
            None => {},
            Some(run) => {
                if run.is_discardable() {
                    run.discard(os);
                }
            },
        }
        proof {
            pushed.lemma_set_run(*self, slot, heap@);
            assert(self.runs@ =~= before.runs@.insert(slot, self.runs@[slot]));
            let after = self.runs@[slot];
            let middle = pushed.runs@[slot];
            assert forall|i: int| #[trigger] after.outstanding(i) == before.runs@[slot].outstanding(
                i,
            ) by {
                assert(middle.outstanding(i) == before.runs@[slot].outstanding(i));
            }
        }
        Ok(())
    }

    /// Runs other than `slot` are the same, up to available links.
    pub open spec fn others_linked(self, before: RunHeap, slot: u32) -> bool {
        forall|other: u32|
            #![trigger self.runs@.contains_key(other)]
            #![trigger before.runs@.contains_key(other)]
            #![trigger self.runs@[other]]
            other != slot ==> self.runs@.contains_key(other) == before.runs@.contains_key(other)
                && (before.runs@.contains_key(other) ==> self.runs@[other] == (Run {
                available: self.runs@[other].available,
                ..before.runs@[other]
            }))
    }
}

/// A run of `class` that has issued no block.
pub open spec fn fresh_run(run: Run, class: SizeClass) -> bool {
    &&& run.class == class
    &&& run.bump == 0
    &&& run.live == 0
    &&& run.free@.len() == 0
    &&& run.claims.none()
    &&& !run.link.queued
    &&& run.available == AvailableLink::Unlisted
}

/// Unchanged pages are unchanged for every heap.
pub proof fn lemma_foreign_same_runs_refl(pages: Map<usize, PageOwner>, heap: u32)
    ensures
        foreign_same_runs(pages, pages, heap),
{
}

/// Publication depends only on where the runs lie.
pub proof fn lemma_runs_published_same(
    before: RunHeap,
    after: RunHeap,
    pages: Map<usize, PageOwner>,
    heap: u32,
)
    requires
        runs_published(before.runs@, pages, heap),
        forall|slot: u32|
            #![trigger after.runs@.contains_key(slot)]
            #![trigger before.runs@.contains_key(slot)]
            #![trigger after.runs@[slot]]
            after.runs@.contains_key(slot) == before.runs@.contains_key(slot) && (
            before.runs@.contains_key(slot) ==> after.runs@[slot].base
                == before.runs@[slot].base),
    ensures
        runs_published(after.runs@, pages, heap),
{
    assert forall|page: usize|
        #![trigger pages.contains_key(page)]
        #![trigger pages[page]]
        pages.contains_key(page) implies (pages[page] matches PageOwner::Run { heap: owning, run }
        ==> owning == heap ==> (after.runs@.contains_key(run) && covers(
        after.runs@[run].spec_range(),
        page as int,
    ))) by {
        match pages[page] {
            PageOwner::Run { heap: owning, run } => {
                if owning == heap {
                    assert(before.runs@.contains_key(run));
                }
            },
            PageOwner::Extent { .. } => {},
        }
    }
}

/// Publishing a new run's free pages extends publication to it.
proof fn lemma_runs_published_added(
    before: Map<u32, Run>,
    pages: Map<usize, PageOwner>,
    heap: u32,
    slot: u32,
    run: Run,
)
    requires
        runs_published(before, pages, heap),
        !before.contains_key(slot),
        unowned(pages, run.spec_range()),
    ensures
        runs_published(
            before.insert(slot, run),
            with_owner(pages, run.spec_range(), run_owner(heap, slot)),
            heap,
        ),
        foreign_same_runs(
            pages,
            with_owner(pages, run.spec_range(), run_owner(heap, slot)),
            heap,
        ),
{
    let range = run.spec_range();
    let after = before.insert(slot, run);
    let added = with_owner(pages, range, run_owner(heap, slot));
    assert forall|other: u32|
        #![trigger after.contains_key(other)]
        #![trigger after[other]]
        after.contains_key(other) implies owned(
        added,
        after[other].spec_range(),
        run_owner(heap, other),
    ) by {
        if other != slot {
            assert(before.contains_key(other));
            let other_range = before[other].spec_range();
            assert(owned(pages, other_range, run_owner(heap, other)));
            assert forall|page: usize|
                #![trigger added.contains_key(page)]
                #![trigger added[page]]
                covers(other_range, page as int) implies added.contains_key(page) && added[page]
                == run_owner(heap, other) by {
                assert(pages.contains_key(page));
                assert(pages[page] == run_owner(heap, other));
            }
        }
    }
    assert forall|page: usize|
        #![trigger added.contains_key(page)]
        #![trigger added[page]]
        added.contains_key(page) implies (added[page] matches PageOwner::Run { heap: owning, run: r }
        ==> owning == heap ==> (after.contains_key(r) && covers(
        after[r].spec_range(),
        page as int,
    ))) by {
        if !covers(range, page as int) {
            assert(pages.contains_key(page));
            match pages[page] {
                PageOwner::Run { heap: owning, run: r } => {
                    if owning == heap {
                        assert(before.contains_key(r));
                    }
                },
                PageOwner::Extent { .. } => {},
            }
        }
    }
}

} // verus!
