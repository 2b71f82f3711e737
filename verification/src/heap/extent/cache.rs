use vstd::prelude::*;

use crate::arena::Arena;
use crate::heap::error::HeapError;
use crate::heap::extent::config::{ExtentConfig, ExtentPolicy};
use crate::heap::extent::{Extent, ExtentState};
use crate::memory::{Effect, Os};

verus! {

/// Index list of retained published extents, newest first.
///
/// Links are slots of the owning extent heap's arena. The cache owns reuse policy;
/// the arena owns metadata storage.
pub struct ExtentCache {
    pub head: Option<u32>,
    pub count: usize,
    pub retained_bytes: usize,
    pub config: ExtentConfig,
    /// The retained slots in list order.
    pub chain: Ghost<Seq<u32>>,
}

/// Length of the mapping in slot `slot`.
pub open spec fn mapped_len(extents: Map<u32, Extent>, slot: u32) -> int {
    extents[slot].mapping->0.len as int
}

/// Total mapping length of the slots in `chain`.
pub open spec fn total_len(extents: Map<u32, Extent>, chain: Seq<u32>) -> int
    decreases chain.len(),
{
    if chain.len() == 0 {
        0
    } else {
        mapped_len(extents, chain[0]) + total_len(extents, chain.skip(1))
    }
}

/// The slot that stands before `chain[at..]`.
pub open spec fn slot_at(chain: Seq<u32>, at: int) -> Option<u32> {
    if 0 <= at < chain.len() {
        Some(chain[at])
    } else {
        None
    }
}

/// The extent at place `k` of `chain` exists and links to the one after it.
pub open spec fn link_ok(extents: Map<u32, Extent>, chain: Seq<u32>, k: int) -> bool {
    extents.contains_key(chain[k]) && extents[chain[k]].next == slot_at(chain, k + 1)
}

/// The extents' links run through `chain` in order and then end.
pub open spec fn linked(extents: Map<u32, Extent>, chain: Seq<u32>) -> bool {
    &&& chain.no_duplicates()
    &&& forall|k: int| 0 <= k < chain.len() ==> #[trigger] link_ok(extents, chain, k)
}

/// The total depends only on the lengths.
pub proof fn lemma_total_len_same(
    before: Map<u32, Extent>,
    after: Map<u32, Extent>,
    chain: Seq<u32>,
)
    requires
        forall|k: int|
            0 <= k < chain.len() ==> mapped_len(before, #[trigger] chain[k]) == mapped_len(
                after,
                chain[k],
            ),
    ensures
        total_len(before, chain) == total_len(after, chain),
    decreases chain.len(),
{
    if chain.len() > 0 {
        assert forall|k: int| 0 <= k < chain.skip(1).len() implies mapped_len(
            before,
            #[trigger] chain.skip(1)[k],
        ) == mapped_len(after, chain.skip(1)[k]) by {
            assert(chain.skip(1)[k] == chain[k + 1]);
        }
        lemma_total_len_same(before, after, chain.skip(1));
        assert(mapped_len(before, chain[0]) == mapped_len(after, chain[0]));
    }
}

/// Taking one slot out takes its length off the total.
pub proof fn lemma_total_len_remove(extents: Map<u32, Extent>, chain: Seq<u32>, at: int)
    requires
        0 <= at < chain.len(),
    ensures
        total_len(extents, chain.remove(at)) == total_len(extents, chain) - mapped_len(
            extents,
            chain[at],
        ),
    decreases chain.len(),
{
    let rest = chain.remove(at);
    if at == 0 {
        assert(rest =~= chain.skip(1));
    } else {
        assert(rest[0] == chain[0]);
        assert(rest.skip(1) =~= chain.skip(1).remove(at - 1));
        lemma_total_len_remove(extents, chain.skip(1), at - 1);
        assert(chain.skip(1)[at - 1] == chain[at]);
    }
}

/// The total is at least each part.
pub proof fn lemma_total_len_part(extents: Map<u32, Extent>, chain: Seq<u32>, at: int)
    requires
        0 <= at < chain.len(),
        forall|k: int| 0 <= k < chain.len() ==> mapped_len(extents, #[trigger] chain[k]) >= 0,
    ensures
        0 <= mapped_len(extents, chain[at]) <= total_len(extents, chain),
        total_len(extents, chain) >= 0,
    decreases chain.len(),
{
    if chain.len() > 1 {
        let tail = chain.skip(1);
        assert forall|k: int| 0 <= k < tail.len() implies mapped_len(extents, #[trigger] tail[k])
            >= 0 by {
            assert(tail[k] == chain[k + 1]);
        }
        lemma_total_len_part(
            extents,
            tail,
            if at == 0 {
                0
            } else {
                at - 1
            },
        );
        if at > 0 {
            assert(tail[at - 1] == chain[at]);
        }
        assert(mapped_len(extents, chain[0]) >= 0);
    } else {
        reveal_with_fuel(total_len, 2);
    }
}

impl ExtentCache {
    /// Every retained slot is mapped and free, the counts are exact, and both
    /// budgets hold.
    pub open spec fn wf(self, extents: Map<u32, Extent>) -> bool {
        &&& self.head == slot_at(self.chain@, 0)
        &&& linked(extents, self.chain@)
        &&& forall|k: int|
            0 <= k < self.chain@.len() ==> (extents[#[trigger] self.chain@[k]].mapping is Some
                && extents[self.chain@[k]].state == ExtentState::Free)
        &&& self.count == self.chain@.len()
        &&& self.retained_bytes == total_len(extents, self.chain@)
        &&& self.count <= self.config.budget.slots
        &&& self.retained_bytes <= self.config.budget.bytes
        &&& self.config.policy == ExtentPolicy::Unmap ==> self.count == 0
    }

    pub fn new(config: ExtentConfig) -> (cache: Self)
        ensures
            forall|extents: Map<u32, Extent>| #[trigger] cache.wf(extents),
            cache.chain@ == Seq::<u32>::empty(),
            cache.config == config,
    {
        Self { head: None, count: 0, retained_bytes: 0, config, chain: Ghost(Seq::empty()) }
    }

    /// The place in the list of the newest retained mapping of exactly `len` bytes.
    pub open spec fn found(self, extents: Map<u32, Extent>, len: int, at: int) -> bool {
        &&& 0 <= at < self.chain@.len()
        &&& mapped_len(extents, self.chain@[at]) == len
        &&& forall|k: int| 0 <= k < at ==> mapped_len(extents, #[trigger] self.chain@[k]) != len
    }

    /// Take the newest retained mapping of exactly `len` bytes off the list.
    pub fn acquire(&mut self, extents: &mut Arena<Extent>, len: usize) -> (taken: Result<
        Option<u32>,
        HeapError,
    >)
        requires
            old(extents).wf(),
            old(self).wf(old(extents)@),
            forall|slot: u32| #[trigger]
                old(extents)@.contains_key(slot) ==> old(extents)@[slot].wf(),
        ensures
            final(extents).wf(),
            final(self).wf(final(extents)@),
            final(self).config == old(self).config,
            final(extents)@.dom() == old(extents)@.dom(),
            final(extents).slots@.len() == old(extents).slots@.len(),
            final(extents).holes == old(extents).holes,
            forall|slot: u32| #[trigger]
                old(extents)@.contains_key(slot) ==> final(extents)@[slot] == (Extent {
                    next: final(extents)@[slot].next,
                    ..old(extents)@[slot]
                }),
            forall|slot: u32| #[trigger]
                old(extents)@.contains_key(slot) && !old(self).chain@.contains(slot) ==> final(extents)@[slot] == old(extents)@[slot],
            taken is Ok,
            (taken->Ok_0 is None) == (forall|k: int|
                0 <= k < old(self).chain@.len() ==> mapped_len(
                    old(extents)@,
                    #[trigger] old(self).chain@[k],
                ) != len),
            taken->Ok_0 is None ==> *final(self) == *old(self) && final(extents)@ == old(extents)@,
            taken->Ok_0 matches Some(slot) ==> ({
                &&& old(self).chain@.contains(slot)
                &&& old(self).found(old(extents)@, len as int, old(self).chain@.index_of(slot))
                &&& final(self).chain@ == old(self).chain@.remove(old(self).chain@.index_of(slot))
                &&& final(extents)@[slot].next is None
                &&& !final(self).chain@.contains(slot)
            }),
    {
        let ghost chain = self.chain@;
        let ghost all = extents@;
        let mut prev: Option<u32> = None;
        let mut current: Option<u32> = self.head;
        let ghost mut at: int = 0;
        while current.is_some()
            invariant
                extents.wf(),
                extents@ == all,
                *self == *old(self),
                self.wf(all),
                self.chain@ == chain,
                0 <= at <= chain.len(),
                current == slot_at(chain, at),
                prev == slot_at(chain, at - 1),
                forall|slot: u32| #[trigger] all.contains_key(slot) ==> all[slot].wf(),
                forall|k: int| 0 <= k < at ==> mapped_len(all, #[trigger] chain[k]) != len,
                extents.slots@.len() == old(extents).slots@.len(),
                extents.holes == old(extents).holes,
                all == old(extents)@,
            decreases chain.len() - at,
        {
            match current {
                None => {},
                Some(slot) => {
                    assert(chain[at] == slot);
                    assert(link_ok(all, chain, at));
                    match extents.get(slot) {
                        None => {
                            return Err(HeapError::MissingExtent);
                        },
                        Some(extent) => {
                            let mapped: usize = match &extent.mapping {
                                Some(mapping) => mapping.len(),
                                None => 0,
                            };
                            let next: Option<u32> = extent.next();
                            if mapped == len {
                                proof {
                                    lemma_total_len_part(all, chain, at);
                                    lemma_total_len_remove(all, chain, at);
                                }
                                match prev {
                                    Some(previous) => {
                                        assert(link_ok(all, chain, at - 1));
                                        match extents.get_mut(previous) {
                                            None => {
                                                return Err(HeapError::MissingExtent);
                                            },
                                            Some(before) => {
                                                before.set_next(next);
                                            },
                                        }
                                    },
                                    None => {
                                        self.head = next;
                                    },
                                }
                                let ghost relinked = extents@;
                                match extents.get_mut(slot) {
                                    None => {
                                        return Err(HeapError::MissingExtent);
                                    },
                                    Some(extent) => {
                                        extent.set_next(None);
                                    },
                                }
                                self.count = self.count - 1;
                                self.retained_bytes = self.retained_bytes - len;
                                proof {
                                    self.chain@ = chain.remove(at);
                                    assert(extents@.dom() =~= all.dom());
                                    lemma_unlinked(all, extents@, chain, at);
                                    assert(chain.index_of(slot) == at) by {
                                        assert(chain.contains(slot));
                                        assert(chain[chain.index_of(slot)] == slot);
                                    }
                                }
                                return Ok(Some(slot));
                            }
                            prev = Some(slot);
                            current = next;
                            proof {
                                at = at + 1;
                            }
                        },
                    }
                },
            }
        }
        Ok(None)
    }

    /// Retaining a mapping of `len` bytes stays inside the budgets.
    pub open spec fn retains(self, len: int) -> bool {
        &&& self.config.policy != ExtentPolicy::Unmap
        &&& self.count < self.config.budget.slots
        &&& self.retained_bytes + len <= self.config.budget.bytes
    }

    pub fn will_retain(&self, len: usize) -> (retain: bool)
        ensures
            retain == self.retains(len as int),
    {
        if !self.config.policy().retains() {
            return false;
        }
        let budget = self.config.budget();
        self.count < budget.slots() && budget.bytes() >= len && self.retained_bytes
            <= budget.bytes() - len
    }

    /// Put a free mapped extent in front of the list, unless that exceeds a budget.
    pub fn insert(&mut self, extents: &mut Arena<Extent>, slot: u32, os: &mut Os) -> (retained: bool)
        requires
            old(extents).wf(),
            old(self).wf(old(extents)@),
            old(os).wf(),
            old(extents)@.contains_key(slot),
            old(extents)@[slot].mapping is Some,
            old(extents)@[slot].wf(),
            old(extents)@[slot].state == ExtentState::Free,
            !old(self).chain@.contains(slot),
        ensures
            final(extents).wf(),
            final(self).wf(final(extents)@),
            final(os).wf(),
            final(self).config == old(self).config,
            final(extents).slots@.len() == old(extents).slots@.len(),
            final(extents).holes == old(extents).holes,
            final(os).grant == old(os).grant,
            final(os).wanted == old(os).wanted,
            final(os).discards == old(os).discards,
            retained == old(self).retains(mapped_len(old(extents)@, slot)),
            !retained ==> *final(self) == *old(self) && final(extents)@ == old(extents)@ && final(os).effects == old(os).effects,
            retained ==> final(self).chain@ == seq![slot] + old(self).chain@,
            retained ==> final(extents)@ == old(extents)@.insert(
                slot,
                Extent {
                    next: old(self).head,
                    clean: if old(self).config.policy == ExtentPolicy::Discard {
                        old(os).discards
                    } else {
                        old(extents)@[slot].clean
                    },
                    ..old(extents)@[slot]
                },
            ),
            retained ==> final(os).effects@ == if old(self).config.policy == ExtentPolicy::Discard {
                old(os).effects@.push(
                    Effect::Discard(old(extents)@[slot].mapping->0.spec_range()),
                )
            } else {
                old(os).effects@
            },
    {
        let ghost all = extents@;
        let ghost chain = self.chain@;
        let len: usize = match extents.get(slot) {
            Some(extent) => match &extent.mapping {
                Some(mapping) => mapping.len(),
                None => 0,
            },
            None => 0,
        };
        if !self.will_retain(len) {
            return false;
        }
        match extents.get_mut(slot) {
            None => {},
            Some(extent) => {
                extent.set_next(self.head);
                if self.config.policy() == ExtentPolicy::Discard {
                    extent.discard(os);
                }
            },
        }
        self.head = Some(slot);
        self.count = self.count + 1;
        self.retained_bytes = self.retained_bytes + len;
        proof {
            let longer = seq![slot] + chain;
            self.chain@ = longer;
            assert(longer.skip(1) =~= chain);
            assert forall|k: int| 0 <= k < chain.len() implies #[trigger] chain[k] != slot by {}
            lemma_total_len_same(all, extents@, chain);
            assert forall|k: int| 0 <= k < longer.len() implies #[trigger] link_ok(
                extents@,
                longer,
                k,
            ) by {
                if k > 0 {
                    assert(longer[k] == chain[k - 1]);
                    assert(link_ok(all, chain, k - 1));
                    assert(slot_at(longer, k + 1) == slot_at(chain, k));
                } else {
                    assert(slot_at(longer, 1) == slot_at(chain, 0));
                }
            }
            assert forall|k: int| 0 <= k < longer.len() implies (
            extents@[#[trigger] longer[k]].mapping is Some && extents@[longer[k]].state
                == ExtentState::Free) by {
                if k > 0 {
                    assert(longer[k] == chain[k - 1]);
                }
            }
        }
        true
    }
}

/// Relinking round the slot at `at` leaves the rest of the list linked.
proof fn lemma_unlinked(
    before: Map<u32, Extent>,
    after: Map<u32, Extent>,
    chain: Seq<u32>,
    at: int,
)
    requires
        linked(before, chain),
        0 <= at < chain.len(),
        before.dom() == after.dom(),
        forall|slot: u32| #[trigger]
            before.contains_key(slot) ==> after[slot] == (Extent {
                next: if slot == chain[at] {
                    None
                } else if at > 0 && slot == chain[at - 1] {
                    slot_at(chain, at + 1)
                } else {
                    before[slot].next
                },
                ..before[slot]
            }),
    ensures
        linked(after, chain.remove(at)),
        !chain.remove(at).contains(chain[at]),
        total_len(after, chain.remove(at)) == total_len(before, chain.remove(at)),
{
    let rest = chain.remove(at);
    assert forall|k: int| 0 <= k < rest.len() implies #[trigger] rest[k] == if k < at {
        chain[k]
    } else {
        chain[k + 1]
    } by {}
    assert forall|k: int| 0 <= k < rest.len() implies #[trigger] link_ok(after, rest, k) by {
        if k < at {
            assert(link_ok(before, chain, k));
        } else {
            assert(link_ok(before, chain, k + 1));
        }
    }
    assert forall|k: int| 0 <= k < rest.len() implies mapped_len(before, #[trigger] rest[k])
        == mapped_len(after, rest[k]) by {
        assert(link_ok(after, rest, k));
        assert(before.contains_key(rest[k]));
    }
    lemma_total_len_same(before, after, rest);
    if rest.contains(chain[at]) {
        let k = choose|k: int| 0 <= k < rest.len() && rest[k] == chain[at];
        assert(rest[k] == chain[at]);
    }
}

} // verus!
