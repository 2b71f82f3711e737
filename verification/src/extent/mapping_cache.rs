//! Mappings that are kept for reuse, within a number of slots and a number of bytes.

use vstd::prelude::*;

use crate::config::Budget;
use crate::heap::extent::config::{ExtentConfig, ExtentPolicy};
use crate::memory::{Effect, Mapping};

verus! {

/// Mappings that are kept without a configuration.
pub const SLOTS: usize = 32;

/// Bytes that are kept without a configuration.
pub const MAX_RETAINED_BYTES: usize = 16_777_216;

/// Retained mappings. Slots are added as they are needed.
pub struct MappingCache {
    pub slots: Vec<Option<Mapping>>,
    pub retained_bytes: usize,
    pub config: ExtentConfig,
}

/// Bytes of the mappings in `slots`.
pub open spec fn bytes_in(slots: Seq<Option<Mapping>>) -> nat
    decreases slots.len(),
{
    if slots.len() == 0 {
        0
    } else {
        bytes_in(slots.drop_last()) + match slots.last() {
            Some(mapping) => mapping.len as nat,
            None => 0,
        }
    }
}

/// Length of the mapping in a slot.
pub open spec fn len_at(slot: Option<Mapping>) -> nat {
    match slot {
        Some(mapping) => mapping.len as nat,
        None => 0,
    }
}

proof fn lemma_bytes_update(slots: Seq<Option<Mapping>>, at: int, slot: Option<Mapping>)
    requires
        0 <= at < slots.len(),
    ensures
        bytes_in(slots.update(at, slot)) == bytes_in(slots) - len_at(slots[at]) + len_at(slot),
        len_at(slots[at]) <= bytes_in(slots),
    decreases slots.len(),
{
    let changed = slots.update(at, slot);
    if at == slots.len() - 1 {
        assert(changed.drop_last() =~= slots.drop_last());
    } else {
        assert(changed.drop_last() =~= slots.drop_last().update(at, slot));
        lemma_bytes_update(slots.drop_last(), at, slot);
    }
}

/// The first slot with a mapping of `len` bytes, or the number of slots.
pub open spec fn first_with(slots: Seq<Option<Mapping>>, len: usize, from: int) -> int
    decreases slots.len() - from,
{
    if from >= slots.len() {
        slots.len() as int
    } else if slots[from] matches Some(mapping) && mapping.len == len {
        from
    } else {
        first_with(slots, len, from + 1)
    }
}

/// The first empty slot, or the number of slots.
pub open spec fn first_empty(slots: Seq<Option<Mapping>>, from: int) -> int
    decreases slots.len() - from,
{
    if from >= slots.len() {
        slots.len() as int
    } else if slots[from] is None {
        from
    } else {
        first_empty(slots, from + 1)
    }
}

proof fn lemma_first_empty(slots: Seq<Option<Mapping>>, from: int)
    requires
        0 <= from <= slots.len(),
    ensures
        from <= first_empty(slots, from) <= slots.len(),
        first_empty(slots, from) < slots.len() ==> slots[first_empty(slots, from)] is None,
    decreases slots.len() - from,
{
    if from < slots.len() && slots[from] is Some {
        lemma_first_empty(slots, from + 1);
    }
}

proof fn lemma_first_with(slots: Seq<Option<Mapping>>, len: usize, from: int)
    requires
        0 <= from <= slots.len(),
    ensures
        from <= first_with(slots, len, from) <= slots.len(),
        first_with(slots, len, from) < slots.len() ==> (slots[first_with(
            slots,
            len,
            from,
        )] matches Some(mapping) && mapping.len == len),
    decreases slots.len() - from,
{
    if from < slots.len() && !(slots[from] matches Some(mapping) && mapping.len == len) {
        lemma_first_with(slots, len, from + 1);
    }
}

/// The slots with `mapping` in slot `at`, which may be the one after the last.
pub open spec fn kept_in(slots: Seq<Option<Mapping>>, at: int, mapping: Mapping) -> Seq<
    Option<Mapping>,
> {
    if at < slots.len() {
        slots.update(at, Some(mapping))
    } else {
        slots.push(Some(mapping))
    }
}

impl MappingCache {
    /// The budgets hold, and every mapping is a mapping.
    pub open spec fn wf(self) -> bool {
        &&& self.slots@.len() <= self.config.budget.slots
        &&& self.retained_bytes == bytes_in(self.slots@)
        &&& self.retained_bytes <= self.config.budget.bytes
        &&& forall|i: int|
            0 <= i < self.slots@.len() ==> ((#[trigger] self.slots@[i]) matches Some(mapping) ==> mapping.wf())
    }

    /// The mapping of exactly `len` bytes that is taken next.
    pub open spec fn exact(self, len: usize) -> Option<Mapping> {
        let at = first_with(self.slots@, len, 0);
        if at < self.slots@.len() {
            self.slots@[at]
        } else {
            None
        }
    }

    /// A mapping of `len` bytes would be kept.
    pub open spec fn keeps(self, len: int) -> bool {
        &&& self.config.policy != ExtentPolicy::Unmap
        &&& self.retained_bytes + len <= self.config.budget.bytes
        &&& first_empty(self.slots@, 0) < self.config.budget.slots
    }

    /// What giving up `mapping` asks of the system: nothing for one that is kept, unless the
    /// policy drops its pages.
    pub open spec fn leaving(self, mapping: Mapping) -> Seq<Effect> {
        if !self.keeps(mapping.len as int) {
            seq![Effect::Unmap(mapping.spec_range())]
        } else if self.config.policy == ExtentPolicy::Discard {
            seq![Effect::Discard(mapping.spec_range())]
        } else {
            Seq::empty()
        }
    }

    pub fn new() -> (cache: Self)
        ensures
            cache.wf(),
            cache.config == (ExtentConfig {
                policy: ExtentPolicy::Keep,
                budget: Budget { slots: SLOTS, bytes: MAX_RETAINED_BYTES },
            }),
            cache.slots@.len() == 0,
            cache.retained_bytes == 0,
            forall|len: usize| #[trigger] cache.exact(len) is None,
    {
        Self::with_config(ExtentConfig {
            policy: ExtentPolicy::Keep,
            budget: Budget { slots: SLOTS, bytes: MAX_RETAINED_BYTES },
        })
    }

    /// A cache that keeps what `config` allows.
    pub fn with_config(config: ExtentConfig) -> (cache: Self)
        ensures
            cache.wf(),
            cache.config == config,
            cache.slots@.len() == 0,
            cache.retained_bytes == 0,
            forall|len: usize| #[trigger] cache.exact(len) is None,
    {
        Self { slots: Vec::new(), retained_bytes: 0, config }
    }

    /// Take the first mapping of exactly `len` bytes.
    pub fn take_exact(&mut self, len: usize) -> (mapping: Option<Mapping>)
        requires
            old(self).wf(),
        ensures
            final(self).wf(),
            mapping == old(self).exact(len),
            final(self).config == old(self).config,
            match mapping {
                Some(mapping) => mapping.wf() && mapping.len == len && final(self).slots@
                    == old(self).slots@.update(first_with(old(self).slots@, len, 0), None)
                    && final(self).retained_bytes == old(self).retained_bytes - len,
                None => *final(self) == *old(self),
            },
    {
        let mut at: usize = 0;
        while at < self.slots.len()
            invariant
                at <= self.slots@.len(),
                self.wf(),
                *self == *old(self),
                first_with(self.slots@, len, 0) == first_with(self.slots@, len, at as int),
            decreases self.slots@.len() - at,
        {
            let found = match &self.slots[at] {
                Some(mapping) => mapping.len == len,
                None => false,
            };
            if found {
                proof {
                    lemma_bytes_update(self.slots@, at as int, None);
                }
                let mut taken: Option<Mapping> = None;
                std::mem::swap(&mut taken, &mut self.slots[at]);
                assert(self.slots@ =~= old(self).slots@.update(at as int, None));
                self.retained_bytes = self.retained_bytes - len;
                return taken;
            }
            at = at + 1;
        }
        None
    }

    /// The first slot that is empty, or the one after the last.
    fn empty_slot(&self) -> (at: usize)
        requires
            self.wf(),
        ensures
            at == first_empty(self.slots@, 0),
            at <= self.slots@.len(),
            at < self.slots@.len() ==> self.slots@[at as int] is None,
    {
        let mut at: usize = 0;
        while at < self.slots.len()
            invariant
                at <= self.slots@.len(),
                self.wf(),
                first_empty(self.slots@, 0) == first_empty(self.slots@, at as int),
            decreases self.slots@.len() - at,
        {
            if self.slots[at].is_none() {
                return at;
            }
            at = at + 1;
        }
        at
    }

    /// Whether a mapping of `len` bytes would be kept.
    pub fn can_retain(&self, len: usize) -> (keeps: bool)
        requires
            self.wf(),
        ensures
            keeps == self.keeps(len as int),
    {
        match self.retained_bytes.checked_add(len) {
            Some(bytes) => self.config.policy().retains() && bytes
                <= self.config.budget().bytes() && self.empty_slot()
                < self.config.budget().slots(),
            None => false,
        }
    }

    /// Keep a mapping. It comes back when a budget is spent.
    pub fn insert(&mut self, mapping: Mapping) -> (kept: Result<(), Mapping>)
        requires
            old(self).wf(),
            mapping.wf(),
        ensures
            final(self).wf(),
            kept is Ok == old(self).keeps(mapping.len as int),
            final(self).config == old(self).config,
            match kept {
                Ok(()) => final(self).slots@ == kept_in(
                    old(self).slots@,
                    first_empty(old(self).slots@, 0),
                    mapping,
                ) && final(self).retained_bytes == old(self).retained_bytes + mapping.len,
                Err(back) => back == mapping && *final(self) == *old(self),
            },
    {
        if !self.can_retain(mapping.len) {
            return Err(mapping);
        }
        let bytes: usize = self.retained_bytes + mapping.len;
        let at: usize = self.empty_slot();
        if at < self.slots.len() {
            proof {
                lemma_bytes_update(self.slots@, at as int, Some(mapping));
            }
            self.slots.set(at, Some(mapping));
        } else {
            let ghost before = self.slots@;
            self.slots.push(Some(mapping));
            assert(self.slots@.drop_last() =~= before);
        }
        self.retained_bytes = bytes;
        Ok(())
    }
}

/// The number of mappings in `slots`.
pub open spec fn held_in(slots: Seq<Option<Mapping>>) -> nat
    decreases slots.len(),
{
    if slots.len() == 0 {
        0
    } else {
        held_in(slots.drop_last()) + if slots.last() is Some {
            1nat
        } else {
            0nat
        }
    }
}

/// Every slot is taken when as many mappings are held as there are slots, and only then.
proof fn lemma_held(slots: Seq<Option<Mapping>>)
    ensures
        held_in(slots) <= slots.len(),
        held_in(slots) == slots.len() <==> forall|i: int|
            0 <= i < slots.len() ==> (#[trigger] slots[i]) is Some,
    decreases slots.len(),
{
    if slots.len() > 0 {
        let rest = slots.drop_last();
        lemma_held(rest);
        assert(forall|i: int| 0 <= i < rest.len() ==> #[trigger] rest[i] == slots[i]);
        if held_in(slots) == slots.len() {
            assert forall|i: int| 0 <= i < slots.len() implies (#[trigger] slots[i]) is Some by {
                if i < rest.len() {
                    assert(rest[i] is Some);
                }
            }
        }
        if forall|i: int| 0 <= i < slots.len() ==> (#[trigger] slots[i]) is Some {
            assert forall|i: int| 0 <= i < rest.len() implies (#[trigger] rest[i]) is Some by {
                assert(slots[i] is Some);
            }
            assert(slots[slots.len() - 1] is Some);
        }
    }
}

/// Slots before the first empty one are taken.
proof fn lemma_taken_before(slots: Seq<Option<Mapping>>, from: int, i: int)
    requires
        0 <= from <= i < first_empty(slots, from),
    ensures
        slots[i] is Some,
    decreases i - from,
{
    lemma_first_empty(slots, from);
    if from < i {
        lemma_taken_before(slots, from + 1, i);
    }
}

/// Slots before the first with a mapping of `len` bytes have none of that length.
proof fn lemma_none_before(slots: Seq<Option<Mapping>>, len: usize, from: int, i: int)
    requires
        0 <= from <= i < first_with(slots, len, from),
        i < slots.len(),
    ensures
        !(slots[i] matches Some(mapping) && mapping.len == len),
    decreases i - from,
{
    lemma_first_with(slots, len, from);
    if from < i {
        lemma_none_before(slots, len, from + 1, i);
    }
}

/// A cache never holds more than its budgets, and keeps a mapping just when both budgets
/// allow one more of its length.
pub proof fn law_cache_keeps_within_budgets(cache: MappingCache, len: usize)
    requires
        cache.wf(),
    ensures
        held_in(cache.slots@) <= cache.config.budget.slots,
        bytes_in(cache.slots@) <= cache.config.budget.bytes,
        cache.keeps(len as int) == (cache.config.policy != ExtentPolicy::Unmap && held_in(
            cache.slots@,
        ) < cache.config.budget.slots && bytes_in(cache.slots@) + len
            <= cache.config.budget.bytes),
{
    let slots = cache.slots@;
    lemma_held(slots);
    lemma_first_empty(slots, 0);
    if first_empty(slots, 0) == slots.len() {
        assert forall|i: int| 0 <= i < slots.len() implies (#[trigger] slots[i]) is Some by {
            lemma_taken_before(slots, 0, i);
        }
    }
}

/// A mapping that is held comes back for its own length only: a request of that length
/// finds one, and a request of another length takes another mapping and leaves this one.
pub proof fn law_held_mapping_answers_its_length(cache: MappingCache, at: int, len: usize)
    requires
        cache.wf(),
        0 <= at < cache.slots@.len(),
        cache.slots@[at] is Some,
    ensures
        ({
            let held = cache.slots@[at]->0;
            &&& cache.exact(held.len) is Some
            &&& cache.exact(len) matches Some(taken) ==> taken.len == len
            &&& len != held.len ==> cache.exact(len) != Some(held) && (cache.exact(len) is Some
                ==> cache.slots@.update(first_with(cache.slots@, len, 0), None)[at] == Some(held))
        }),
{
    let slots = cache.slots@;
    let held = slots[at]->0;
    lemma_first_with(slots, held.len, 0);
    lemma_first_with(slots, len, 0);
    if first_with(slots, held.len, 0) > at {
        lemma_none_before(slots, held.len, 0, at);
    }
}

/// A mapping that an empty cache keeps is the one that its length gets next.
pub proof fn law_kept_mapping_is_reused(cache: MappingCache, mapping: Mapping)
    requires
        cache.wf(),
        mapping.wf(),
        cache.keeps(mapping.len as int),
        cache.exact(mapping.len) is None,
    ensures
        ({
            let at = first_empty(cache.slots@, 0);
            0 <= at < cache.config.budget.slots && at <= cache.slots@.len() && first_with(
                kept_in(cache.slots@, at, mapping),
                mapping.len,
                0,
            ) == at
        }),
{
    let at = first_empty(cache.slots@, 0);
    lemma_first_empty(cache.slots@, 0);
    lemma_first_with(cache.slots@, mapping.len, 0);
    lemma_reused(cache.slots@, mapping, at, 0);
}

proof fn lemma_reused(slots: Seq<Option<Mapping>>, mapping: Mapping, at: int, from: int)
    requires
        0 <= from <= at <= slots.len(),
        first_with(slots, mapping.len, from) == slots.len(),
    ensures
        first_with(kept_in(slots, at, mapping), mapping.len, from) == at,
    decreases at - from,
{
    if from < at {
        lemma_reused(slots, mapping, at, from + 1);
    }
}

} // verus!
