//! What the effects of a heap operation may touch: never a block that is held
//! throughout.

use vstd::prelude::*;

use crate::heap::extent::heap::allocated_at;
use crate::heap::extent::{law_zeroing_zeroes, Extent, ExtentInit, ExtentState};
use crate::heap::run::Run;
use crate::heap::Heap;
use crate::layout::LayoutSpec;
use crate::memory::{after_all, touched, AddressRange, Effect, Mapping};

verus! {

/// `range` is the payload of a run that holds no block throughout.
pub open spec fn from_run(before: Heap, after: Heap, range: AddressRange) -> bool {
    exists|slot: u32| #[trigger]
        before.inner.runs.runs@.contains_key(slot) && range
            == before.inner.runs.runs@[slot].spec_range() && run_cleared(before, after, slot)
}

/// No block of run `slot` is held throughout.
pub open spec fn run_cleared(before: Heap, after: Heap, slot: u32) -> bool {
    forall|addr: int| #[trigger]
        after.inner.runs.runs@[slot].holds(addr) ==> !before.inner.runs.runs@[slot].holds(addr)
}

/// `range` lies in the mapping of an extent that is not allocated throughout.
pub open spec fn from_extent(before: Heap, after: Heap, range: AddressRange) -> bool {
    exists|slot: u32| #[trigger]
        before.inner.extents.extents@.contains_key(slot)
            && before.inner.extents.extents@[slot].mapping is Some && ({
            let whole = before.inner.extents.extents@[slot].mapping->0.spec_range();
            whole.base <= range.base && range.base + range.len <= whole.base + whole.len
        }) && !(before.inner.extents.extents@[slot].state == ExtentState::Allocated
            && after.inner.extents.extents@[slot].state == ExtentState::Allocated)
}

/// The effect drops, unmaps, or zeroes bytes, none of them in a block held throughout.
pub open spec fn gives_up(before: Heap, after: Heap, effect: Effect) -> bool {
    &&& !(effect is Copy)
    &&& from_run(before, after, touched(effect)) || from_extent(before, after, touched(effect))
}

/// An allocated extent whose block is still held is the same extent.
pub open spec fn extents_stay(before: Heap, after: Heap) -> bool {
    forall|slot: u32|
        #![trigger before.inner.extents.extents@.contains_key(slot)]
        #![trigger after.inner.extents.extents@.contains_key(slot)]
        ({
            let was = before.inner.extents.extents@[slot];
            let now = after.inner.extents.extents@[slot];
            before.inner.extents.extents@.contains_key(slot) && was.state
                == ExtentState::Allocated && after.holds(was.base as int)
                ==> after.inner.extents.extents@.contains_key(slot) && now.state
                == ExtentState::Allocated && now.base == was.base && now.len == was.len
                && now.mapping == was.mapping
        })
}

/// A clean mapping was clean before, or was dropped by one of the new effects on a
/// platform that zeroes dropped pages.
pub open spec fn clean_stays(
    before: Heap,
    after: Heap,
    old_effects: Seq<Effect>,
    effects: Seq<Effect>,
    discards: bool,
) -> bool {
    forall|slot: u32| #[trigger]
        after.inner.extents.extents@.contains_key(slot) ==> {
            let now = after.inner.extents.extents@[slot];
            let was = before.inner.extents.extents@[slot];
            now.clean && now.mapping is Some ==> {
                ||| before.inner.extents.extents@.contains_key(slot) && was.clean && was.mapping
                    == now.mapping
                ||| discards && exists|k: int|
                    old_effects.len() <= k < effects.len() && #[trigger] effects[k]
                        == Effect::Discard(now.mapping->0.spec_range())
            }
        }
}

/// The operation from `before` to `after` adds effects only, and those touch no block
/// that is held throughout. `grant` is a mapping that it may hand back unused.
#[verifier::opaque]
pub open spec fn spares(
    before: Heap,
    after: Heap,
    old_effects: Seq<Effect>,
    effects: Seq<Effect>,
    discards: bool,
    grant: Option<Mapping>,
) -> bool {
    &&& old_effects.is_prefix_of(effects)
    &&& forall|k: int|
        old_effects.len() <= k < effects.len() ==> (gives_up(before, after, #[trigger] effects[k])
            || (grant matches Some(mapping) && effects[k] == Effect::Unmap(
            mapping.spec_range(),
        )))
    &&& extents_stay(before, after)
    &&& clean_stays(before, after, old_effects, effects, discards)
}

/// The same blocks are held, in runs and extents that lie where they lay.
#[verifier::opaque]
pub open spec fn settled(before: Heap, after: Heap) -> bool {
    &&& forall|slot: u32|
        #![trigger before.inner.runs.runs@.contains_key(slot)]
        #![trigger after.inner.runs.runs@.contains_key(slot)]
        before.inner.runs.runs@.contains_key(slot) == after.inner.runs.runs@.contains_key(slot) && (
        before.inner.runs.runs@.contains_key(slot) ==> run_settled(before, after, slot))
    &&& forall|slot: u32|
        #![trigger before.inner.extents.extents@.contains_key(slot)]
        #![trigger after.inner.extents.extents@.contains_key(slot)]
        before.inner.extents.extents@.contains_key(slot)
            == after.inner.extents.extents@.contains_key(slot) && (
        before.inner.extents.extents@.contains_key(slot) ==> extent_settled(
            before.inner.extents.extents@[slot],
            after.inner.extents.extents@[slot],
        ))
    &&& forall|addr: int| #[trigger] after.holds(addr) == before.holds(addr)
}

pub open spec fn run_settled(before: Heap, after: Heap, slot: u32) -> bool {
    let was = before.inner.runs.runs@[slot];
    let now = after.inner.runs.runs@[slot];
    &&& now.base == was.base
    &&& forall|addr: int| #[trigger] now.holds(addr) == was.holds(addr)
}

pub open spec fn extent_settled(was: Extent, now: Extent) -> bool {
    &&& (now.state == ExtentState::Allocated) == (was.state == ExtentState::Allocated)
    &&& was.state == ExtentState::Allocated ==> now.base == was.base && now.len == was.len
        && now.mapping == was.mapping
    &&& now.mapping is Some ==> now.mapping == was.mapping
}

pub proof fn lemma_settled_trans(before: Heap, middle: Heap, after: Heap)
    requires
        settled(before, middle),
        settled(middle, after),
    ensures
        settled(before, after),
{
    reveal(spares);
    reveal(settled);
    assert forall|slot: u32|
        #![trigger before.inner.runs.runs@.contains_key(slot)]
        #![trigger after.inner.runs.runs@.contains_key(slot)]
        before.inner.runs.runs@.contains_key(slot) == after.inner.runs.runs@.contains_key(slot) && (
        before.inner.runs.runs@.contains_key(slot) ==> run_settled(before, after, slot)) by {
        assert(before.inner.runs.runs@.contains_key(slot)
            == middle.inner.runs.runs@.contains_key(slot));
        if before.inner.runs.runs@.contains_key(slot) {
            assert(run_settled(before, middle, slot));
            assert(run_settled(middle, after, slot));
            assert forall|addr: int| #[trigger] after.inner.runs.runs@[slot].holds(addr)
                == before.inner.runs.runs@[slot].holds(addr) by {
                assert(middle.inner.runs.runs@[slot].holds(addr)
                    == before.inner.runs.runs@[slot].holds(addr));
            }
        }
    }
    assert forall|slot: u32|
        #![trigger before.inner.extents.extents@.contains_key(slot)]
        #![trigger after.inner.extents.extents@.contains_key(slot)]
        before.inner.extents.extents@.contains_key(slot)
            == after.inner.extents.extents@.contains_key(slot) && (
        before.inner.extents.extents@.contains_key(slot) ==> extent_settled(
            before.inner.extents.extents@[slot],
            after.inner.extents.extents@[slot],
        )) by {
        assert(before.inner.extents.extents@.contains_key(slot)
            == middle.inner.extents.extents@.contains_key(slot));
    }
    assert forall|addr: int| #[trigger] after.holds(addr) == before.holds(addr) by {
        assert(middle.holds(addr) == before.holds(addr));
    }
}

/// Nothing done touches nothing.
pub proof fn lemma_spares_refl(heap: Heap, effects: Seq<Effect>, discards: bool)
    ensures
        settled(heap, heap),
        spares(heap, heap, effects, effects, discards, None),
{
    reveal(spares);
    reveal(settled);
}

/// A settled step, then any step.
pub proof fn lemma_spares_then(
    before: Heap,
    middle: Heap,
    after: Heap,
    old_effects: Seq<Effect>,
    half: Seq<Effect>,
    effects: Seq<Effect>,
    discards: bool,
    grant: Option<Mapping>,
)
    requires
        settled(before, middle),
        spares(before, middle, old_effects, half, discards, None),
        spares(middle, after, half, effects, discards, grant),
    ensures
        spares(before, after, old_effects, effects, discards, grant),
{
    reveal(spares);
    reveal(settled);
    assert forall|k: int| 0 <= k < old_effects.len() implies old_effects[k] == effects[k] by {
        assert(half[k] == old_effects[k]);
    }
    assert(old_effects.is_prefix_of(effects)) by {
        assert(effects.take(old_effects.len() as int) =~= old_effects);
    }
    assert forall|k: int| old_effects.len() <= k < effects.len() implies gives_up(
        before,
        after,
        #[trigger] effects[k],
    ) || (grant matches Some(mapping) && effects[k] == Effect::Unmap(mapping.spec_range())) by {
        if k < half.len() {
            assert(effects[k] == half[k]);
            lemma_kept_up(before, middle, after, half[k]);
        } else if gives_up(middle, after, effects[k]) {
            lemma_taken_over(before, middle, after, effects[k]);
        }
    }
    assert forall|slot: u32|
        #![trigger before.inner.extents.extents@.contains_key(slot)]
        #![trigger after.inner.extents.extents@.contains_key(slot)]
        ({
            let was = before.inner.extents.extents@[slot];
            let now = after.inner.extents.extents@[slot];
            before.inner.extents.extents@.contains_key(slot) && was.state
                == ExtentState::Allocated && after.holds(was.base as int)
                ==> after.inner.extents.extents@.contains_key(slot) && now.state
                == ExtentState::Allocated && now.base == was.base && now.len == was.len
                && now.mapping == was.mapping
        }) by {
        assert(middle.inner.extents.extents@.contains_key(slot)
            == before.inner.extents.extents@.contains_key(slot));
    }
    lemma_clean_then(before, middle, after, old_effects, half, effects, discards);
}

/// What a settled step gave up stays given up.
proof fn lemma_kept_up(before: Heap, middle: Heap, after: Heap, effect: Effect)
    requires
        settled(before, middle),
        gives_up(before, middle, effect),
    ensures
        gives_up(before, after, effect),
{
    reveal(spares);
    reveal(settled);
    let range = touched(effect);
    if from_run(before, middle, range) {
        let slot = choose|slot: u32| #[trigger]
            before.inner.runs.runs@.contains_key(slot) && range
                == before.inner.runs.runs@[slot].spec_range() && run_cleared(before, middle, slot);
        assert(run_settled(before, middle, slot));
        assert forall|addr: int| #[trigger] after.inner.runs.runs@[slot].holds(addr) implies
            !before.inner.runs.runs@[slot].holds(addr) by {
            assert(middle.inner.runs.runs@[slot].holds(addr)
                == before.inner.runs.runs@[slot].holds(addr));
        }
        assert(run_cleared(before, after, slot));
    }
    if from_extent(before, middle, range) {
        let slot = choose|slot: u32| #[trigger]
            before.inner.extents.extents@.contains_key(slot)
                && before.inner.extents.extents@[slot].mapping is Some && ({
                let whole = before.inner.extents.extents@[slot].mapping->0.spec_range();
                whole.base <= range.base && range.base + range.len <= whole.base + whole.len
            }) && !(before.inner.extents.extents@[slot].state == ExtentState::Allocated
                && middle.inner.extents.extents@[slot].state == ExtentState::Allocated);
        assert(before.inner.extents.extents@.contains_key(slot));
    }
}

/// What a step gives up after a settled one was to be had before it.
proof fn lemma_taken_over(before: Heap, middle: Heap, after: Heap, effect: Effect)
    requires
        settled(before, middle),
        gives_up(middle, after, effect),
    ensures
        gives_up(before, after, effect),
{
    reveal(spares);
    reveal(settled);
    let range = touched(effect);
    if from_run(middle, after, range) {
        let slot = choose|slot: u32| #[trigger]
            middle.inner.runs.runs@.contains_key(slot) && range
                == middle.inner.runs.runs@[slot].spec_range() && run_cleared(middle, after, slot);
        assert(before.inner.runs.runs@.contains_key(slot));
        assert(run_settled(before, middle, slot));
        assert forall|addr: int| #[trigger] after.inner.runs.runs@[slot].holds(addr) implies
            !before.inner.runs.runs@[slot].holds(addr) by {
            assert(middle.inner.runs.runs@[slot].holds(addr)
                == before.inner.runs.runs@[slot].holds(addr));
        }
        assert(run_cleared(before, after, slot));
    }
    if from_extent(middle, after, range) {
        let slot = choose|slot: u32| #[trigger]
            middle.inner.extents.extents@.contains_key(slot)
                && middle.inner.extents.extents@[slot].mapping is Some && ({
                let whole = middle.inner.extents.extents@[slot].mapping->0.spec_range();
                whole.base <= range.base && range.base + range.len <= whole.base + whole.len
            }) && !(middle.inner.extents.extents@[slot].state == ExtentState::Allocated
                && after.inner.extents.extents@[slot].state == ExtentState::Allocated);
        assert(before.inner.extents.extents@.contains_key(slot));
    }
}

proof fn lemma_clean_then(
    before: Heap,
    middle: Heap,
    after: Heap,
    old_effects: Seq<Effect>,
    half: Seq<Effect>,
    effects: Seq<Effect>,
    discards: bool,
)
    requires
        old_effects.is_prefix_of(half),
        half.is_prefix_of(effects),
        clean_stays(before, middle, old_effects, half, discards),
        clean_stays(middle, after, half, effects, discards),
    ensures
        clean_stays(before, after, old_effects, effects, discards),
{
    reveal(spares);
    reveal(settled);
    assert forall|slot: u32| #[trigger]
        after.inner.extents.extents@.contains_key(slot) implies ({
        let now = after.inner.extents.extents@[slot];
        let was = before.inner.extents.extents@[slot];
        now.clean && now.mapping is Some ==> {
            ||| before.inner.extents.extents@.contains_key(slot) && was.clean && was.mapping
                == now.mapping
            ||| discards && exists|k: int|
                old_effects.len() <= k < effects.len() && #[trigger] effects[k]
                    == Effect::Discard(now.mapping->0.spec_range())
        }
    }) by {
        let now = after.inner.extents.extents@[slot];
        let mid = middle.inner.extents.extents@[slot];
        if now.clean && now.mapping is Some {
            if middle.inner.extents.extents@.contains_key(slot) && mid.clean && mid.mapping
                == now.mapping {
                let was = before.inner.extents.extents@[slot];
                if !(before.inner.extents.extents@.contains_key(slot) && was.clean && was.mapping
                    == now.mapping) {
                    let k = choose|k: int|
                        old_effects.len() <= k < half.len() && #[trigger] half[k]
                            == Effect::Discard(now.mapping->0.spec_range());
                    assert(effects[k] == half[k]);
                }
            } else {
                let k = choose|k: int|
                    half.len() <= k < effects.len() && #[trigger] effects[k] == Effect::Discard(
                        now.mapping->0.spec_range(),
                    );
                assert(old_effects.len() <= k);
            }
        }
    }
}

/// A run that loses a block without any effect, then a settled step.
pub proof fn lemma_spares_after_free(
    before: Heap,
    middle: Heap,
    after: Heap,
    slot: u32,
    old_effects: Seq<Effect>,
    effects: Seq<Effect>,
    discards: bool,
)
    requires
        middle.inner.extents == before.inner.extents,
        before.inner.runs.runs@.contains_key(slot),
        middle.inner.runs.runs@ == before.inner.runs.runs@.insert(
            slot,
            middle.inner.runs.runs@[slot],
        ),
        middle.inner.runs.runs@[slot].base == before.inner.runs.runs@[slot].base,
        forall|addr: int| #[trigger] middle.holds(addr) ==> before.holds(addr),
        settled(middle, after),
        spares(middle, after, old_effects, effects, discards, None),
    ensures
        spares(before, after, old_effects, effects, discards, None),
{
    reveal(spares);
    reveal(settled);
    assert forall|k: int| old_effects.len() <= k < effects.len() implies gives_up(
        before,
        after,
        #[trigger] effects[k],
    ) by {
        let range = touched(effects[k]);
        assert(gives_up(middle, after, effects[k]));
        if from_run(middle, after, range) {
            let at = choose|at: u32| #[trigger]
                middle.inner.runs.runs@.contains_key(at) && range
                    == middle.inner.runs.runs@[at].spec_range() && run_cleared(middle, after, at);
            assert(before.inner.runs.runs@.contains_key(at));
            assert(run_settled(middle, after, at));
            assert forall|addr: int| #[trigger] after.inner.runs.runs@[at].holds(addr) implies
                !before.inner.runs.runs@[at].holds(addr) by {
                assert(middle.inner.runs.runs@[at].holds(addr));
            }
            assert(run_cleared(before, after, at));
        }
    }
    assert forall|slot: u32|
        #![trigger before.inner.extents.extents@.contains_key(slot)]
        #![trigger after.inner.extents.extents@.contains_key(slot)]
        ({
            let was = before.inner.extents.extents@[slot];
            let now = after.inner.extents.extents@[slot];
            before.inner.extents.extents@.contains_key(slot) && was.state
                == ExtentState::Allocated && after.holds(was.base as int)
                ==> after.inner.extents.extents@.contains_key(slot) && now.state
                == ExtentState::Allocated && now.base == was.base && now.len == was.len
                && now.mapping == was.mapping
        }) by {
        assert(middle.inner.extents.extents@.contains_key(slot)
            == before.inner.extents.extents@.contains_key(slot));
    }
}

/// A step on one run that leaves its blocks alone: no effect, or its payload dropped
/// when it holds nothing.
pub proof fn lemma_run_step(
    before: Heap,
    after: Heap,
    slot: u32,
    old_effects: Seq<Effect>,
    effects: Seq<Effect>,
    discards: bool,
)
    requires
        after.inner.extents == before.inner.extents,
        after.inner.runs.only(before.inner.runs, slot),
        after.inner.runs.runs@[slot].base == before.inner.runs.runs@[slot].base,
        forall|addr: int| #[trigger]
            after.inner.runs.runs@[slot].holds(addr) == before.inner.runs.runs@[slot].holds(addr),
        forall|addr: int| #[trigger] after.holds(addr) == before.holds(addr),
        effects == old_effects || (effects == old_effects.push(
            Effect::Discard(before.inner.runs.runs@[slot].spec_range()),
        ) && after.inner.runs.runs@[slot].bump == 0),
    ensures
        settled(before, after),
        spares(before, after, old_effects, effects, discards, None),
{
    reveal(spares);
    reveal(settled);
    assert forall|at: u32|
        #![trigger before.inner.runs.runs@.contains_key(at)]
        #![trigger after.inner.runs.runs@.contains_key(at)]
        before.inner.runs.runs@.contains_key(at) == after.inner.runs.runs@.contains_key(at) && (
        before.inner.runs.runs@.contains_key(at) ==> run_settled(before, after, at)) by {
        if at != slot && before.inner.runs.runs@.contains_key(at) {
            assert(after.inner.runs.runs@[at] == before.inner.runs.runs@[at]);
        }
    }
    assert(old_effects.is_prefix_of(effects)) by {
        assert(effects.take(old_effects.len() as int) =~= old_effects);
    }
    assert forall|k: int| old_effects.len() <= k < effects.len() implies gives_up(
        before,
        after,
        #[trigger] effects[k],
    ) by {
        assert(before.inner.runs.runs@.contains_key(slot));
        assert(run_cleared(before, after, slot));
        assert(from_run(before, after, touched(effects[k])));
    }
}

/// Releasing one extent touches its own mapping only.
pub proof fn lemma_extent_step(
    before: Heap,
    after: Heap,
    slot: u32,
    old_effects: Seq<Effect>,
    effects: Seq<Effect>,
    discards: bool,
)
    requires
        after.inner.runs == before.inner.runs,
        before.inner.extents.extents@.contains_key(slot),
        before.inner.extents.extents@[slot].mapping is Some,
        after.inner.extents.extents@.contains_key(slot),
        after.inner.extents.extents@[slot].state == ExtentState::Free,
        after.inner.extents.others_same(before.inner.extents, slot),
        after.inner.extents.extents@[slot].mapping is Some ==> after.inner.extents.extents@[slot].mapping
            == before.inner.extents.extents@[slot].mapping,
        after.inner.extents.extents@[slot].clean && after.inner.extents.extents@[slot].mapping is Some
            ==> discards && effects == old_effects.push(
            Effect::Discard(before.inner.extents.extents@[slot].mapping->0.spec_range()),
        ),
        before.inner.extents.extents@[slot].state == ExtentState::Allocated ==> !after.holds(
            before.inner.extents.extents@[slot].base as int,
        ),
        ({
            let range = before.inner.extents.extents@[slot].mapping->0.spec_range();
            effects == old_effects || effects == old_effects.push(Effect::Discard(range))
                || effects == old_effects.push(Effect::Unmap(range))
        }),
    ensures
        spares(before, after, old_effects, effects, discards, None),
        before.inner.extents.extents@[slot].state != ExtentState::Allocated && (forall|addr: int|
         #[trigger]
            after.holds(addr) == before.holds(addr)) ==> settled(before, after),
{
    reveal(spares);
    reveal(settled);
    assert(old_effects.is_prefix_of(effects)) by {
        assert(effects.take(old_effects.len() as int) =~= old_effects);
    }
    assert forall|k: int| old_effects.len() <= k < effects.len() implies gives_up(
        before,
        after,
        #[trigger] effects[k],
    ) by {
        assert(before.inner.extents.extents@.contains_key(slot));
        assert(from_extent(before, after, touched(effects[k])));
    }
    assert forall|at: u32|
        #![trigger before.inner.extents.extents@.contains_key(at)]
        #![trigger after.inner.extents.extents@.contains_key(at)]
        ({
            let was = before.inner.extents.extents@[at];
            let now = after.inner.extents.extents@[at];
            before.inner.extents.extents@.contains_key(at) && was.state
                == ExtentState::Allocated && after.holds(was.base as int)
                ==> after.inner.extents.extents@.contains_key(at) && now.state
                == ExtentState::Allocated && now.base == was.base && now.len == was.len
                && now.mapping == was.mapping
        }) by {
        if at != slot {
            assert(after.inner.extents.extents@.contains_key(at)
                == before.inner.extents.extents@.contains_key(at));
        }
    }
    assert forall|at: u32| #[trigger] after.inner.extents.extents@.contains_key(at) implies ({
        let now = after.inner.extents.extents@[at];
        let was = before.inner.extents.extents@[at];
        now.clean && now.mapping is Some ==> {
            ||| before.inner.extents.extents@.contains_key(at) && was.clean && was.mapping
                == now.mapping
            ||| discards && exists|k: int|
                old_effects.len() <= k < effects.len() && #[trigger] effects[k]
                    == Effect::Discard(now.mapping->0.spec_range())
        }
    }) by {
        if at == slot {
            let now = after.inner.extents.extents@[at];
            if now.clean && now.mapping is Some {
                assert(effects[old_effects.len() as int] == Effect::Discard(
                    now.mapping->0.spec_range(),
                ));
            }
        } else {
            assert(after.inner.extents.extents@.contains_key(at)
                == before.inner.extents.extents@.contains_key(at));
        }
    }
    assert forall|at: u32|
        #![trigger before.inner.extents.extents@.contains_key(at)]
        #![trigger after.inner.extents.extents@.contains_key(at)]
        before.inner.extents.extents@.contains_key(at)
            == after.inner.extents.extents@.contains_key(at) && (
        before.inner.extents.extents@.contains_key(at) && before.inner.extents.extents@[slot].state
            != ExtentState::Allocated ==> extent_settled(
            before.inner.extents.extents@[at],
            after.inner.extents.extents@[at],
        )) by {
        if at != slot {
            assert(after.inner.extents.extents@.contains_key(at)
                == before.inner.extents.extents@.contains_key(at));
        }
    }
}

/// Relinking inboxes touches nothing.
pub proof fn lemma_same_parts(before: Heap, after: Heap, effects: Seq<Effect>, discards: bool)
    requires
        forall|slot: u32|
            #![trigger before.inner.runs.runs@.contains_key(slot)]
            #![trigger after.inner.runs.runs@.contains_key(slot)]
            before.inner.runs.runs@.contains_key(slot) == after.inner.runs.runs@.contains_key(slot)
                && (before.inner.runs.runs@.contains_key(slot) ==> after.inner.runs.runs@[slot] == (
            Run { link: after.inner.runs.runs@[slot].link, ..before.inner.runs.runs@[slot] })),
        forall|slot: u32|
            #![trigger before.inner.extents.extents@.contains_key(slot)]
            #![trigger after.inner.extents.extents@.contains_key(slot)]
            before.inner.extents.extents@.contains_key(slot)
                == after.inner.extents.extents@.contains_key(slot) && (
            before.inner.extents.extents@.contains_key(slot)
                ==> after.inner.extents.extents@[slot] == (Extent {
                link: after.inner.extents.extents@[slot].link,
                ..before.inner.extents.extents@[slot]
            })),
        forall|addr: int| #[trigger] after.holds(addr) == before.holds(addr),
    ensures
        settled(before, after),
        spares(before, after, effects, effects, discards, None),
{
    reveal(spares);
    reveal(settled);
    assert forall|at: u32|
        #![trigger before.inner.runs.runs@.contains_key(at)]
        #![trigger after.inner.runs.runs@.contains_key(at)]
        before.inner.runs.runs@.contains_key(at) == after.inner.runs.runs@.contains_key(at) && (
        before.inner.runs.runs@.contains_key(at) ==> run_settled(before, after, at)) by {
        if before.inner.runs.runs@.contains_key(at) {
            let was = before.inner.runs.runs@[at];
            let now = after.inner.runs.runs@[at];
            assert(now.same_shape(was));
            assert forall|i: int| #[trigger] now.held(i) == was.held(i) by {}
            now.lemma_same_holds(was);
        }
    }
}

/// Three settled steps in a row, the first without an effect.
pub proof fn lemma_flush_spares(
    before: Heap,
    queued: Heap,
    drained: Heap,
    after: Heap,
    old_effects: Seq<Effect>,
    half: Seq<Effect>,
    effects: Seq<Effect>,
    discards: bool,
)
    requires
        settled(before, queued),
        spares(before, queued, old_effects, old_effects, discards, None),
        settled(queued, drained),
        spares(queued, drained, old_effects, half, discards, None),
        settled(drained, after),
        spares(drained, after, half, effects, discards, None),
    ensures
        settled(before, after),
        spares(before, after, old_effects, effects, discards, None),
{
    lemma_spares_then(before, queued, drained, old_effects, old_effects, half, discards, None);
    lemma_settled_trans(before, queued, drained);
    lemma_spares_then(before, drained, after, old_effects, half, effects, discards, None);
    lemma_settled_trans(before, drained, after);
}

/// A step on runs without an effect.
pub proof fn lemma_no_effect(before: Heap, after: Heap, effects: Seq<Effect>, discards: bool)
    requires
        after.inner.extents == before.inner.extents,
    ensures
        spares(before, after, effects, effects, discards, None),
{
    reveal(spares);
}

/// Memory is zero wherever the heap counts on it: in clean mappings, and in the mapping
/// that the system offers.
pub open spec fn zero_ready(heap: Heap, grant: Option<Mapping>, bytes: spec_fn(int) -> u8) -> bool {
    &&& forall|slot: u32, addr: int|
        #![trigger heap.inner.extents.extents@.contains_key(slot), bytes(addr)]
        heap.inner.extents.extents@.contains_key(slot) && heap.inner.extents.extents@[slot].clean
            && heap.inner.extents.extents@[slot].mapping is Some
            && heap.inner.extents.extents@[slot].mapping->0.spec_range().has(addr) ==> bytes(addr)
            == 0
    &&& grant matches Some(mapping) ==> forall|addr: int|
        mapping.spec_range().has(addr) ==> #[trigger] bytes(addr) == 0
}

/// The effects leave `size` bytes from `ptr` zero.
pub open spec fn zeroed_block(
    heap: Heap,
    grant: Option<Mapping>,
    old_effects: Seq<Effect>,
    effects: Seq<Effect>,
    discards: bool,
    ptr: usize,
    size: usize,
) -> bool {
    forall|bytes: spec_fn(int) -> u8, addr: int| #[trigger]
        zero_ready(heap, grant, after_all(old_effects, discards, bytes)) && ptr <= addr < ptr + size
            ==> #[trigger] after_all(effects, discards, bytes)(addr) == 0
}

/// Effects one after the other.
pub proof fn lemma_after_all_then(
    first: Seq<Effect>,
    second: Seq<Effect>,
    discards: bool,
    bytes: spec_fn(int) -> u8,
)
    ensures
        after_all(first + second, discards, bytes) == after_all(
            second,
            discards,
            after_all(first, discards, bytes),
        ),
    decreases second.len(),
{
    if second.len() == 0 {
        assert(first + second =~= first);
    } else {
        assert((first + second).drop_last() =~= first + second.drop_last());
        assert((first + second).last() == second.last());
        lemma_after_all_then(first, second.drop_last(), discards, bytes);
    }
}

/// A zero byte stays zero while nothing is copied.
pub proof fn lemma_zero_stays(
    old_effects: Seq<Effect>,
    effects: Seq<Effect>,
    discards: bool,
    bytes: spec_fn(int) -> u8,
    addr: int,
)
    requires
        old_effects.is_prefix_of(effects),
        forall|k: int| old_effects.len() <= k < effects.len() ==> !(#[trigger] effects[k] is Copy),
        after_all(old_effects, discards, bytes)(addr) == 0,
    ensures
        after_all(effects, discards, bytes)(addr) == 0,
    decreases effects.len(),
{
    if effects.len() == old_effects.len() {
        assert(effects =~= old_effects);
    } else {
        let rest = effects.drop_last();
        assert(old_effects.is_prefix_of(rest)) by {
            assert(rest.take(old_effects.len() as int) =~= effects.take(old_effects.len() as int));
        }
        assert forall|k: int| old_effects.len() <= k < rest.len() implies !(#[trigger] rest[k]
            is Copy) by {
            assert(rest[k] == effects[k]);
        }
        lemma_zero_stays(old_effects, rest, discards, bytes, addr);
        assert(!(effects[effects.len() - 1] is Copy));
    }
}

/// A dropped byte is zero from then on, on a platform that zeroes dropped pages.
proof fn lemma_dropped(
    effects: Seq<Effect>,
    k: int,
    range: AddressRange,
    bytes: spec_fn(int) -> u8,
    addr: int,
)
    requires
        0 <= k < effects.len(),
        effects[k] == Effect::Discard(range),
        range.has(addr),
        forall|i: int| k < i < effects.len() ==> !(#[trigger] effects[i] is Copy),
    ensures
        after_all(effects, true, bytes)(addr) == 0,
{
    let done = effects.take(k + 1);
    assert(done.drop_last() =~= effects.take(k));
    assert(done.last() == effects[k]);
    assert(after_all(done, true, bytes)(addr) == 0);
    assert(done.is_prefix_of(effects));
    lemma_zero_stays(done, effects, true, bytes, addr);
}

/// Where a heap can count on zero bytes before a step, it can after it.
pub proof fn lemma_zero_ready(
    before: Heap,
    after: Heap,
    old_effects: Seq<Effect>,
    effects: Seq<Effect>,
    discards: bool,
    grant: Option<Mapping>,
    unused: Option<Mapping>,
    bytes: spec_fn(int) -> u8,
)
    requires
        spares(before, after, old_effects, effects, discards, unused),
        zero_ready(before, grant, after_all(old_effects, discards, bytes)),
    ensures
        zero_ready(after, grant, after_all(effects, discards, bytes)),
{
    reveal(spares);
    let now = after_all(effects, discards, bytes);
    let was = after_all(old_effects, discards, bytes);
    assert forall|k: int| old_effects.len() <= k < effects.len() implies !(#[trigger] effects[k]
        is Copy) by {
        assert(gives_up(before, after, effects[k]) || effects[k] is Unmap);
    }
    assert forall|slot: u32, addr: int|
        #![trigger after.inner.extents.extents@.contains_key(slot), now(addr)]
        after.inner.extents.extents@.contains_key(slot) && after.inner.extents.extents@[slot].clean
            && after.inner.extents.extents@[slot].mapping is Some
            && after.inner.extents.extents@[slot].mapping->0.spec_range().has(addr) implies now(addr)
        == 0 by {
        let extent = after.inner.extents.extents@[slot];
        let old_extent = before.inner.extents.extents@[slot];
        if before.inner.extents.extents@.contains_key(slot) && old_extent.clean
            && old_extent.mapping == extent.mapping {
            assert(was(addr) == 0);
            lemma_zero_stays(old_effects, effects, discards, bytes, addr);
        } else {
            let k = choose|k: int|
                old_effects.len() <= k < effects.len() && #[trigger] effects[k] == Effect::Discard(
                    extent.mapping->0.spec_range(),
                );
            lemma_dropped(effects, k, extent.mapping->0.spec_range(), bytes, addr);
        }
    }
    if let Some(mapping) = grant {
        assert forall|addr: int| mapping.spec_range().has(addr) implies #[trigger] now(addr)
            == 0 by {
            assert(was(addr) == 0);
            lemma_zero_stays(old_effects, effects, discards, bytes, addr);
        }
    }
}

/// Allocating in an extent slot touches no more than the mapping that the slot gets.
pub proof fn lemma_alloc_step(
    before: Heap,
    after: Heap,
    target: u32,
    spec: LayoutSpec,
    init: ExtentInit,
    got: Option<usize>,
    hit: bool,
    old_effects: Seq<Effect>,
    effects: Seq<Effect>,
    discards: bool,
    grant: Option<Mapping>,
)
    requires
        after.inner.runs == before.inner.runs,
        after.inner.extents.others_same(before.inner.extents, target),
        before.inner.extents.extents@.contains_key(target)
            ==> !before.inner.extents.extents@[target].live(),
        got matches Some(ptr) ==> allocated_at(after.inner.extents, target, ptr, spec)
            && after.inner.extents.extents@[target].wf(),
        got is Some && hit ==> before.inner.extents.extents@.contains_key(target)
            && before.inner.extents.extents@[target].mapping is Some
            && after.inner.extents.extents@[target].mapping
            == before.inner.extents.extents@[target].mapping && effects == old_effects + (if init
            == ExtentInit::Zeroed && !before.inner.extents.extents@[target].clean {
            before.inner.extents.extents@[target].zeroing(spec, got->0, discards)
        } else {
            Seq::<Effect>::empty()
        }),
        got is Some && !hit ==> after.inner.extents.extents@[target].mapping == grant && effects
            == old_effects,
        got is None ==> effects == old_effects || (grant is Some && effects == old_effects.push(
            Effect::Unmap(grant->0.spec_range()),
        )),
        got is None && after.inner.extents.extents@.contains_key(target)
            ==> after.inner.extents.extents@[target].mapping is None || (
        before.inner.extents.extents@.contains_key(target) && after.inner.extents.extents@[target]
            == before.inner.extents.extents@[target]),
    ensures
        spares(before, after, old_effects, effects, discards, grant),
        got is Some && init == ExtentInit::Zeroed ==> zeroed_block(
            before,
            grant,
            old_effects,
            effects,
            discards,
            got->0,
            spec.size,
        ),
{
    reveal(spares);
    let was = before.inner.extents.extents@[target];
    let now = after.inner.extents.extents@[target];
    assert(old_effects.is_prefix_of(effects)) by {
        assert(effects.take(old_effects.len() as int) =~= old_effects);
    }
    assert forall|k: int| old_effects.len() <= k < effects.len() implies gives_up(
        before,
        after,
        #[trigger] effects[k],
    ) || (grant matches Some(mapping) && effects[k] == Effect::Unmap(mapping.spec_range())) by {
        if got is Some {
            assert(before.inner.extents.extents@.contains_key(target));
            let steps = was.zeroing(spec, got->0, discards);
            assert(effects[k] == steps[k - old_effects.len()]);
            assert(from_extent(before, after, touched(effects[k])));
        }
    }
    assert forall|at: u32|
        #![trigger before.inner.extents.extents@.contains_key(at)]
        #![trigger after.inner.extents.extents@.contains_key(at)]
        ({
            let was = before.inner.extents.extents@[at];
            let now = after.inner.extents.extents@[at];
            before.inner.extents.extents@.contains_key(at) && was.state
                == ExtentState::Allocated && after.holds(was.base as int)
                ==> after.inner.extents.extents@.contains_key(at) && now.state
                == ExtentState::Allocated && now.base == was.base && now.len == was.len
                && now.mapping == was.mapping
        }) by {
        if at != target {
            assert(after.inner.extents.extents@.contains_key(at)
                == before.inner.extents.extents@.contains_key(at));
        }
    }
    assert forall|at: u32| #[trigger] after.inner.extents.extents@.contains_key(at) implies ({
        let now = after.inner.extents.extents@[at];
        let was = before.inner.extents.extents@[at];
        now.clean && now.mapping is Some ==> {
            ||| before.inner.extents.extents@.contains_key(at) && was.clean && was.mapping
                == now.mapping
            ||| discards && exists|k: int|
                old_effects.len() <= k < effects.len() && #[trigger] effects[k]
                    == Effect::Discard(now.mapping->0.spec_range())
        }
    }) by {
        if at != target {
            assert(after.inner.extents.extents@.contains_key(at)
                == before.inner.extents.extents@.contains_key(at));
        }
    }
    if got is Some && init == ExtentInit::Zeroed {
        let ptr = got->0;
        assert forall|bytes: spec_fn(int) -> u8, addr: int| #[trigger]
            zero_ready(before, grant, after_all(old_effects, discards, bytes)) && ptr <= addr < ptr
                + spec.size implies #[trigger] after_all(effects, discards, bytes)(addr) == 0 by {
            let half = after_all(old_effects, discards, bytes);
            if hit && !was.clean {
                let steps = was.zeroing(spec, ptr, discards);
                lemma_after_all_then(old_effects, steps, discards, bytes);
                law_zeroing_zeroes(was, spec, ptr, discards, half, addr);
            } else if hit {
                assert(effects =~= old_effects);
                assert(before.inner.extents.extents@.contains_key(target));
                assert(half(addr) == 0);
            } else {
                assert(now.mapping->0.spec_range().has(addr));
                assert(half(addr) == 0);
            }
        }
    }
}

/// What spares blocks without handing a grant back spares them anyway.
pub proof fn lemma_grant_ignored(
    before: Heap,
    after: Heap,
    old_effects: Seq<Effect>,
    effects: Seq<Effect>,
    discards: bool,
    grant: Option<Mapping>,
)
    requires
        spares(before, after, old_effects, effects, discards, None),
    ensures
        spares(before, after, old_effects, effects, discards, grant),
{
    reveal(spares);
}

/// A block zeroed after a settled step was zeroed.
pub proof fn lemma_zeroed_then(
    before: Heap,
    middle: Heap,
    old_effects: Seq<Effect>,
    half: Seq<Effect>,
    effects: Seq<Effect>,
    discards: bool,
    grant: Option<Mapping>,
    ptr: usize,
    size: usize,
)
    requires
        spares(before, middle, old_effects, half, discards, None),
        zeroed_block(middle, grant, half, effects, discards, ptr, size),
    ensures
        zeroed_block(before, grant, old_effects, effects, discards, ptr, size),
{
    assert forall|bytes: spec_fn(int) -> u8, addr: int| #[trigger]
        zero_ready(before, grant, after_all(old_effects, discards, bytes)) && ptr <= addr < ptr
            + size implies #[trigger] after_all(effects, discards, bytes)(addr) == 0 by {
        lemma_zero_ready(before, middle, old_effects, half, discards, grant, None, bytes);
    }
}

/// Effects concern runs and extents only.
pub proof fn lemma_spares_inner(
    before: Heap,
    before_too: Heap,
    after: Heap,
    after_too: Heap,
    old_effects: Seq<Effect>,
    effects: Seq<Effect>,
    discards: bool,
)
    requires
        spares(before, after, old_effects, effects, discards, None),
        before_too.inner == before.inner,
        after_too.inner == after.inner,
    ensures
        spares(before_too, after_too, old_effects, effects, discards, None),
{
    reveal(spares);
    assert forall|k: int| old_effects.len() <= k < effects.len() implies gives_up(
        before_too,
        after_too,
        #[trigger] effects[k],
    ) by {
        assert(gives_up(before, after, effects[k]));
        let range = touched(effects[k]);
        if from_run(before, after, range) {
            let slot = choose|slot: u32| #[trigger]
                before.inner.runs.runs@.contains_key(slot) && range
                    == before.inner.runs.runs@[slot].spec_range() && run_cleared(
                    before,
                    after,
                    slot,
                );
            assert(before_too.inner.runs.runs@.contains_key(slot));
            assert(run_cleared(before_too, after_too, slot));
        }
    }
    assert forall|addr: int| #[trigger] after_too.holds(addr) == after.holds(addr) by {}
}

/// A step that has no effect of its own and marks no mapping clean.
pub open spec fn quiet(before: Heap, after: Heap) -> bool {
    &&& extents_stay(before, after)
    &&& forall|slot: u32| #[trigger]
        after.inner.extents.extents@.contains_key(slot)
            && after.inner.extents.extents@[slot].clean
            ==> before.inner.extents.extents@.contains_key(slot)
            && before.inner.extents.extents@[slot].clean
            && before.inner.extents.extents@[slot].mapping
            == after.inner.extents.extents@[slot].mapping
}

pub proof fn lemma_quiet(before: Heap, after: Heap, effects: Seq<Effect>, discards: bool)
    requires
        quiet(before, after),
    ensures
        spares(before, after, effects, effects, discards, None),
{
    reveal(spares);
}

/// New effects of a step copy nothing.
pub proof fn lemma_spares_copies_nothing(
    before: Heap,
    after: Heap,
    old_effects: Seq<Effect>,
    effects: Seq<Effect>,
    discards: bool,
    unused: Option<Mapping>,
)
    requires
        spares(before, after, old_effects, effects, discards, unused),
    ensures
        old_effects.is_prefix_of(effects),
        forall|k: int| old_effects.len() <= k < effects.len() ==> !(#[trigger] effects[k] is Copy),
{
    reveal(spares);
    assert forall|k: int| old_effects.len() <= k < effects.len() implies !(#[trigger] effects[k]
        is Copy) by {
        assert(gives_up(before, after, effects[k]) || effects[k] is Unmap);
    }
}

} // verus!
