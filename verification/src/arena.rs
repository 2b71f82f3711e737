//! Index-addressed slots.
//!
//! Exclusive holes: [`Arena::vacant`], [`Arena::insert`], [`Arena::remove`].
//! Append: [`Arena::push`]. An index stays with its value until it is removed.

use vstd::prelude::*;

verus! {

/// Bytes of slot storage per growth step.
pub const CHUNK_BYTES: usize = 262144;

pub const MAX_CHUNKS: usize = 256;

/// End of the list of vacant slots.
pub const VACANT_END: u32 = u32::MAX;

pub enum Slot<T> {
    Vacant { next: u32 },
    Occupied(T),
}

impl<T> Slot<T> {
    pub fn get(&self) -> (value: Option<&T>)
        ensures
            value == match *self {
                Slot::Occupied(value) => Some(&value),
                Slot::Vacant { .. } => None,
            },
    {
        match self {
            Slot::Occupied(value) => Some(value),
            Slot::Vacant { .. } => None,
        }
    }
}

pub struct Arena<T> {
    pub slots: Vec<Slot<T>>,
    pub vacant_head: u32,
    /// The vacant slots, most recently vacated first.
    pub holes: Ghost<Seq<u32>>,
}

/// Slots in one chunk: at least one, however large a slot is.
pub open spec fn per_chunk(slot_size: nat) -> int {
    let size = if slot_size == 0 {
        1
    } else {
        slot_size as int
    };
    let fits = CHUNK_BYTES as int / size;
    if fits < 1 {
        1
    } else {
        fits
    }
}

/// The number of slots that the chunks can hold.
pub open spec fn max_slots<T>() -> int {
    MAX_CHUNKS * per_chunk(vstd::layout::size_of::<Slot<T>>())
}

impl<T> View for Arena<T> {
    type V = Map<u32, T>;

    /// The occupied slots and their values.
    open spec fn view(&self) -> Map<u32, T> {
        Map::new(
            |i: u32| i < self.slots@.len() && self.slots@[i as int] is Occupied,
            |i: u32| self.slots@[i as int]->Occupied_0,
        )
    }
}

impl<T> Arena<T> {
    /// The index that stands before `holes[at..]`.
    pub open spec fn hole(self, at: int) -> u32 {
        if at < self.holes@.len() {
            self.holes@[at]
        } else {
            VACANT_END
        }
    }

    /// The vacant slots are exactly the linked ones, each once, and the slots fit
    /// the chunks.
    pub closed spec fn wf(self) -> bool {
        &&& self.slots@.len() <= max_slots::<T>()
        &&& self.slots@.len() < u32::MAX
        &&& self.vacant_head == self.hole(0)
        &&& self.holes@.no_duplicates()
        &&& forall|k: int|
            0 <= k < self.holes@.len() ==> #[trigger] self.holes@[k] < self.slots@.len()
                && self.slots@[self.holes@[k] as int] == (Slot::<T>::Vacant {
                next: self.hole(k + 1),
            })
        &&& forall|i: int|
            0 <= i < self.slots@.len() && #[trigger] self.slots@[i] is Vacant
                ==> self.holes@.contains(i as u32)
    }

    /// The index that the next insert takes: the newest hole, or one past the end.
    pub open spec fn next_index(self) -> int {
        if self.holes@.len() > 0 {
            self.holes@[0] as int
        } else {
            self.slots@.len() as int
        }
    }

    /// A slot can still be taken.
    pub open spec fn has_room(self) -> bool {
        self.holes@.len() > 0 || (self.slots@.len() < max_slots::<T>() && self.slots@.len()
            < u32::MAX - 1)
    }

    pub fn new() -> (arena: Self)
        ensures
            arena.wf(),
            arena@ == Map::<u32, T>::empty(),
            arena.slots@.len() == 0,
            arena.holes@.len() == 0,
    {
        proof {
            lemma_max_slots::<T>();
        }
        let arena = Self { slots: Vec::new(), vacant_head: VACANT_END, holes: Ghost(Seq::empty()) };
        assert(arena@ =~= Map::<u32, T>::empty());
        arena
    }

    pub fn slots_per_chunk() -> (slots: u32)
        ensures
            slots == per_chunk(vstd::layout::size_of::<Slot<T>>()),
    {
        let size: usize = core::mem::size_of::<Slot<T>>();
        let size: usize = if size == 0 {
            1
        } else {
            size
        };
        let fits: usize = CHUNK_BYTES / size;
        proof {
            assert(CHUNK_BYTES as int / size as int <= CHUNK_BYTES) by (nonlinear_arith)
                requires
                    size >= 1,
            ;
        }
        if fits < 1 {
            1
        } else {
            fits as u32
        }
    }

    /// Chunk and offset of `index`. `None` past the last chunk.
    pub fn chunk_of(index: u32) -> (place: Option<(usize, usize)>)
        ensures
            place is Some <==> index < max_slots::<T>(),
            place matches Some(place) ==> place.0 * per_chunk(vstd::layout::size_of::<Slot<T>>())
                + place.1 == index && place.1 < per_chunk(vstd::layout::size_of::<Slot<T>>()),
    {
        proof {
            lemma_max_slots::<T>();
        }
        let per: u32 = Self::slots_per_chunk();
        let chunk: usize = (index / per) as usize;
        let offset: usize = (index % per) as usize;
        proof {
            vstd::arithmetic::div_mod::lemma_fundamental_div_mod(index as int, per as int);
            assert(chunk * per == per * chunk) by (nonlinear_arith);
            if chunk < MAX_CHUNKS {
                assert(chunk * per + offset < MAX_CHUNKS * per) by (nonlinear_arith)
                    requires
                        chunk < MAX_CHUNKS,
                        offset < per,
                ;
            } else {
                assert(chunk * per >= MAX_CHUNKS * per) by (nonlinear_arith)
                    requires
                        chunk >= MAX_CHUNKS,
                        per >= 0,
                ;
            }
        }
        if chunk < MAX_CHUNKS {
            Some((chunk, offset))
        } else {
            None
        }
    }

    /// Number of indices ever used.
    pub fn published(&self) -> (len: u32)
        requires
            self.wf(),
        ensures
            len == self.slots@.len(),
    {
        self.slots.len() as u32
    }

    pub fn get(&self, index: u32) -> (value: Option<&T>)
        ensures
            value == if self@.contains_key(index) {
                Some(&self@[index])
            } else {
                None
            },
    {
        let at: usize = index as usize;
        if at < self.slots.len() {
            self.slots[at].get()
        } else {
            None
        }
    }

    pub fn get_mut(&mut self, index: u32) -> (value: Option<&mut T>)
        requires
            old(self).wf(),
        ensures
            value is Some <==> old(self)@.contains_key(index),
            value matches Some(value) ==> *value == old(self)@[index] && final(self)@ == old(self)@.insert(index, *final(value)) && final(self).wf() && final(self).holes == old(self).holes && final(self).slots@.len() == old(self).slots@.len(),
            value is None ==> *final(self) == *old(self),
    {
        let at: usize = index as usize;
        if at >= self.slots.len() {
            return None;
        }
        let occupied = match &self.slots[at] {
            Slot::Occupied(_) => true,
            Slot::Vacant { .. } => false,
        };
        if !occupied {
            return None;
        }
        let ghost before = *self;
        match &mut self.slots[at] {
            Slot::Occupied(value) => {
                proof {
                    assert forall|k: int| 0 <= k < before.holes@.len() implies before.holes@[k]
                        != index by {}
                }
                assert(after_borrow(self).slots@ =~= before.slots@.update(
                    at as int,
                    Slot::Occupied(*final(value)),
                ));
                assert(after_borrow(self)@ =~= before@.insert(index, *final(value)));
                Some(value)
            },
            Slot::Vacant { .. } => None,
        }
    }

    /// The value at `index`, if there is one.
    pub open spec fn found(self, index: u32) -> Option<T> {
        if self@.contains_key(index) {
            Some(self@[index])
        } else {
            None
        }
    }

    /// `value` was put at the index past the end; nothing was done without one.
    pub open spec fn pushed(self, before: Self, value: Option<T>) -> bool {
        match value {
            None => self == before,
            Some(value) => {
                let index = before.slots@.len() as u32;
                &&& !before@.contains_key(index)
                &&& self@ == before@.insert(index, value)
                &&& self.slots@.len() == before.slots@.len() + 1
                &&& self.holes == before.holes
            },
        }
    }

    /// A pushed value is found at the index that was assigned, every earlier index keeps
    /// what it had, and the next push sees the next index; without a value it sees the
    /// same one.
    pub proof fn law_pushed_value_is_found(self, before: Self, value: Option<T>)
        requires
            before.wf(),
            self.pushed(before, value),
        ensures
            self.found(before.slots@.len() as u32) == value,
            forall|index: u32|
                index < before.slots@.len() ==> #[trigger] self.found(index) == before.found(index),
            self.slots@.len() == before.slots@.len() + if value is Some {
                1int
            } else {
                0int
            },
    {
    }

    /// Initialize the next index. `init` sees the assigned index; `None` does not
    /// consume it.
    pub fn push(&mut self, init: impl FnOnce(u32) -> Option<T>) -> (index: Option<u32>)
        requires
            old(self).wf(),
            old(self).slots@.len() < u32::MAX - 1 && old(self).slots@.len() < max_slots::<T>()
                ==> init.requires((old(self).slots@.len() as u32,)),
        ensures
            final(self).wf(),
            final(self).holes == old(self).holes,
            old(self).slots@.len() >= u32::MAX - 1 || old(self).slots@.len() >= max_slots::<T>()
                ==> index is None,
            index is None ==> final(self).pushed(*old(self), None),
            index matches Some(index) ==> index == old(self).slots@.len() && init.ensures(
                (index,),
                Some(final(self)@[index]),
            ) && final(self).pushed(*old(self), Some(final(self)@[index])),
            index is None && old(self).slots@.len() < u32::MAX - 1 && old(self).slots@.len()
                < max_slots::<T>() ==> init.ensures((old(self).slots@.len() as u32,), None),
    {
        let index: u32 = self.slots.len() as u32;
        if index >= u32::MAX - 1 {
            return None;
        }
        match Self::chunk_of(index) {
            None => None,
            Some(_) => match init(index) {
                None => None,
                Some(value) => {
                    let ghost before = *self;
                    self.slots.push(Slot::Occupied(value));
                    proof {
                        assert(self@ =~= before@.insert(index, value));
                        assert(self@[index] == value);
                        assert forall|k: int| 0 <= k < self.holes@.len() implies #[trigger] self.holes@[k]
                            < self.slots@.len() && self.slots@[self.holes@[k] as int] == (Slot::<
                            T,
                        >::Vacant { next: self.hole(k + 1) }) by {
                            assert(before.holes@[k] < before.slots@.len());
                        }
                    }
                    Some(index)
                },
            },
        }
    }

    /// Next vacant index. Does not occupy; a second call returns the same index
    /// until [`Self::insert`].
    pub fn vacant(&self) -> (index: Option<u32>)
        requires
            self.wf(),
        ensures
            self.has_room() ==> index == Some(self.next_index() as u32),
            !self.has_room() ==> index is None,
            index matches Some(index) ==> !self@.contains_key(index) && index < u32::MAX - 1,
    {
        if self.vacant_head != VACANT_END {
            assert(self.holes@.len() > 0);
            return Some(self.vacant_head);
        }
        assert(self.holes@.len() == 0) by {
            if self.holes@.len() > 0 {
                assert(self.holes@[0] < self.slots@.len());
            }
        }
        let next: u32 = self.slots.len() as u32;
        if next >= u32::MAX - 1 {
            return None;
        }
        match Self::chunk_of(next) {
            Some(_) => Some(next),
            None => None,
        }
    }

    /// Occupy `index` from [`Self::vacant`]. Any other index is rejected.
    pub fn insert(&mut self, index: u32, value: T) -> (inserted: bool)
        requires
            old(self).wf(),
        ensures
            final(self).wf(),
            inserted == (old(self).has_room() && index == old(self).next_index()),
            !inserted ==> *final(self) == *old(self),
            inserted ==> !old(self)@.contains_key(index) && final(self)@ == old(self)@.insert(
                index,
                value,
            ),
            inserted ==> final(self).holes@ == if old(self).holes@.len() > 0 {
                old(self).holes@.skip(1)
            } else {
                old(self).holes@
            },
            inserted ==> final(self).slots@.len() == if old(self).holes@.len() > 0 {
                old(self).slots@.len()
            } else {
                old(self).slots@.len() + 1
            },
    {
        let ghost before = *self;
        if self.vacant_head != VACANT_END {
            assert(self.holes@.len() > 0);
            if index != self.vacant_head {
                return false;
            }
            let at: usize = index as usize;
            assert(self.holes@[0] == index);
            let next: u32 = match &self.slots[at] {
                Slot::Vacant { next } => *next,
                Slot::Occupied(_) => VACANT_END,
            };
            self.slots[at] = Slot::Occupied(value);
            self.vacant_head = next;
            proof {
                self.holes@ = before.holes@.skip(1);
                assert(self@ =~= before@.insert(index, value));
                assert forall|k: int| 0 <= k < self.holes@.len() implies #[trigger] self.holes@[k]
                    < self.slots@.len() && self.slots@[self.holes@[k] as int] == (Slot::<
                    T,
                >::Vacant { next: self.hole(k + 1) }) by {
                    assert(self.holes@[k] == before.holes@[k + 1]);
                    assert(before.holes@[k + 1] != before.holes@[0]);
                    assert(self.hole(k + 1) == before.hole(k + 2));
                }
                assert forall|i: int|
                    0 <= i < self.slots@.len()
                        && #[trigger] self.slots@[i] is Vacant implies self.holes@.contains(
                    i as u32,
                ) by {
                    assert(i != at);
                    assert(before.slots@[i] is Vacant);
                    let k = choose|k: int|
                        0 <= k < before.holes@.len() && before.holes@[k] == i as u32;
                    assert(self.holes@[k - 1] == i as u32);
                }
            }
            return true;
        }
        assert(self.holes@.len() == 0) by {
            if self.holes@.len() > 0 {
                assert(self.holes@[0] < self.slots@.len());
            }
        }
        let next: u32 = self.slots.len() as u32;
        if index != next || next >= u32::MAX - 1 {
            return false;
        }
        match Self::chunk_of(index) {
            None => false,
            Some(_) => {
                self.slots.push(Slot::Occupied(value));
                proof {
                    assert(self@ =~= before@.insert(index, value));
                }
                true
            },
        }
    }

    /// Vacate `index`. `None` when it holds nothing.
    pub fn remove(&mut self, index: u32) -> (value: Option<T>)
        requires
            old(self).wf(),
        ensures
            final(self).wf(),
            value is Some <==> old(self)@.contains_key(index),
            value is None ==> *final(self) == *old(self),
            value matches Some(value) ==> value == old(self)@[index] && final(self)@ == old(self)@.remove(index) && final(self).holes@ == seq![index] + old(self).holes@
                && final(self).slots@.len() == old(self).slots@.len(),
    {
        let at: usize = index as usize;
        if at >= self.slots.len() {
            return None;
        }
        let ghost before = *self;
        let occupied = match &self.slots[at] {
            Slot::Occupied(_) => true,
            Slot::Vacant { .. } => false,
        };
        if !occupied {
            return None;
        }
        let mut slot: Slot<T> = Slot::Vacant { next: self.vacant_head };
        std::mem::swap(&mut slot, &mut self.slots[at]);
        self.vacant_head = index;
        proof {
            self.holes@ = seq![index] + before.holes@;
            assert(self@ =~= before@.remove(index));
            assert forall|k: int| 0 <= k < before.holes@.len() implies before.holes@[k]
                != index by {}
            assert forall|k: int| 0 <= k < self.holes@.len() implies #[trigger] self.holes@[k]
                < self.slots@.len() && self.slots@[self.holes@[k] as int] == (Slot::<
                T,
            >::Vacant { next: self.hole(k + 1) }) by {
                if k > 0 {
                    assert(self.holes@[k] == before.holes@[k - 1]);
                    assert(self.hole(k + 1) == before.hole(k));
                } else {
                    assert(self.hole(1) == before.hole(0));
                }
            }
            assert forall|i: int|
                0 <= i < self.slots@.len()
                    && #[trigger] self.slots@[i] is Vacant implies self.holes@.contains(
                i as u32,
            ) by {
                if i == at {
                    assert(self.holes@[0] == i as u32);
                } else {
                    assert(before.slots@[i] is Vacant);
                    let k = choose|k: int|
                        0 <= k < before.holes@.len() && before.holes@[k] == i as u32;
                    assert(self.holes@[k + 1] == i as u32);
                }
            }
        }
        match slot {
            Slot::Occupied(value) => Some(value),
            Slot::Vacant { .. } => None,
        }
    }

    /// The occupied indices, in order.
    pub fn occupied(&self) -> (indices: Vec<u32>)
        requires
            self.wf(),
        ensures
            forall|i: int|
                0 <= i < indices@.len() ==> self@.contains_key(#[trigger] indices@[i]),
            forall|index: u32|
                #[trigger] self@.contains_key(index) ==> indices@.contains(index),
            forall|i: int, j: int| 0 <= i < j < indices@.len() ==> indices@[i] < indices@[j],
    {
        let mut indices: Vec<u32> = Vec::new();
        let mut at: usize = 0;
        while at < self.slots.len()
            invariant
                self.slots@.len() < u32::MAX,
                at <= self.slots@.len(),
                forall|i: int|
                    0 <= i < indices@.len() ==> #[trigger] indices@[i] < at
                        && self.slots@[indices@[i] as int] is Occupied,
                forall|i: int|
                    0 <= i < at && #[trigger] self.slots@[i] is Occupied ==> indices@.contains(
                        i as u32,
                    ),
                forall|i: int, j: int| 0 <= i < j < indices@.len() ==> indices@[i] < indices@[j],
            decreases self.slots@.len() - at,
        {
            let ghost before = indices@;
            match &self.slots[at] {
                Slot::Occupied(_) => {
                    indices.push(at as u32);
                    proof {
                        assert(indices@[before.len() as int] == at as u32);
                        assert forall|i: int|
                            0 <= i < at + 1
                                && #[trigger] self.slots@[i] is Occupied implies indices@.contains(
                            i as u32,
                        ) by {
                            if i < at {
                                let k = choose|k: int|
                                    0 <= k < before.len() && before[k] == i as u32;
                                assert(indices@[k] == i as u32);
                            }
                        }
                    }
                },
                Slot::Vacant { .. } => {},
            }
            at = at + 1;
        }
        indices
    }
}

impl<T> Arena<T> {
    /// Indices fit, and every occupied one is below the number used.
    pub proof fn lemma_bounds(self)
        requires
            self.wf(),
        ensures
            self.slots@.len() < u32::MAX,
            forall|index: u32| #[trigger] self@.contains_key(index) ==> index < self.slots@.len(),
            !self@.contains_key(self.next_index() as u32),
    {
    }

    /// The next index is in range.
    pub proof fn lemma_next_bound(self)
        requires
            self.wf(),
        ensures
            0 <= self.next_index() < u32::MAX,
    {
    }
}

/// A chunk holds between one slot and its bytes' worth of them.
proof fn lemma_max_slots<T>()
    ensures
        1 <= per_chunk(vstd::layout::size_of::<Slot<T>>()) <= CHUNK_BYTES,
        MAX_CHUNKS <= max_slots::<T>(),
{
    let size = vstd::layout::size_of::<Slot<T>>();
    let at_least = if size == 0 {
        1
    } else {
        size as int
    };
    assert(CHUNK_BYTES as int / at_least <= CHUNK_BYTES) by (nonlinear_arith)
        requires
            at_least >= 1,
    ;
    let per = per_chunk(size);
    assert(MAX_CHUNKS * per >= MAX_CHUNKS) by (nonlinear_arith)
        requires
            per >= 1,
    ;
}

} // verus!
