//! Runs by id. An id is reserved before its run is made.

use vstd::prelude::*;

use crate::extent::slot_store::{Slot, SlotStore, SlotStoreError};
use crate::heap::run::{Run, RunId};

verus! {

#[derive(Clone, Copy, Debug, PartialEq, Eq, Structural)]
pub enum ArenaError {
    InvalidReservation,
    Occupied,
}

/// What a refused slot means for an arena.
pub open spec fn arena_error_of(error: SlotStoreError) -> ArenaError {
    match error {
        SlotStoreError::InvalidIndex => ArenaError::InvalidReservation,
        SlotStoreError::NotReserved => ArenaError::InvalidReservation,
        SlotStoreError::Occupied => ArenaError::Occupied,
    }
}

impl From<SlotStoreError> for ArenaError {
    fn from(error: SlotStoreError) -> (converted: Self) {
        match error {
            SlotStoreError::InvalidIndex => ArenaError::InvalidReservation,
            SlotStoreError::NotReserved => ArenaError::InvalidReservation,
            SlotStoreError::Occupied => ArenaError::Occupied,
        }
    }
}

impl vstd::std_specs::convert::FromSpecImpl<SlotStoreError> for ArenaError {
    open spec fn obeys_from_spec() -> bool {
        true
    }

    open spec fn from_spec(error: SlotStoreError) -> Self {
        arena_error_of(error)
    }
}

/// An id that waits for its run.
#[derive(Clone, Copy, Debug, PartialEq, Eq, Structural)]
pub struct ArenaReservation {
    pub id: RunId,
}

impl ArenaReservation {
    pub fn id(self) -> (id: RunId)
        ensures
            id == self.id,
    {
        self.id
    }
}

/// Runs by id.
pub struct RunArena {
    pub slots: SlotStore<Run>,
}

impl RunArena {
    /// Every run stands under its own id.
    pub open spec fn wf(self) -> bool {
        &&& self.slots.wf()
        &&& forall|i: int|
            0 <= i < self.slots.slots@.len() ==> ((#[trigger] self.slots.slots@[i]) matches Slot::Held(
                run,
            ) ==> run.wf() && run.id.spec_index() == i)
    }

    pub open spec fn holds(self, id: RunId) -> bool {
        id.index > 0 && self.slots.holds(id.spec_index())
    }

    pub open spec fn run(self, id: RunId) -> Run {
        self.slots.value(id.spec_index())
    }

    pub fn new(capacity: u32) -> (arena: Self)
        ensures
            arena.wf(),
            arena.slots.capacity == capacity,
            arena.slots.slots@.len() == 0,
    {
        Self { slots: SlotStore::new(capacity) }
    }

    /// Reserve an id.
    pub fn reserve(&mut self) -> (reservation: Option<ArenaReservation>)
        requires
            old(self).wf(),
        ensures
            final(self).wf(),
            reservation is Some == old(self).slots.next() is Some,
            match reservation {
                Some(reservation) => reservation.id.index > 0 && reservation.id.spec_index()
                    == old(self).slots.next()->0 && final(self).slots.reserved(
                    reservation.id.spec_index(),
                ) && !old(self).slots.holds(reservation.id.spec_index())
                    && final(self).slots.others_same(
                    old(self).slots,
                    reservation.id.spec_index(),
                ),
                None => final(self).slots == old(self).slots,
            },
    {
        let ghost before = self.slots;
        match self.slots.reserve() {
            Some(index) => {
                proof {
                    assert forall|i: int|
                        0 <= i < self.slots.slots@.len() implies ((
                    #[trigger] self.slots.slots@[i]) matches Slot::Held(run) ==> run.wf()
                        && run.id.spec_index() == i) by {
                        if i != index {
                            assert(self.slots.slots@[i] == before.slots@[i]);
                        }
                    }
                    assert(index < self.slots.capacity);
                }
                match RunId::from_index(index as u32) {
                    Some(id) => Some(ArenaReservation { id }),
                    None => None,
                }
            },
            None => None,
        }
    }

    /// Give a reserved id back.
    pub fn release(&mut self, reservation: ArenaReservation)
        requires
            old(self).wf(),
            reservation.id.index > 0,
        ensures
            final(self).wf(),
            ({
                let index = reservation.id.spec_index();
                if old(self).slots.reserved(index) {
                    final(self).slots.others_same(old(self).slots, index)
                        && final(self).slots.slots@.len() == old(self).slots.slots@.len()
                        && final(self).slots.slots@[index] is Vacant
                        && final(self).slots.released@ == old(self).slots.released@.push(
                        index as usize,
                    )
                } else {
                    final(self).slots == old(self).slots
                }
            }),
    {
        let ghost before = self.slots;
        let index: usize = reservation.id.index() as usize;
        let _released = self.slots.release(index);
        proof {
            assert forall|i: int| 0 <= i < self.slots.slots@.len() implies ((
            #[trigger] self.slots.slots@[i]) matches Slot::Held(run) ==> run.wf()
                && run.id.spec_index() == i) by {
                if i != index {
                    assert(self.slots.slots@[i] == before.slots@[i]);
                } else {
                    assert(before.slots@[i] == before.slots@[index as int]);
                }
            }
        }
    }

    /// Fill a reserved id. A run with another id gives the reservation back.
    pub fn insert(&mut self, reservation: ArenaReservation, run: Run) -> (inserted: Result<
        RunId,
        ArenaError,
    >)
        requires
            old(self).wf(),
            reservation.id.index > 0,
            run.wf(),
        ensures
            final(self).wf(),
            ({
                let index = reservation.id.spec_index();
                if reservation.id != run.id {
                    inserted == Err::<RunId, ArenaError>(
                        ArenaError::InvalidReservation,
                    ) && (old(self).slots.reserved(index) ==> final(self).slots.slots@[index] is Vacant
                        && final(self).slots.released@ == old(self).slots.released@.push(
                        index as usize,
                    ) && final(self).slots.others_same(old(self).slots, index)) && (
                    !old(self).slots.reserved(index) ==> final(self).slots == old(self).slots)
                } else if old(self).slots.reserved(index) {
                    inserted == Ok::<RunId, ArenaError>(reservation.id)
                        && final(self).slots.others_same(old(self).slots, index)
                        && final(self).slots.slots@.len() == old(self).slots.slots@.len()
                        && final(self).slots.slots@[index] == Slot::Held(run)
                        && final(self).slots.released == old(self).slots.released
                } else {
                    inserted == Err::<RunId, ArenaError>(
                        if old(self).slots.holds(index) {
                            ArenaError::Occupied
                        } else {
                            ArenaError::InvalidReservation
                        },
                    ) && final(self).slots == old(self).slots
                }
            }),
    {
        let ghost before = self.slots;
        if reservation.id != run.id {
            self.release(reservation);
            return Err(ArenaError::InvalidReservation);
        }
        let index: usize = reservation.id.index() as usize;
        match self.slots.insert(index, run) {
            Ok(()) => {
                proof {
                    assert forall|i: int|
                        0 <= i < self.slots.slots@.len() implies ((
                    #[trigger] self.slots.slots@[i]) matches Slot::Held(run) ==> run.wf()
                        && run.id.spec_index() == i) by {
                        if i != index {
                            assert(self.slots.slots@[i] == before.slots@[i]);
                        }
                    }
                }
                Ok(reservation.id)
            },
            Err((error, _run)) => Err(ArenaError::from(error)),
        }
    }

    /// The run with an id.
    pub fn get(&self, id: RunId) -> (run: Option<&Run>)
        requires
            id.index > 0,
        ensures
            match run {
                Some(run) => self.holds(id) && *run == self.run(id),
                None => !self.holds(id),
            },
    {
        self.slots.get(id.index() as usize)
    }

    /// The run with an id, to work on. It keeps its id.
    pub fn get_mut(&mut self, id: RunId) -> (run: Option<&mut Run>)
        requires
            old(self).wf(),
            id.index > 0,
        ensures
            run is Some == old(self).holds(id),
            match run {
                Some(run) => *run == old(self).run(id) && final(self).slots.capacity == old(self).slots.capacity && final(self).slots.released == old(self).slots.released
                    && final(self).slots.slots@ == old(self).slots.slots@.update(
                    id.spec_index(),
                    Slot::Held(*final(run)),
                ) && (final(run).wf() && final(run).id == id ==> final(self).wf()),
                None => *final(self) == *old(self),
            },
    {
        let index: usize = id.index() as usize;
        if self.slots.get(index).is_none() {
            return None;
        }
        match &mut self.slots.slots[index] {
            Slot::Held(run) => Some(run),
            _ => None,
        }
    }

    /// Take the run with an id out and give the id back.
    pub fn remove(&mut self, id: RunId) -> (run: Option<Run>)
        requires
            old(self).wf(),
            id.index > 0,
        ensures
            final(self).wf(),
            run is Some == old(self).holds(id),
            match run {
                Some(run) => run == old(self).run(id) && run.wf() && run.id == id
                    && final(self).slots.others_same(old(self).slots, id.spec_index())
                    && final(self).slots.slots@.len() == old(self).slots.slots@.len()
                    && final(self).slots.slots@[id.spec_index()] is Vacant
                    && final(self).slots.released@ == old(self).slots.released@.push(
                    id.spec_index() as usize,
                ),
                None => final(self).slots == old(self).slots,
            },
    {
        let ghost before = self.slots;
        let index: usize = id.index() as usize;
        proof {
            if self.slots.holds(index as int) {
                assert(before.slots@[index as int] is Held);
            }
        }
        let removed = self.slots.remove(index);
        proof {
            assert forall|i: int| 0 <= i < self.slots.slots@.len() implies ((
            #[trigger] self.slots.slots@[i]) matches Slot::Held(run) ==> run.wf()
                && run.id.spec_index() == i) by {
                if i != index {
                    assert(self.slots.slots@[i] == before.slots@[i]);
                }
            }
        }
        removed
    }
}

} // verus!
