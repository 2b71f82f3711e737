//! Extents by id. An id is reserved before its extent is made.

use vstd::prelude::*;

use crate::extent::slot_store::{Slot, SlotStore, SlotStoreError};
use crate::heap::extent::{Extent, ExtentError, ExtentId};
use crate::layout::LayoutSpec;

verus! {

#[derive(Clone, Copy, Debug, PartialEq, Eq, Structural)]
pub enum ExtentTableError {
    InvalidReservation,
    Occupied,
}

/// What a refused slot means for a table.
pub open spec fn table_error_of(error: SlotStoreError) -> ExtentTableError {
    match error {
        SlotStoreError::InvalidIndex => ExtentTableError::InvalidReservation,
        SlotStoreError::NotReserved => ExtentTableError::InvalidReservation,
        SlotStoreError::Occupied => ExtentTableError::Occupied,
    }
}

impl From<SlotStoreError> for ExtentTableError {
    fn from(error: SlotStoreError) -> (converted: Self) {
        match error {
            SlotStoreError::InvalidIndex => ExtentTableError::InvalidReservation,
            SlotStoreError::NotReserved => ExtentTableError::InvalidReservation,
            SlotStoreError::Occupied => ExtentTableError::Occupied,
        }
    }
}

impl vstd::std_specs::convert::FromSpecImpl<SlotStoreError> for ExtentTableError {
    open spec fn obeys_from_spec() -> bool {
        true
    }

    open spec fn from_spec(error: SlotStoreError) -> Self {
        table_error_of(error)
    }
}

/// An id that waits for its extent.
#[derive(Clone, Copy, Debug, PartialEq, Eq, Structural)]
pub struct ExtentReservation {
    pub id: ExtentId,
}

impl ExtentReservation {
    pub fn id(self) -> (id: ExtentId)
        ensures
            id == self.id,
    {
        self.id
    }
}

/// Extents by id.
pub struct ExtentTable {
    pub slots: SlotStore<Extent>,
}

impl ExtentTable {
    /// Every extent stands under its own id.
    pub open spec fn wf(self) -> bool {
        &&& self.slots.wf()
        &&& forall|i: int|
            0 <= i < self.slots.slots@.len() ==> ((#[trigger] self.slots.slots@[i]) matches Slot::Held(
                extent,
            ) ==> extent.wf() && extent.id.spec_index() == i)
    }

    pub open spec fn holds(self, id: ExtentId) -> bool {
        id.index > 0 && self.slots.holds(id.spec_index())
    }

    pub open spec fn extent(self, id: ExtentId) -> Extent {
        self.slots.value(id.spec_index())
    }

    pub fn new(capacity: u32) -> (table: Self)
        ensures
            table.wf(),
            table.slots.capacity == capacity,
            table.slots.slots@.len() == 0,
    {
        Self { slots: SlotStore::new(capacity) }
    }

    /// Reserve an id.
    pub fn reserve(&mut self) -> (reservation: Option<ExtentReservation>)
        requires
            old(self).wf(),
        ensures
            final(self).wf(),
            reservation is Some == old(self).slots.next() is Some,
            match reservation {
                Some(reservation) => reservation.id.index > 0 && reservation.id.spec_index()
                    == old(self).slots.next()->0 && final(self).slots.reserved(
                    reservation.id.spec_index(),
                ) && !old(self).slots.holds(reservation.id.spec_index())
                    && final(self).slots.others_same(
                    old(self).slots,
                    reservation.id.spec_index(),
                ),
                None => final(self).slots == old(self).slots,
            },
    {
        let ghost before = self.slots;
        match self.slots.reserve() {
            Some(index) => {
                proof {
                    assert forall|i: int|
                        0 <= i < self.slots.slots@.len() implies ((
                    #[trigger] self.slots.slots@[i]) matches Slot::Held(extent) ==> extent.wf()
                        && extent.id.spec_index() == i) by {
                        if i != index {
                            assert(self.slots.slots@[i] == before.slots@[i]);
                        }
                    }
                    assert(index < self.slots.capacity);
                }
                match ExtentId::from_index(index as u32) {
                    Some(id) => Some(ExtentReservation { id }),
                    None => None,
                }
            },
            None => None,
        }
    }

    /// Give a reserved id back.
    pub fn release(&mut self, reservation: ExtentReservation)
        requires
            old(self).wf(),
            reservation.id.index > 0,
        ensures
            final(self).wf(),
            ({
                let index = reservation.id.spec_index();
                if old(self).slots.reserved(index) {
                    final(self).slots.others_same(old(self).slots, index)
                        && final(self).slots.slots@.len() == old(self).slots.slots@.len()
                        && final(self).slots.slots@[index] is Vacant
                        && final(self).slots.released@ == old(self).slots.released@.push(
                        index as usize,
                    )
                } else {
                    final(self).slots == old(self).slots
                }
            }),
    {
        let ghost before = self.slots;
        let index: usize = reservation.id.index() as usize;
        let _released = self.slots.release(index);
        proof {
            assert forall|i: int| 0 <= i < self.slots.slots@.len() implies ((
            #[trigger] self.slots.slots@[i]) matches Slot::Held(extent) ==> extent.wf()
                && extent.id.spec_index() == i) by {
                if i != index {
                    assert(self.slots.slots@[i] == before.slots@[i]);
                } else {
                    assert(before.slots@[i] == before.slots@[index as int]);
                }
            }
        }
    }

    /// Fill a reserved id. An extent with another id gives the reservation back.
    pub fn insert(&mut self, reservation: ExtentReservation, extent: Extent) -> (inserted: Result<
        ExtentId,
        ExtentTableError,
    >)
        requires
            old(self).wf(),
            reservation.id.index > 0,
            extent.wf(),
        ensures
            final(self).wf(),
            ({
                let index = reservation.id.spec_index();
                if reservation.id != extent.id {
                    inserted == Err::<ExtentId, ExtentTableError>(
                        ExtentTableError::InvalidReservation,
                    ) && (old(self).slots.reserved(index) ==> final(self).slots.slots@[index] is Vacant
                        && final(self).slots.released@ == old(self).slots.released@.push(
                        index as usize,
                    ) && final(self).slots.others_same(old(self).slots, index)) && (
                    !old(self).slots.reserved(index) ==> final(self).slots == old(self).slots)
                } else if old(self).slots.reserved(index) {
                    inserted == Ok::<ExtentId, ExtentTableError>(reservation.id)
                        && final(self).slots.others_same(old(self).slots, index)
                        && final(self).slots.slots@.len() == old(self).slots.slots@.len()
                        && final(self).slots.slots@[index] == Slot::Held(extent)
                        && final(self).slots.released == old(self).slots.released
                } else {
                    inserted == Err::<ExtentId, ExtentTableError>(
                        if old(self).slots.holds(index) {
                            ExtentTableError::Occupied
                        } else {
                            ExtentTableError::InvalidReservation
                        },
                    ) && final(self).slots == old(self).slots
                }
            }),
    {
        let ghost before = self.slots;
        if reservation.id != extent.id {
            self.release(reservation);
            return Err(ExtentTableError::InvalidReservation);
        }
        let index: usize = reservation.id.index() as usize;
        match self.slots.insert(index, extent) {
            Ok(()) => {
                proof {
                    assert forall|i: int|
                        0 <= i < self.slots.slots@.len() implies ((
                    #[trigger] self.slots.slots@[i]) matches Slot::Held(extent) ==> extent.wf()
                        && extent.id.spec_index() == i) by {
                        if i != index {
                            assert(self.slots.slots@[i] == before.slots@[i]);
                        }
                    }
                }
                Ok(reservation.id)
            },
            Err((error, _extent)) => Err(ExtentTableError::from(error)),
        }
    }

    /// The extent with an id.
    pub fn get(&self, id: ExtentId) -> (extent: Option<&Extent>)
        requires
            id.index > 0,
        ensures
            match extent {
                Some(extent) => self.holds(id) && *extent == self.extent(id),
                None => !self.holds(id),
            },
    {
        self.slots.get(id.index() as usize)
    }

    /// Serve another layout from the extent with an id, if its mapping holds it.
    pub fn resize(&mut self, id: ExtentId, ptr: usize, spec: LayoutSpec) -> (resized: Option<
        Result<bool, ExtentError>,
    >)
        requires
            old(self).wf(),
            id.index > 0,
            spec.wf(),
        ensures
            final(self).wf(),
            resized is Some == old(self).holds(id),
            resized matches Some(answer) ==> answer == old(self).extent(id).resized(ptr, spec)
                && final(self).slots.others_same(old(self).slots, id.spec_index())
                && final(self).slots.slots@.len() == old(self).slots.slots@.len()
                && final(self).slots.released == old(self).slots.released
                && final(self).slots.slots@[id.spec_index()] == Slot::Held(
                if answer == Ok::<bool, ExtentError>(true) {
                    Extent { len: spec.size, ..old(self).extent(id) }
                } else {
                    old(self).extent(id)
                },
            ),
            resized is None ==> final(self).slots == old(self).slots,
    {
        let ghost before = self.slots;
        let index: usize = id.index() as usize;
        if self.slots.get(index).is_none() {
            return None;
        }
        let mut slot: Slot<Extent> = Slot::Reserved;
        std::mem::swap(&mut slot, &mut self.slots.slots[index]);
        match slot {
            Slot::Held(extent) => {
                let mut extent = extent;
                assert(before.slots@[index as int] is Held);
                let answer = extent.resize_in_place(ptr, spec);
                self.slots.slots.set(index, Slot::Held(extent));
                proof {
                    let slots = self.slots.slots@;
                    assert(slots =~= before.slots@.update(index as int, Slot::Held(extent)));
                    assert forall|i: int|
                        0 <= i < slots.len() && (
                        #[trigger] slots[i]) is Vacant implies self.slots.released@.contains(
                        i as usize,
                    ) by {
                        assert(before.slots@[i] is Vacant);
                    }
                    assert forall|i: int| 0 <= i < slots.len() implies ((
                    #[trigger] slots[i]) matches Slot::Held(extent) ==> extent.wf()
                        && extent.id.spec_index() == i) by {
                        if i != index {
                            assert(slots[i] == before.slots@[i]);
                        }
                    }
                }
                Some(answer)
            },
            _ => None,
        }
    }

    /// Take the extent with an id out and give the id back.
    pub fn remove(&mut self, id: ExtentId) -> (extent: Option<Extent>)
        requires
            old(self).wf(),
            id.index > 0,
        ensures
            final(self).wf(),
            extent is Some == old(self).holds(id),
            match extent {
                Some(extent) => extent == old(self).extent(id) && extent.wf() && extent.id == id
                    && final(self).slots.others_same(old(self).slots, id.spec_index())
                    && final(self).slots.slots@.len() == old(self).slots.slots@.len()
                    && final(self).slots.slots@[id.spec_index()] is Vacant
                    && final(self).slots.released@ == old(self).slots.released@.push(
                    id.spec_index() as usize,
                ),
                None => final(self).slots == old(self).slots,
            },
    {
        let ghost before = self.slots;
        let index: usize = id.index() as usize;
        proof {
            if self.slots.holds(index as int) {
                assert(before.slots@[index as int] is Held);
            }
        }
        let removed = self.slots.remove(index);
        proof {
            assert forall|i: int| 0 <= i < self.slots.slots@.len() implies ((
            #[trigger] self.slots.slots@[i]) matches Slot::Held(extent) ==> extent.wf()
                && extent.id.spec_index() == i) by {
                if i != index {
                    assert(self.slots.slots@[i] == before.slots@[i]);
                }
            }
        }
        removed
    }
}

} // verus!
