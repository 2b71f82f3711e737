//! Numbered slots that are reserved before they are filled.

use vstd::prelude::*;

verus! {

/// A slot.
pub enum Slot<T> {
    Vacant,
    Reserved,
    Held(T),
}

#[derive(Clone, Copy, Debug, PartialEq, Eq, Structural)]
pub enum SlotStoreError {
    InvalidIndex,
    NotReserved,
    Occupied,
}

/// Up to `capacity` slots. Slots that were never used are handed out first, then the one
/// that was given back last.
pub struct SlotStore<T> {
    pub capacity: u32,
    pub slots: Vec<Slot<T>>,
    pub released: Vec<usize>,
}

/// `released` are the vacant slots, once each.
pub open spec fn vacant<T>(slots: Seq<Slot<T>>, released: Seq<usize>) -> bool {
    &&& released.no_duplicates()
    &&& forall|k: int|
        0 <= k < released.len() ==> #[trigger] released[k] < slots.len()
            && slots[released[k] as int] is Vacant
    &&& forall|i: int|
        0 <= i < slots.len() && (#[trigger] slots[i]) is Vacant ==> released.contains(i as usize)
}

impl<T> SlotStore<T> {
    pub open spec fn wf(self) -> bool {
        &&& self.slots@.len() <= self.capacity
        &&& vacant(self.slots@, self.released@)
    }

    /// A value is held at `index`.
    pub open spec fn holds(self, index: int) -> bool {
        0 <= index < self.slots@.len() && self.slots@[index] is Held
    }

    /// The value at `index`.
    pub open spec fn value(self, index: int) -> T {
        self.slots@[index]->Held_0
    }

    /// The slot that is handed out next.
    pub open spec fn next(self) -> Option<usize> {
        if self.slots@.len() < self.capacity {
            Some(self.slots@.len() as usize)
        } else if self.released@.len() > 0 {
            Some(self.released@.last())
        } else {
            None
        }
    }

    /// `index` is reserved.
    pub open spec fn reserved(self, index: int) -> bool {
        0 <= index < self.slots@.len() && self.slots@[index] is Reserved
    }

    /// Every slot but `index` is as in `before`.
    pub open spec fn others_same(self, before: Self, index: int) -> bool {
        &&& self.capacity == before.capacity
        &&& self.slots@.len() == before.slots@.len() || (index == before.slots@.len()
            && self.slots@.len() == before.slots@.len() + 1)
        &&& forall|i: int|
            #![trigger self.slots@[i]]
            #![trigger before.slots@[i]]
            0 <= i < before.slots@.len() && i != index ==> self.slots@[i] == before.slots@[i]
    }

    /// Two changes of one slot are one change of that slot.
    pub proof fn lemma_others_same_trans(self, middle: Self, before: Self, index: int)
        requires
            self.others_same(middle, index),
            middle.others_same(before, index),
        ensures
            self.others_same(before, index),
    {
        assert forall|i: int| 0 <= i < before.slots@.len() && i != index implies self.slots@[i]
            == before.slots@[i] by {
            assert(middle.slots@[i] == before.slots@[i]);
        }
    }

    pub fn new(capacity: u32) -> (store: Self)
        ensures
            store.wf(),
            store.capacity == capacity,
            store.slots@.len() == 0,
    {
        Self { capacity, slots: Vec::new(), released: Vec::new() }
    }

    /// Reserve a slot.
    pub fn reserve(&mut self) -> (index: Option<usize>)
        requires
            old(self).wf(),
        ensures
            final(self).wf(),
            index == old(self).next(),
            match index {
                Some(index) => final(self).reserved(index as int) && !old(self).holds(index as int)
                    && !old(self).reserved(index as int) && final(self).others_same(
                    *old(self),
                    index as int,
                ),
                None => *final(self) == *old(self),
            },
    {
        let ghost before = *self;
        let len: usize = self.slots.len();
        if (len as u64) < self.capacity as u64 {
            self.slots.push(Slot::Reserved);
            proof {
                assert(vacant(self.slots@, self.released@)) by {
                    assert forall|i: int|
                        0 <= i < self.slots@.len() && (
                        #[trigger] self.slots@[i]) is Vacant implies self.released@.contains(
                        i as usize,
                    ) by {
                        assert(before.slots@[i] is Vacant);
                    }
                }
            }
            return Some(len);
        }
        if self.released.len() == 0 {
            return None;
        }
        match self.released.pop() {
            Some(index) => {
                proof {
                    assert(before.released@[before.released@.len() - 1] == index);
                }
                self.slots.set(index, Slot::Reserved);
                proof {
                    lemma_taken(before.slots@, before.released@, Slot::Reserved);
                    assert(before.slots@[index as int] is Vacant);
                    assert(self.slots@ =~= before.slots@.update(index as int, Slot::Reserved));
                    assert(self.others_same(before, index as int));
                }
                Some(index)
            },
            None => None,
        }
    }

    /// Give a reserved slot back.
    pub fn release(&mut self, index: usize) -> (released: Result<(), SlotStoreError>)
        requires
            old(self).wf(),
        ensures
            final(self).wf(),
            ({
                let expected: Result<(), SlotStoreError> = if index >= old(self).slots@.len() {
                    Err(SlotStoreError::InvalidIndex)
                } else {
                    match old(self).slots@[index as int] {
                        Slot::Vacant => Err(SlotStoreError::NotReserved),
                        Slot::Reserved => Ok(()),
                        Slot::Held(_) => Err(SlotStoreError::Occupied),
                    }
                };
                &&& released == expected
                &&& released is Err ==> *final(self) == *old(self)
                &&& released is Ok ==> final(self).others_same(*old(self), index as int)
                    && final(self).slots@.len() == old(self).slots@.len()
                    && final(self).slots@[index as int] is Vacant && final(self).released@
                    == old(self).released@.push(index)
            }),
    {
        let ghost before = *self;
        if index >= self.slots.len() {
            return Err(SlotStoreError::InvalidIndex);
        }
        match &self.slots[index] {
            Slot::Vacant => return Err(SlotStoreError::NotReserved),
            Slot::Held(_) => return Err(SlotStoreError::Occupied),
            Slot::Reserved => {},
        }
        self.slots.set(index, Slot::Vacant);
        self.released.push(index);
        proof {
            lemma_given(before.slots@, before.released@, index);
        }
        Ok(())
    }

    /// Fill a reserved slot. The value comes back when the slot is not reserved.
    pub fn insert(&mut self, index: usize, value: T) -> (inserted: Result<
        (),
        (SlotStoreError, T),
    >)
        requires
            old(self).wf(),
        ensures
            final(self).wf(),
            inserted is Ok == old(self).reserved(index as int),
            match inserted {
                Ok(()) => final(self).others_same(*old(self), index as int)
                    && final(self).slots@.len() == old(self).slots@.len()
                    && final(self).slots@[index as int] == Slot::Held(value)
                    && final(self).released == old(self).released,
                Err((error, back)) => back == value && *final(self) == *old(self) && error == (
                if index >= old(self).slots@.len() {
                    SlotStoreError::InvalidIndex
                } else if old(self).slots@[index as int] is Vacant {
                    SlotStoreError::NotReserved
                } else {
                    SlotStoreError::Occupied
                }),
            },
    {
        let ghost before = *self;
        if index >= self.slots.len() {
            return Err((SlotStoreError::InvalidIndex, value));
        }
        match &self.slots[index] {
            Slot::Vacant => return Err((SlotStoreError::NotReserved, value)),
            Slot::Held(_) => return Err((SlotStoreError::Occupied, value)),
            Slot::Reserved => {},
        }
        self.slots.set(index, Slot::Held(value));
        proof {
            assert forall|i: int|
                0 <= i < self.slots@.len() && (
                #[trigger] self.slots@[i]) is Vacant implies self.released@.contains(
                i as usize,
            ) by {
                assert(before.slots@[i] is Vacant);
            }
        }
        Ok(())
    }

    /// The value at `index`.
    pub fn get(&self, index: usize) -> (value: Option<&T>)
        ensures
            match value {
                Some(value) => self.holds(index as int) && *value == self.value(index as int),
                None => !self.holds(index as int),
            },
    {
        if index >= self.slots.len() {
            return None;
        }
        match &self.slots[index] {
            Slot::Held(value) => Some(value),
            _ => None,
        }
    }

    /// Take the value at `index` out and give the slot back.
    pub fn remove(&mut self, index: usize) -> (value: Option<T>)
        requires
            old(self).wf(),
        ensures
            final(self).wf(),
            value is Some == old(self).holds(index as int),
            match value {
                Some(value) => value == old(self).value(index as int) && final(self).others_same(
                    *old(self),
                    index as int,
                ) && final(self).slots@.len() == old(self).slots@.len()
                    && final(self).slots@[index as int] is Vacant && final(self).released@
                    == old(self).released@.push(index),
                None => *final(self) == *old(self),
            },
    {
        let ghost before = *self;
        if index >= self.slots.len() {
            return None;
        }
        match &self.slots[index] {
            Slot::Held(_) => {},
            _ => return None,
        }
        let mut taken = Slot::Vacant;
        std::mem::swap(&mut taken, &mut self.slots[index]);
        self.released.push(index);
        proof {
            assert(self.slots@ =~= before.slots@.update(index as int, Slot::Vacant));
            lemma_given(before.slots@, before.released@, index);
        }
        match taken {
            Slot::Held(value) => Some(value),
            _ => None,
        }
    }
}

/// A slot that is given back is the only new vacant one.
proof fn lemma_given<T>(slots: Seq<Slot<T>>, released: Seq<usize>, index: usize)
    requires
        vacant(slots, released),
        index < slots.len() <= usize::MAX,
        !(slots[index as int] is Vacant),
    ensures
        vacant(slots.update(index as int, Slot::Vacant), released.push(index)),
{
    let after = slots.update(index as int, Slot::Vacant);
    let list = released.push(index);
    assert forall|i: int| 0 <= i < after.len() && (#[trigger] after[i]) is Vacant implies list.contains(
        i as usize,
    ) by {
        if i == index {
            assert(list[released.len() as int] == index);
        } else {
            assert(slots[i] is Vacant);
            let k = released.index_of(i as usize);
            assert(list[k] == i as usize);
        }
    }
    assert forall|a: int, b: int| 0 <= a < list.len() && 0 <= b < list.len() && a != b implies list[a]
        != list[b] by {
        if a < released.len() && b < released.len() {
            assert(released[a] != released[b]);
        } else if a < released.len() {
            assert(slots[released[a] as int] is Vacant);
        } else if b < released.len() {
            assert(slots[released[b] as int] is Vacant);
        }
    }
}

/// Without the last one, the list holds the other vacant slots.
proof fn lemma_taken<T>(slots: Seq<Slot<T>>, released: Seq<usize>, slot: Slot<T>)
    requires
        vacant(slots, released),
        released.len() > 0,
        slots.len() <= usize::MAX,
        !(slot is Vacant),
    ensures
        vacant(slots.update(released.last() as int, slot), released.drop_last()),
{
    let index = released.last();
    let after = slots.update(index as int, slot);
    let list = released.drop_last();
    assert forall|i: int| 0 <= i < after.len() && (#[trigger] after[i]) is Vacant implies list.contains(
        i as usize,
    ) by {
        assert(slots[i] is Vacant);
        let k = released.index_of(i as usize);
        assert(released[k] == i as usize);
        assert(list[k] == i as usize);
    }
    assert forall|k: int| 0 <= k < list.len() implies #[trigger] list[k] < after.len()
        && after[list[k] as int] is Vacant by {
        assert(released[k] != released[released.len() - 1]);
    }
}

} // verus!
