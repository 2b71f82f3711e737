use vstd::prelude::*;

verus! {

/// Identity of one heap incarnation: a one-based slot and a nonzero generation.
#[derive(Clone, Copy, Debug, PartialEq, Eq, Structural)]
pub struct HeapId {
    pub slot: u32,
    pub generation: u32,
}

impl HeapId {
    /// Both halves are nonzero.
    pub open spec fn wf(self) -> bool {
        self.slot > 0 && self.generation > 0
    }

    /// The zero-based slot.
    pub open spec fn spec_index(self) -> int {
        self.slot - 1
    }

    /// The two halves in one word: the slot below, the generation above it.
    pub open spec fn spec_word(self) -> int {
        self.slot + self.generation * 0x1_0000_0000
    }

    /// The id of the zero-based `slot`. `None` when the one-based slot does not fit.
    pub fn new(slot: u32, generation: u32) -> (id: Option<Self>)
        requires
            generation > 0,
        ensures
            slot < u32::MAX ==> id == Some(HeapId { slot: (slot + 1) as u32, generation }),
            slot == u32::MAX ==> id is None,
    {
        match slot.checked_add(1) {
            Some(one_based) => Some(Self { slot: one_based, generation }),
            None => None,
        }
    }

    /// The id of a one-based slot.
    pub fn from_slot(slot: u32, generation: u32) -> (id: Self)
        requires
            slot > 0,
            generation > 0,
        ensures
            id == (HeapId { slot, generation }),
    {
        Self { slot, generation }
    }

    pub fn index(self) -> (index: u32)
        requires
            self.wf(),
        ensures
            index == self.spec_index(),
    {
        self.slot - 1
    }

    pub fn slot(self) -> (slot: u32)
        ensures
            slot == self.slot,
    {
        self.slot
    }

    pub fn generation(self) -> (generation: u32)
        ensures
            generation == self.generation,
    {
        self.generation
    }

    /// One-word identity: `slot | generation << 32`.
    pub fn word(self) -> (word: u64)
        ensures
            word == self.spec_word(),
    {
        let slot: u64 = self.slot as u64;
        let generation: u64 = self.generation as u64;
        assert((slot | (generation << 32)) == slot + generation * 0x1_0000_0000) by (bit_vector)
            requires
                slot <= 0xffff_ffff,
                generation <= 0xffff_ffff,
        ;
        slot | (generation << 32)
    }

    /// The heap in the first slot is the root heap.
    pub fn is_root(self) -> (root: bool)
        requires
            self.wf(),
        ensures
            root == (self.spec_index() == 0),
    {
        self.index() == 0
    }
}

/// Two ids are equal exactly when their words are.
pub proof fn law_word_is_identity(left: HeapId, right: HeapId)
    ensures
        left == right <==> left.spec_word() == right.spec_word(),
{
}

} // verus!
