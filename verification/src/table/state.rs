//! Packed lifecycle of a heap slot: generation, mode, retired flag, and publisher leases.

use vstd::prelude::*;

use crate::heap::error::HeapError;
use crate::heap::id::HeapId;

verus! {

pub const MAX_PUBLISHERS: u32 = 0x1fff_ffff;

#[derive(Clone, Copy, Debug, PartialEq, Eq, Structural)]
pub enum HeapMode {
    Free,
    Active,
    Draining,
}

/// The bits of a mode.
pub open spec fn mode_bits(mode: HeapMode) -> int {
    match mode {
        HeapMode::Free => 0,
        HeapMode::Active => 1,
        HeapMode::Draining => 2,
    }
}

impl HeapMode {
    pub fn raw(self) -> (raw: u8)
        ensures
            raw == mode_bits(self),
    {
        match self {
            HeapMode::Free => 0,
            HeapMode::Active => 1,
            HeapMode::Draining => 2,
        }
    }

    pub fn from_raw(raw: u8) -> (mode: Option<Self>)
        ensures
            raw < 3 ==> mode is Some && mode_bits(mode->0) == raw,
            raw >= 3 ==> mode is None,
    {
        if raw == 0 {
            Some(HeapMode::Free)
        } else if raw == 1 {
            Some(HeapMode::Active)
        } else if raw == 2 {
            Some(HeapMode::Draining)
        } else {
            None
        }
    }
}

/// Decoded [`SlotState`] word.
#[derive(Clone, Copy, Debug, PartialEq, Eq, Structural)]
pub struct SlotStateSnapshot {
    pub generation: u32,
    pub mode: HeapMode,
    pub retired: bool,
    pub publishers: u32,
}

/// One or zero.
pub open spec fn flag_bit(flag: bool) -> int {
    if flag {
        1
    } else {
        0
    }
}

impl SlotStateSnapshot {
    pub open spec fn wf(self) -> bool {
        self.generation > 0 && self.publishers <= MAX_PUBLISHERS
    }

    /// The word that stands for this snapshot, from the lowest bit up.
    pub open spec fn packed(self) -> int {
        self.generation + mode_bits(self.mode) * 0x1_0000_0000 + flag_bit(self.retired)
            * 0x4_0000_0000 + self.publishers * 0x8_0000_0000
    }

    /// `id` names the heap that this slot holds.
    pub open spec fn is(self, id: HeapId) -> bool {
        !self.retired && self.generation == id.generation
    }
}

/// Packed lifecycle word.
pub struct SlotState {
    pub word: u64,
}

/// Words stand for one snapshot each.
pub proof fn law_word_has_one_snapshot(left: SlotStateSnapshot, right: SlotStateSnapshot)
    requires
        left.wf(),
        right.wf(),
        left.packed() == right.packed(),
    ensures
        left == right,
{
    lemma_parts(left, left.packed());
    lemma_parts(right, right.packed());
}

proof fn lemma_parts(snap: SlotStateSnapshot, word: int)
    requires
        snap.wf(),
        word == snap.packed(),
    ensures
        word % 0x1_0000_0000 == snap.generation,
        (word / 0x1_0000_0000) % 4 == mode_bits(snap.mode),
        (word / 0x4_0000_0000) % 2 == flag_bit(snap.retired),
        word / 0x8_0000_0000 == snap.publishers,
{
    let high = mode_bits(snap.mode) + flag_bit(snap.retired) * 4 + snap.publishers * 8;
    assert(word == high * 0x1_0000_0000 + snap.generation);
    assert(word / 0x1_0000_0000 == high);
    assert(word % 0x1_0000_0000 == snap.generation);
    assert(high % 4 == mode_bits(snap.mode));
    assert(word / 0x4_0000_0000 == high / 4);
    assert((high / 4) % 2 == flag_bit(snap.retired));
    assert(high / 8 == snap.publishers);
}

impl SlotState {
    pub open spec fn wf(self) -> bool {
        exists|snap: SlotStateSnapshot| snap.wf() && #[trigger] snap.packed() == self.word
    }

    pub open spec fn view(self) -> SlotStateSnapshot {
        choose|snap: SlotStateSnapshot| snap.wf() && #[trigger] snap.packed() == self.word
    }

    proof fn lemma_view(self, snap: SlotStateSnapshot)
        requires
            snap.wf(),
            snap.packed() == self.word,
        ensures
            self.wf(),
            self@ == snap,
    {
        law_word_has_one_snapshot(snap, self@);
    }

    pub fn new(generation: u32, mode: HeapMode) -> (state: Self)
        requires
            generation > 0,
        ensures
            state.wf(),
            state@ == (SlotStateSnapshot { generation, mode, retired: false, publishers: 0 }),
    {
        let state = Self { word: Self::pack(generation, mode, false, 0) };
        proof {
            state.lemma_view(
                SlotStateSnapshot { generation, mode, retired: false, publishers: 0 },
            );
        }
        state
    }

    fn pack(generation: u32, mode: HeapMode, retired: bool, publishers: u32) -> (word: u64)
        requires
            publishers <= MAX_PUBLISHERS,
        ensures
            word == (SlotStateSnapshot { generation, mode, retired, publishers }).packed(),
    {
        let low: u64 = generation as u64;
        let middle: u64 = mode.raw() as u64;
        let flag: u64 = if retired {
            1
        } else {
            0
        };
        let high: u64 = publishers as u64;
        assert((low | (middle << 32) | (flag << 34) | (high << 35)) == low + middle * 0x1_0000_0000
            + flag * 0x4_0000_0000 + high * 0x8_0000_0000) by (bit_vector)
            requires
                low <= 0xffff_ffff,
                middle <= 2,
                flag <= 1,
                high <= 0x1fff_ffff,
        ;
        low | (middle << 32) | (flag << 34) | (high << 35)
    }

    /// A zero generation reads as one, and mode bits without a mode as free.
    fn decode(word: u64) -> (snap: SlotStateSnapshot)
        ensures
            snap.generation == if word % 0x1_0000_0000 == 0 {
                1
            } else {
                (word % 0x1_0000_0000) as int
            },
            (word / 0x1_0000_0000) % 4 < 3 ==> mode_bits(snap.mode) == (word / 0x1_0000_0000) % 4,
            (word / 0x1_0000_0000) % 4 == 3 ==> snap.mode == HeapMode::Free,
            flag_bit(snap.retired) == (word / 0x4_0000_0000) % 2,
            snap.publishers == word / 0x8_0000_0000,
    {
        assert(word & 0xffff_ffff == word % 0x1_0000_0000 && (word >> 32) & 3 == (word
            / 0x1_0000_0000) % 4 && (word >> 34) & 1 == (word / 0x4_0000_0000) % 2 && word >> 35
            == word / 0x8_0000_0000) by (bit_vector);
        let low: u32 = (word & 0xffff_ffff) as u32;
        let generation: u32 = if low == 0 {
            1
        } else {
            low
        };
        let mode = match HeapMode::from_raw(((word >> 32) & 3) as u8) {
            Some(mode) => mode,
            None => HeapMode::Free,
        };
        SlotStateSnapshot {
            generation,
            mode,
            retired: (word >> 34) & 1 == 1,
            publishers: (word >> 35) as u32,
        }
    }

    pub fn load(&self) -> (snap: SlotStateSnapshot)
        requires
            self.wf(),
        ensures
            snap == self@,
            snap.wf(),
    {
        proof {
            lemma_parts(self@, self.word as int);
        }
        Self::decode(self.word)
    }

    pub fn store(&mut self, generation: u32, mode: HeapMode, retired: bool, publishers: u32)
        requires
            generation > 0,
            publishers <= MAX_PUBLISHERS,
        ensures
            final(self).wf(),
            final(self)@ == (SlotStateSnapshot { generation, mode, retired, publishers }),
    {
        self.word = Self::pack(generation, mode, retired, publishers);
        proof {
            self.lemma_view(SlotStateSnapshot { generation, mode, retired, publishers });
        }
    }

    pub fn matches(&self, id: HeapId) -> (same: bool)
        requires
            self.wf(),
        ensures
            same == self@.is(id),
    {
        let snap = self.load();
        !snap.retired && snap.generation == id.generation
    }

    pub fn mode(&self) -> (mode: HeapMode)
        requires
            self.wf(),
        ensures
            mode == self@.mode,
    {
        self.load().mode
    }

    pub fn generation(&self) -> (generation: u32)
        requires
            self.wf(),
        ensures
            generation == self@.generation,
    {
        self.load().generation
    }

    pub fn is_retired(&self) -> (retired: bool)
        requires
            self.wf(),
        ensures
            retired == self@.retired,
    {
        self.load().retired
    }

    pub fn is_free(&self) -> (free: bool)
        requires
            self.wf(),
        ensures
            free == (!self@.retired && self@.mode == HeapMode::Free && self@.publishers == 0),
    {
        let snap = self.load();
        !snap.retired && snap.mode == HeapMode::Free && snap.publishers == 0
    }

    pub fn is_active(&self) -> (active: bool)
        requires
            self.wf(),
        ensures
            active == (!self@.retired && self@.mode == HeapMode::Active),
    {
        let snap = self.load();
        !snap.retired && snap.mode == HeapMode::Active
    }

    pub fn publishers(&self) -> (publishers: u32)
        requires
            self.wf(),
        ensures
            publishers == self@.publishers,
    {
        self.load().publishers
    }

    /// Count one more publisher in, unless the heap is closed or the count is full.
    pub fn acquire_publisher(&mut self, id: HeapId) -> (admitted: Result<(), HeapError>)
        requires
            old(self).wf(),
        ensures
            final(self).wf(),
            ({
                let snap = old(self)@;
                if !snap.is(id) || snap.mode != HeapMode::Active {
                    admitted == Err::<(), HeapError>(HeapError::InvalidHeap) && final(self)@ == snap
                } else if snap.publishers == MAX_PUBLISHERS {
                    admitted == Err::<(), HeapError>(HeapError::InvalidMetadata) && final(self)@
                        == snap
                } else {
                    admitted == Ok::<(), HeapError>(()) && final(self)@ == (SlotStateSnapshot {
                        publishers: (snap.publishers + 1) as u32,
                        ..snap
                    })
                }
            }),
    {
        let snap = self.load();
        if snap.retired || snap.generation != id.generation || snap.mode != HeapMode::Active {
            return Err(HeapError::InvalidHeap);
        }
        if snap.publishers == MAX_PUBLISHERS {
            return Err(HeapError::InvalidMetadata);
        }
        self.store(snap.generation, snap.mode, false, snap.publishers + 1);
        Ok(())
    }

    /// Count one publisher out.
    pub fn release_publisher(&mut self)
        requires
            old(self).wf(),
            old(self)@.publishers > 0,
        ensures
            final(self).wf(),
            final(self)@ == (SlotStateSnapshot {
                publishers: (old(self)@.publishers - 1) as u32,
                ..old(self)@
            }),
    {
        let snap = self.load();
        self.store(snap.generation, snap.mode, snap.retired, snap.publishers - 1);
    }

    /// Admit no more publishers. Those in flight stay counted.
    pub fn close_active(&mut self, id: HeapId) -> (closed: Result<(), HeapError>)
        requires
            old(self).wf(),
        ensures
            final(self).wf(),
            ({
                let snap = old(self)@;
                if snap.is(id) && snap.mode != HeapMode::Free {
                    closed == Ok::<(), HeapError>(()) && final(self)@ == (SlotStateSnapshot {
                        mode: HeapMode::Draining,
                        ..snap
                    })
                } else {
                    closed == Err::<(), HeapError>(HeapError::InvalidHeap) && final(self)@ == snap
                }
            }),
    {
        let snap = self.load();
        if snap.retired || snap.generation != id.generation {
            return Err(HeapError::InvalidHeap);
        }
        match snap.mode {
            HeapMode::Active => {
                self.store(snap.generation, HeapMode::Draining, false, snap.publishers);
                Ok(())
            },
            HeapMode::Draining => Ok(()),
            HeapMode::Free => Err(HeapError::InvalidHeap),
        }
    }

    /// Free the slot under the next generation, or retire it when there is none.
    pub fn bump_free_or_retire(&mut self)
        requires
            old(self).wf(),
            old(self)@.mode == HeapMode::Draining,
            old(self)@.publishers == 0,
        ensures
            final(self).wf(),
            final(self)@ == bumped(old(self)@),
    {
        let snap = self.load();
        if snap.generation < u32::MAX {
            self.store(snap.generation + 1, HeapMode::Free, false, 0);
        } else {
            self.store(snap.generation, HeapMode::Free, true, 0);
        }
    }
}

/// The state behind the last use of a generation.
pub open spec fn bumped(snap: SlotStateSnapshot) -> SlotStateSnapshot {
    if snap.generation < u32::MAX {
        SlotStateSnapshot {
            generation: (snap.generation + 1) as u32,
            mode: HeapMode::Free,
            retired: false,
            publishers: 0,
        }
    } else {
        SlotStateSnapshot {
            generation: snap.generation,
            mode: HeapMode::Free,
            retired: true,
            publishers: 0,
        }
    }
}

/// Once a slot is given up, its id names nothing.
pub proof fn law_bumped_slot_forgets_its_id(snap: SlotStateSnapshot, id: HeapId)
    requires
        snap.wf(),
        snap.is(id),
    ensures
        !bumped(snap).is(id),
{
}

} // verus!
