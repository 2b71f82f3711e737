//! Packed heap lifecycle state: generation, mode, and enqueue leases.

use vstd::prelude::*;

use super::error::HeapError;
use super::id::HeapId;

verus! {

const MODE_SHIFT: u64 = 32;

const LEASE_SHIFT: u64 = 35;

/// The most enqueue leases one state word can count.
pub const MAX_LEASES: u32 = 0x1fff_ffff;

#[derive(Clone, Copy, Debug, PartialEq, Eq, Structural)]
pub enum HeapMode {
    Free,
    Active,
    Draining,
    Retired,
}

/// The two bits that stand for a mode.
pub open spec fn mode_bits(mode: HeapMode) -> int {
    match mode {
        HeapMode::Free => 0,
        HeapMode::Active => 1,
        HeapMode::Draining => 2,
        HeapMode::Retired => 3,
    }
}

impl HeapMode {
    pub fn raw(self) -> (raw: u8)
        ensures
            raw == mode_bits(self),
    {
        match self {
            HeapMode::Free => 0,
            HeapMode::Active => 1,
            HeapMode::Draining => 2,
            HeapMode::Retired => 3,
        }
    }

    pub fn from_raw(raw: u8) -> (mode: Option<Self>)
        ensures
            raw < 4 ==> mode is Some && mode_bits(mode->0) == raw,
            raw >= 4 ==> mode is None,
    {
        match raw {
            0 => Some(HeapMode::Free),
            1 => Some(HeapMode::Active),
            2 => Some(HeapMode::Draining),
            3 => Some(HeapMode::Retired),
            _ => None,
        }
    }
}

/// Decoded snapshot of the packed [`HeapState`] word.
#[derive(Clone, Copy, Debug, PartialEq, Eq, Structural)]
pub struct Snapshot {
    pub generation: u32,
    pub mode: HeapMode,
    pub leases: u32,
}

impl Snapshot {
    /// The generation is nonzero and the lease count fits its bits.
    pub open spec fn wf(self) -> bool {
        self.generation > 0 && self.leases <= MAX_LEASES
    }

    /// The word that stands for this snapshot: generation, mode, leases, from the
    /// lowest bit up.
    pub open spec fn packed(self) -> int {
        self.generation + mode_bits(self.mode) * 0x1_0000_0000 + self.leases * 0x8_0000_0000
    }
}

/// Packed generation, mode, and lease count: sole heap lifecycle authority.
pub struct HeapState {
    pub word: u64,
}

/// Every part of a snapshot can be read back from the word that stands for it.
pub proof fn law_snapshot_from_word(left: Snapshot, right: Snapshot)
    requires
        left.wf(),
        right.wf(),
        left.packed() == right.packed(),
    ensures
        left == right,
{
}

/// Where each part of a snapshot stands in its word.
proof fn lemma_parts(snap: Snapshot, word: int)
    requires
        snap.wf(),
        word == snap.packed(),
    ensures
        word % 0x1_0000_0000 == snap.generation,
        (word / 0x1_0000_0000) % 4 == mode_bits(snap.mode),
        word / 0x8_0000_0000 == snap.leases,
{
    let high = mode_bits(snap.mode) + snap.leases * 8;
    assert(word == high * 0x1_0000_0000 + snap.generation);
    assert(word / 0x1_0000_0000 == high);
    assert(word % 0x1_0000_0000 == snap.generation);
    assert(high % 4 == mode_bits(snap.mode));
    assert(high / 8 == snap.leases);
}

impl HeapState {
    /// The word stands for some valid snapshot.
    pub open spec fn wf(self) -> bool {
        exists|snap: Snapshot| snap.wf() && #[trigger] snap.packed() == self.word
    }

    /// The snapshot that the word stands for.
    pub open spec fn view(self) -> Snapshot {
        choose|snap: Snapshot| snap.wf() && #[trigger] snap.packed() == self.word
    }

    /// A word that stands for `snap` is viewed as `snap`.
    pub proof fn lemma_view(self, snap: Snapshot)
        requires
            snap.wf(),
            snap.packed() == self.word,
        ensures
            self.wf(),
            self@ == snap,
    {
        law_snapshot_from_word(snap, self@);
    }

    pub fn new(generation: u32, mode: HeapMode) -> (state: Self)
        requires
            generation > 0,
        ensures
            state.wf(),
            state@ == (Snapshot { generation, mode, leases: 0 }),
    {
        let state = Self { word: Self::pack(generation, mode, 0) };
        proof {
            state.lemma_view(Snapshot { generation, mode, leases: 0 });
        }
        state
    }

    pub fn pack(generation: u32, mode: HeapMode, leases: u32) -> (word: u64)
        requires
            leases <= MAX_LEASES,
        ensures
            word == (Snapshot { generation, mode, leases }).packed(),
    {
        let low: u64 = generation as u64;
        let middle: u64 = mode.raw() as u64;
        let high: u64 = leases as u64;
        assert((low | (middle << 32) | (high << 35)) == low + middle * 0x1_0000_0000 + high
            * 0x8_0000_0000) by (bit_vector)
            requires
                low <= 0xffff_ffff,
                middle <= 3,
                high <= 0x1fff_ffff,
        ;
        low | (middle << MODE_SHIFT) | (high << LEASE_SHIFT)
    }

    /// `None` when the generation bits are zero.
    pub fn decode(word: u64) -> (snap: Option<Snapshot>)
        ensures
            word % 0x1_0000_0000 == 0 ==> snap is None,
            word % 0x1_0000_0000 != 0 ==> (snap matches Some(snap) && snap.generation == word
                % 0x1_0000_0000 && mode_bits(snap.mode) == (word / 0x1_0000_0000) % 4
                && snap.leases == word / 0x8_0000_0000),
    {
        assert(word & 0xffff_ffff == word % 0x1_0000_0000 && (word >> 32) & 3 == (word
            / 0x1_0000_0000) % 4 && word >> 35 == word / 0x8_0000_0000) by (bit_vector);
        let generation: u32 = (word & 0xffff_ffff) as u32;
        if generation == 0 {
            return None;
        }
        let raw: u8 = ((word >> MODE_SHIFT) & 3) as u8;
        match HeapMode::from_raw(raw) {
            None => None,
            Some(mode) => {
                let leases: u32 = (word >> LEASE_SHIFT) as u32;
                Some(Snapshot { generation, mode, leases })
            },
        }
    }

    pub fn load(&self) -> (snap: Snapshot)
        requires
            self.wf(),
        ensures
            snap == self@,
            snap.wf(),
    {
        proof {
            lemma_parts(self@, self.word as int);
        }
        match Self::decode(self.word) {
            Some(snap) => snap,
            None => Snapshot { generation: 1, mode: HeapMode::Retired, leases: 0 },
        }
    }

    pub fn store(&mut self, generation: u32, mode: HeapMode, leases: u32)
        requires
            generation > 0,
            leases <= MAX_LEASES,
        ensures
            final(self).wf(),
            final(self)@ == (Snapshot { generation, mode, leases }),
    {
        self.word = Self::pack(generation, mode, leases);
        proof {
            self.lemma_view(Snapshot { generation, mode, leases });
        }
    }

    pub fn matches(&self, id: HeapId) -> (same: bool)
        requires
            self.wf(),
        ensures
            same == (self@.mode != HeapMode::Retired && self@.generation == id.generation),
    {
        let snap = self.load();
        snap.mode != HeapMode::Retired && snap.generation == id.generation()
    }

    pub fn mode(&self) -> (mode: HeapMode)
        requires
            self.wf(),
        ensures
            mode == self@.mode,
    {
        self.load().mode
    }

    pub fn generation(&self) -> (generation: u32)
        requires
            self.wf(),
        ensures
            generation == self@.generation,
            generation > 0,
    {
        self.load().generation
    }

    pub fn is_retired(&self) -> (retired: bool)
        requires
            self.wf(),
        ensures
            retired == (self@.mode == HeapMode::Retired),
    {
        self.load().mode == HeapMode::Retired
    }

    pub fn is_free(&self) -> (free: bool)
        requires
            self.wf(),
        ensures
            free == (self@.mode == HeapMode::Free && self@.leases == 0),
    {
        let snap = self.load();
        snap.mode == HeapMode::Free && snap.leases == 0
    }

    pub fn is_active(&self) -> (active: bool)
        requires
            self.wf(),
        ensures
            active == (self@.mode == HeapMode::Active),
    {
        self.load().mode == HeapMode::Active
    }

    pub fn leases(&self) -> (leases: u32)
        requires
            self.wf(),
        ensures
            leases == self@.leases,
    {
        self.load().leases
    }

    /// Admit one Active enqueue lease for `id`, or fail if closed or full.
    ///
    /// Counts enqueues in flight only, not inbox depth.
    pub fn acquire_lease(&mut self, id: HeapId) -> (admitted: Result<Lease, HeapError>)
        requires
            old(self).wf(),
        ensures
            final(self).wf(),
            ({
                let snap = old(self)@;
                if snap.generation != id.generation || snap.mode != HeapMode::Active {
                    admitted == Err::<Lease, HeapError>(HeapError::InvalidHeap) && final(self)@
                        == snap
                } else if snap.leases == MAX_LEASES {
                    admitted == Err::<Lease, HeapError>(HeapError::InvalidMetadata) && final(self)@ == snap
                } else {
                    admitted == Ok::<Lease, HeapError>(Lease { generation: snap.generation })
                        && final(self)@ == (Snapshot { leases: (snap.leases + 1) as u32, ..snap })
                }
            }),
    {
        let snap = self.load();
        if snap.generation != id.generation() || snap.mode != HeapMode::Active {
            return Err(HeapError::InvalidHeap);
        }
        if snap.leases == MAX_LEASES {
            return Err(HeapError::InvalidMetadata);
        }
        self.store(snap.generation, snap.mode, snap.leases + 1);
        Ok(Lease { generation: snap.generation })
    }

    /// Give one lease back. The mode may have changed since it was taken.
    pub fn release_lease(&mut self, lease: Lease)
        requires
            old(self).wf(),
            old(self)@.leases > 0,
        ensures
            final(self).wf(),
            final(self)@ == (Snapshot { leases: (old(self)@.leases - 1) as u32, ..old(self)@ }),
    {
        let snap = self.load();
        self.store(snap.generation, snap.mode, snap.leases - 1);
    }

    /// Close Active admission while preserving the in-flight lease count.
    pub fn close(&mut self, id: HeapId) -> (closed: Result<(), HeapError>)
        requires
            old(self).wf(),
        ensures
            final(self).wf(),
            ({
                let snap = old(self)@;
                if snap.generation == id.generation && (snap.mode == HeapMode::Active || snap.mode
                    == HeapMode::Draining) {
                    closed == Ok::<(), HeapError>(()) && final(self)@ == (Snapshot {
                        mode: HeapMode::Draining,
                        ..snap
                    })
                } else {
                    closed == Err::<(), HeapError>(HeapError::InvalidHeap) && final(self)@ == snap
                }
            }),
    {
        let snap = self.load();
        if snap.generation != id.generation() {
            return Err(HeapError::InvalidHeap);
        }
        match snap.mode {
            HeapMode::Active => {
                self.store(snap.generation, HeapMode::Draining, snap.leases);
                Ok(())
            },
            HeapMode::Draining => Ok(()),
            HeapMode::Free => Err(HeapError::InvalidHeap),
            HeapMode::Retired => Err(HeapError::InvalidHeap),
        }
    }

    /// First remote freer takes Active ownership. Leases stay; a loser sees Active.
    pub fn adopt(&mut self, id: HeapId) -> (adopted: Result<(), HeapError>)
        requires
            old(self).wf(),
        ensures
            final(self).wf(),
            ({
                let snap = old(self)@;
                if snap.generation == id.generation && snap.mode == HeapMode::Draining {
                    adopted == Ok::<(), HeapError>(()) && final(self)@ == (Snapshot {
                        mode: HeapMode::Active,
                        ..snap
                    })
                } else {
                    adopted == Err::<(), HeapError>(HeapError::InvalidHeap) && final(self)@ == snap
                }
            }),
    {
        let snap = self.load();
        if snap.generation != id.generation() {
            return Err(HeapError::InvalidHeap);
        }
        match snap.mode {
            HeapMode::Draining => {
                self.store(snap.generation, HeapMode::Active, snap.leases);
                Ok(())
            },
            HeapMode::Active => Err(HeapError::InvalidHeap),
            HeapMode::Free => Err(HeapError::InvalidHeap),
            HeapMode::Retired => Err(HeapError::InvalidHeap),
        }
    }

    /// Bump the generation and set Free, or permanently retire.
    ///
    /// Fails when another lifecycle transition changed `expected`; reclaim must
    /// never overwrite an adoption.
    pub fn bump_or_retire(&mut self, expected: Snapshot) -> (reclaimed: bool)
        requires
            old(self).wf(),
            expected.wf(),
        ensures
            final(self).wf(),
            reclaimed == (old(self)@ == expected),
            final(self)@ == if !reclaimed {
                old(self)@
            } else {
                reclaimed_snapshot(expected)
            },
    {
        let snap = self.load();
        if snap != expected {
            return false;
        }
        match expected.generation.checked_add(1) {
            Some(generation) => {
                self.store(generation, HeapMode::Free, 0);
            },
            None => {
                self.store(expected.generation, HeapMode::Retired, 0);
            },
        }
        true
    }
}

/// The state after a drained heap is reclaimed: the next generation and Free, or
/// Retired once generations run out.
pub open spec fn reclaimed_snapshot(snap: Snapshot) -> Snapshot {
    if snap.generation < u32::MAX {
        Snapshot { generation: (snap.generation + 1) as u32, mode: HeapMode::Free, leases: 0 }
    } else {
        Snapshot { generation: snap.generation, mode: HeapMode::Retired, leases: 0 }
    }
}

/// After a reclaim no id of the earlier incarnation matches any more.
pub proof fn law_reclaim_makes_ids_stale(snap: Snapshot)
    requires
        snap.wf(),
    ensures
        ({
            let after = reclaimed_snapshot(snap);
            after.mode == HeapMode::Retired || after.generation != snap.generation
        }),
{
}

/// One Active enqueue lease. Given back through [`HeapState::release_lease`].
#[derive(Debug, PartialEq, Eq, Structural)]
pub struct Lease {
    pub generation: u32,
}

} // verus!
