pub mod arena;
pub mod cache;
pub mod config;
pub mod freelist;
pub mod heap;

use vstd::prelude::*;

use super::inbox::Link;
use crate::layout::LayoutSpec;
use crate::memory::{AddressRange, Effect, Os, PAGE_SIZE};
use crate::size_class::{lemma_class_bounds, SizeClass};
use config::RunPolicy;
use freelist::{contiguous, Freelist, Words};

verus! {

pub const RUN_SIZE: usize = 65536;

/// Payload plus claim tail, `RUN_SIZE`-aligned.
pub const RUN_SPACE: usize = 131072;

/// Runs per heap-owned payload map.
pub const MAP_RUNS: usize = 16;

pub const MAP_SIZE: usize = 2097152;

/// Bits per claim-bitmap word.
pub const CLAIM_WORD_BITS: usize = 64;

/// Bytes kept for a run's header between its payload and its claim words.
pub const HEADER_BYTES: usize = 192;

#[derive(Clone, Copy, Debug, PartialEq, Eq, Structural)]
pub struct RunId {
    /// One-based.
    pub index: u32,
}

impl RunId {
    pub open spec fn spec_index(self) -> int {
        self.index - 1
    }

    pub fn from_index(index: u32) -> (id: Option<Self>)
        ensures
            index < u32::MAX ==> id == Some(RunId { index: (index + 1) as u32 }),
            index == u32::MAX ==> id is None,
    {
        match index.checked_add(1) {
            Some(one_based) => Some(Self { index: one_based }),
            None => None,
        }
    }

    pub fn index(self) -> (index: u32)
        requires
            self.index > 0,
        ensures
            index == self.spec_index(),
    {
        self.index - 1
    }
}

#[derive(Clone, Copy, Debug, PartialEq, Eq, Structural)]
pub struct BlockIndex {
    pub index: usize,
}

impl BlockIndex {
    pub fn new(index: usize) -> (block: Self)
        ensures
            block == (BlockIndex { index }),
    {
        Self { index }
    }

    pub fn get(self) -> (index: usize)
        ensures
            index == self.index,
    {
        self.index
    }

    /// The claim word that holds this block's bit, and the bit.
    pub fn claim_word_bit(self) -> (place: (usize, u64))
        ensures
            place.0 == self.index as int / 64,
            place.1 == 1u64 << (self.index % 64) as u64,
    {
        let index: usize = self.get();
        let word: usize = index / CLAIM_WORD_BITS;
        let bit: u64 = (index % CLAIM_WORD_BITS) as u64;
        (word, 1u64 << bit)
    }
}

#[derive(Clone, Copy, Debug, PartialEq, Eq, Structural)]
pub struct Block {
    pub index: BlockIndex,
    pub ptr: usize,
}

impl Block {
    pub fn new(index: BlockIndex, ptr: usize) -> (block: Self)
        ensures
            block == (Block { index, ptr }),
    {
        Self { index, ptr }
    }

    pub fn index(self) -> (index: BlockIndex)
        ensures
            index == self.index,
    {
        self.index
    }

    pub fn ptr(self) -> (ptr: usize)
        ensures
            ptr == self.ptr,
    {
        self.ptr
    }
}

#[derive(Clone, Copy, Debug, PartialEq, Eq, Structural)]
pub enum RunError {
    /// In this run's block span but not a block boundary.
    InvalidPointer,
    /// Outside the block span.
    OutOfRange,
    DoubleFree,
}

#[derive(Clone, Copy, Debug, PartialEq, Eq, Structural)]
pub enum RunFree {
    Unchanged,
    Available,
}

#[derive(Clone, Copy, Debug, PartialEq, Eq, Structural)]
pub enum Accept {
    Done,
    Requeue,
}

/// Bit `bit` of `word` is set.
pub open spec fn bit_set(word: u64, bit: u64) -> bool {
    (word >> bit) & 1 == 1
}

/// Setting a bit changes that bit and no other; the mask of a bit finds it; the
/// zero word has none.
proof fn lemma_bits(word: u64, bit: u64)
    requires
        bit < 64,
    ensures
        forall|other: u64|
            other < 64 ==> #[trigger] bit_set(word | (1u64 << bit), other) == (other == bit
                || bit_set(word, other)),
        (word & (1u64 << bit) != 0) == bit_set(word, bit),
        !bit_set(0, bit),
{
    assert forall|other: u64| other < 64 implies #[trigger] bit_set(word | (1u64 << bit), other)
        == (other == bit || bit_set(word, other)) by {
        assert(((word | (1u64 << bit)) >> other) & 1 == 1 <==> (other == bit || (word >> other) & 1
            == 1)) by (bit_vector)
            requires
                bit < 64,
                other < 64,
        ;
    }
    assert((word & (1u64 << bit) != 0) <==> (word >> bit) & 1 == 1) by (bit_vector)
        requires
            bit < 64,
    ;
    assert((0u64 >> bit) & 1 == 0) by (bit_vector);
}

/// Run-owned remote-admission bitmap.
///
/// A remote claim sets a bit; a second claim on the same bit is a double free.
/// `accept` drains bits onto the free list.
pub struct ClaimBits {
    pub words: Vec<u64>,
}

impl ClaimBits {
    /// The bit of block `index` is set.
    pub open spec fn has(self, index: int) -> bool {
        0 <= index < self.words@.len() * 64 && bit_set(
            self.words@[index / 64],
            (index % 64) as u64,
        )
    }

    /// No bit is set.
    pub open spec fn none(self) -> bool {
        forall|index: int| !#[trigger] self.has(index)
    }

    pub fn byte_len(capacity: usize) -> (len: Option<usize>)
        ensures
            len is Some <==> ((capacity + 63) / 64) * 8 <= usize::MAX,
            len matches Some(len) ==> len == ((capacity + 63) / 64) * 8,
    {
        let words: usize = Self::word_count(capacity);
        words.checked_mul(8)
    }

    /// Byte offset of the claim words from the space base.
    pub fn space_offset() -> (offset: usize)
        ensures
            offset == RUN_SIZE + HEADER_BYTES,
            offset % 8 == 0,
    {
        RUN_SIZE + HEADER_BYTES
    }

    pub fn word_count(capacity: usize) -> (count: usize)
        ensures
            count == (capacity + 63) / 64,
    {
        let whole: usize = capacity / CLAIM_WORD_BITS;
        if capacity % CLAIM_WORD_BITS == 0 {
            whole
        } else {
            whole + 1
        }
    }

    pub fn new(capacity: usize) -> (claims: Self)
        ensures
            claims.words@.len() == (capacity + 63) / 64,
            claims.none(),
    {
        let words: Vec<u64> = vec![0u64; Self::word_count(capacity)];
        let claims = Self { words };
        assert forall|index: int| !#[trigger] claims.has(index) by {
            if 0 <= index < claims.words@.len() * 64 {
                lemma_bits(0, (index % 64) as u64);
            }
        }
        claims
    }

    /// Set the bit of `index`. `false` when it was already set.
    pub fn try_set(&mut self, index: BlockIndex) -> (won: bool)
        requires
            index.index < old(self).words@.len() * 64,
        ensures
            won == !old(self).has(index.index as int),
            final(self).words@.len() == old(self).words@.len(),
            forall|i: int| #[trigger]
                final(self).has(i) == (i == index.index || old(self).has(i)),
    {
        let (word, mask) = index.claim_word_bit();
        let prev: u64 = self.words[word];
        self.words[word] = prev | mask;
        proof {
            lemma_bits(prev, (index.index % 64) as u64);
            assert forall|i: int| #[trigger] self.has(i) == (i == index.index || old(self).has(
                i,
            )) by {
                if 0 <= i < self.words@.len() * 64 {
                    let bit: u64 = (i % 64) as u64;
                    assert(bit_set(prev | mask, bit) == (bit == (index.index % 64) as u64
                        || bit_set(prev, bit)));
                }
            }
        }
        prev & mask == 0
    }

    pub fn is_set(&self, index: BlockIndex) -> (set: bool)
        requires
            index.index < self.words@.len() * 64,
        ensures
            set == self.has(index.index as int),
    {
        let (word, mask) = index.claim_word_bit();
        proof {
            lemma_bits(self.words@[word as int], (index.index % 64) as u64);
        }
        self.words[word] & mask != 0
    }

    /// Take every bit in `word`, returning the bits that were set beforehand.
    pub fn drain_word(&mut self, word: usize) -> (bits: u64)
        requires
            word < old(self).words@.len(),
        ensures
            bits == old(self).words@[word as int],
            final(self).words@ == old(self).words@.update(word as int, 0),
    {
        let bits: u64 = self.words[word];
        self.words[word] = 0;
        bits
    }

    /// Whether a claim is left.
    pub fn any_set(&self) -> (any: bool)
        ensures
            any == (exists|word: int| 0 <= word < self.words@.len() && #[trigger] self.words@[word]
                != 0),
            !any ==> self.none(),
    {
        let mut word: usize = 0;
        while word < self.words.len()
            invariant
                word <= self.words@.len(),
                forall|w: int| 0 <= w < word ==> #[trigger] self.words@[w] == 0,
            decreases self.words@.len() - word,
        {
            if self.words[word] != 0 {
                return true;
            }
            word = word + 1;
        }
        assert forall|index: int| !#[trigger] self.has(index) by {
            if 0 <= index < self.words@.len() * 64 {
                lemma_bits(0, (index % 64) as u64);
                assert(self.words@[index / 64] == 0);
            }
        }
        false
    }
}

/// Membership on the available list of the run's class.
///
/// `Unlisted` is off the list. `Tail` is listed with no successor.
#[derive(Clone, Copy, Debug, PartialEq, Eq, Structural)]
pub enum AvailableLink {
    Unlisted,
    Tail,
    Next(u32),
}

impl AvailableLink {
    pub open spec fn spec_from_next(next: Option<u32>) -> Self {
        match next {
            None => AvailableLink::Tail,
            Some(run) => AvailableLink::Next(run),
        }
    }

    pub open spec fn spec_successor(self) -> Option<u32> {
        match self {
            AvailableLink::Unlisted => None,
            AvailableLink::Tail => None,
            AvailableLink::Next(run) => Some(run),
        }
    }

    pub fn is_unlisted(self) -> (unlisted: bool)
        ensures
            unlisted == (self == AvailableLink::Unlisted),
    {
        matches!(self, AvailableLink::Unlisted)
    }

    pub fn from_next(next: Option<u32>) -> (link: Self)
        ensures
            link == Self::spec_from_next(next),
    {
        match next {
            None => AvailableLink::Tail,
            Some(run) => AvailableLink::Next(run),
        }
    }

    pub fn successor(self) -> (next: Option<u32>)
        ensures
            next == self.spec_successor(),
    {
        match self {
            AvailableLink::Unlisted => None,
            AvailableLink::Tail => None,
            AvailableLink::Next(run) => Some(run),
        }
    }
}

/// A span of equal blocks, its free list, and its remote claims.
pub struct Run {
    /// Payload base (`RUN_SIZE` bytes) in a heap-owned map.
    pub base: usize,
    /// `capacity * stride`: payload bytes that are real blocks.
    pub span: u32,
    /// `ceil(2^32 / stride)`: exact `floor(offset / stride)` for `offset < 2^16`.
    pub recip: u32,
    pub stride: usize,
    pub class: SizeClass,
    pub id: RunId,
    /// Slot of the owning heap.
    pub heap: u32,
    pub policy: RunPolicy,
    pub free: Freelist,
    /// First word of each free block.
    pub links: Words,
    pub live: usize,
    pub capacity: usize,
    pub bump: usize,
    pub available: AvailableLink,
    /// Mirror of `bump` for remote claims.
    pub issued: usize,
    pub link: Link,
    pub claims: ClaimBits,
}

/// `recip` rounds `2^32 / stride` up.
pub open spec fn is_recip(recip: int, stride: int) -> bool {
    0x1_0000_0000 <= recip * stride < 0x1_0000_0000 + stride
}

/// Multiplying an offset by the rounded-up reciprocal gives the quotient in the
/// upper half, and a lower half below the reciprocal exactly on multiples.
pub proof fn law_recip_is_exact(offset: int, stride: int, recip: int, span: int)
    requires
        0 < stride <= 32768,
        is_recip(recip, stride),
        0 <= offset < span <= 65536,
        span % stride == 0,
    ensures
        0 <= offset * recip <= u64::MAX,
        (offset * recip) / 0x1_0000_0000 == offset / stride,
        ((offset * recip) % 0x1_0000_0000 < recip) == (offset % stride == 0),
{
    let q = offset / stride;
    let r = offset % stride;
    let e = recip * stride - 0x1_0000_0000;
    let whole = 0x1_0000_0000int;
    vstd::arithmetic::div_mod::lemma_fundamental_div_mod(offset, stride);
    vstd::arithmetic::div_mod::lemma_fundamental_div_mod(span, stride);
    let blocks = span / stride;
    assert(span == stride * blocks);
    assert(offset == stride * q + r);
    assert(0 <= r < stride);
    assert(q >= 0) by (nonlinear_arith)
        requires
            offset == stride * q + r,
            offset >= 0,
            0 <= r < stride,
    ;
    assert(q < blocks) by (nonlinear_arith)
        requires
            stride * q + r < stride * blocks,
            0 <= r,
            stride > 0,
    ;
    assert((q + 1) * stride <= 65536) by (nonlinear_arith)
        requires
            q < blocks,
            stride * blocks <= 65536,
            stride > 0,
    ;
    assert(e * (q + 1) <= (q + 1) * stride) by (nonlinear_arith)
        requires
            0 <= e < stride,
            q >= 0,
    ;
    assert(e * q >= 0 && e * q <= e * (q + 1)) by (nonlinear_arith)
        requires
            0 <= e,
            q >= 0,
    ;
    assert(recip >= 131072) by (nonlinear_arith)
        requires
            recip * stride >= 0x1_0000_0000,
            0 < stride <= 32768,
    ;
    let low = e * q + r * recip;
    assert(offset * recip == whole * q + low) by (nonlinear_arith)
        requires
            offset == stride * q + r,
            e == recip * stride - whole,
            low == e * q + r * recip,
    ;
    assert(r * recip <= (stride - 1) * recip) by (nonlinear_arith)
        requires
            r <= stride - 1,
            recip >= 0,
    ;
    assert((stride - 1) * recip == whole + e - recip) by (nonlinear_arith)
        requires
            e == recip * stride - whole,
    ;
    assert(e * (q + 1) == e * q + e) by (nonlinear_arith);
    assert(low < whole);
    assert(r * recip >= 0) by (nonlinear_arith)
        requires
            r >= 0,
            recip >= 0,
    ;
    vstd::arithmetic::div_mod::lemma_fundamental_div_mod_converse(
        offset * recip,
        whole,
        q,
        low,
    );
    assert(offset * recip <= 65536 * recip) by (nonlinear_arith)
        requires
            0 <= offset <= 65536,
            recip >= 0,
    ;
    assert(recip <= 2 * whole) by (nonlinear_arith)
        requires
            recip * stride < whole + stride,
            stride >= 1,
            whole == 0x1_0000_0000,
    ;
    if r >= 1 {
        assert(r * recip >= recip) by (nonlinear_arith)
            requires
                r >= 1,
                recip >= 0,
        ;
    } else {
        assert(r * recip == 0) by (nonlinear_arith)
            requires
                r == 0,
        ;
    }
}

/// A list of different numbers below `bound` has at most `bound` of them.
pub proof fn lemma_pigeonhole(list: Seq<int>, bound: int)
    requires
        0 <= bound,
        list.no_duplicates(),
        forall|i: int| 0 <= i < list.len() ==> 0 <= #[trigger] list[i] < bound,
    ensures
        list.len() <= bound,
{
    list.unique_seq_to_set();
    vstd::set_lib::lemma_int_range(0, bound);
    assert(list.to_set().subset_of(vstd::set_lib::set_int_range(0, bound)));
    vstd::set_lib::lemma_len_subset(list.to_set(), vstd::set_lib::set_int_range(0, bound));
}

/// Address of block `index` in a run at `base` with blocks of `stride` bytes.
pub open spec fn block_at(base: usize, stride: usize, index: int) -> int {
    base + index * stride
}

/// `addr` is the address of one of the first `count` blocks.
pub open spec fn is_block(base: usize, stride: usize, count: usize, addr: usize) -> bool {
    exists|index: int| 0 <= index < count && #[trigger] block_at(base, stride, index) == addr
}

impl Run {
    /// Address of block `index`.
    #[verifier::inline]
    pub open spec fn block_addr(self, index: int) -> int {
        block_at(self.base, self.stride, index)
    }

    /// Block `index` is on the free list.
    pub open spec fn is_free(self, index: int) -> bool {
        self.free@.contains(self.block_addr(index) as usize)
    }

    /// Block `index` is handed out: allocated, or claimed and not yet accepted.
    pub open spec fn outstanding(self, index: int) -> bool {
        0 <= index < self.bump && !self.is_free(index)
    }

    /// Block `index` is allocated and no remote free of it is pending.
    pub open spec fn held(self, index: int) -> bool {
        self.outstanding(index) && !self.claims.has(index)
    }

    /// `addr` is the address of an issued block.
    #[verifier::inline]
    pub open spec fn lists(self, addr: usize) -> bool {
        is_block(self.base, self.stride, self.bump, addr)
    }

    /// Fixed shape: where the run lies and how it is cut into blocks.
    pub open spec fn shape_wf(self) -> bool {
        &&& self.base > 0
        &&& self.base % RUN_SIZE == 0
        &&& self.base + RUN_SPACE <= usize::MAX
        &&& self.class.wf()
        &&& self.stride == self.class.size
        &&& 8 <= self.stride <= 32768
        &&& self.capacity == 65536int / self.stride as int
        &&& self.span == self.capacity * self.stride
        &&& self.span <= RUN_SIZE
        &&& is_recip(self.recip as int, self.stride as int)
        &&& self.id.index > 0
        &&& self.claims.words@.len() == (self.capacity + 63) / 64
    }

    /// Two runs have the same fixed shape and identity.
    pub open spec fn same_shape(self, other: Run) -> bool {
        &&& self.base == other.base
        &&& self.span == other.span
        &&& self.recip == other.recip
        &&& self.stride == other.stride
        &&& self.class == other.class
        &&& self.id == other.id
        &&& self.heap == other.heap
        &&& self.policy == other.policy
        &&& self.capacity == other.capacity
        &&& self.claims.words@.len() == other.claims.words@.len()
    }

    /// Blocks below `bump` are free or outstanding, `live` counts the outstanding
    /// ones, and only outstanding blocks are claimed.
    pub open spec fn wf(self) -> bool {
        &&& self.shape_wf()
        &&& self.bump <= self.capacity
        &&& self.issued == self.bump
        &&& self.free.wf(self.links@)
        &&& forall|i: int| 0 <= i < self.free@.len() ==> self.lists(#[trigger] self.free@[i])
        &&& self.live + self.free@.len() == self.bump
        &&& forall|index: int| #[trigger] self.claims.has(index) ==> self.outstanding(index)
    }

    /// Addresses of the claimed blocks below `below`, highest first.
    pub open spec fn claimed(self, below: nat) -> Seq<usize>
        decreases below,
    {
        if below == 0 {
            Seq::empty()
        } else if self.claims.has(below - 1) {
            seq![self.block_addr(below - 1) as usize] + self.claimed((below - 1) as nat)
        } else {
            self.claimed((below - 1) as nat)
        }
    }

    /// What locating `ptr` gives.
    pub open spec fn located(self, ptr: usize) -> Result<Block, RunError> {
        if ptr < self.base || ptr >= self.base + self.span {
            Err(RunError::OutOfRange)
        } else if (ptr - self.base) % (self.stride as int) != 0 {
            Err(RunError::InvalidPointer)
        } else {
            Ok(
                Block {
                    index: BlockIndex { index: ((ptr - self.base) / (self.stride as int)) as usize },
                    ptr,
                },
            )
        }
    }

    /// A held block starts at `addr`.
    pub open spec fn holds(self, addr: int) -> bool {
        0 <= addr <= usize::MAX && (self.located(addr as usize) matches Ok(block) && self.held(
            block.index.index as int,
        ))
    }

    /// Runs of one shape that hold the same blocks hold the same addresses.
    pub proof fn lemma_same_holds(self, before: Run)
        requires
            self.same_shape(before),
            forall|i: int| #[trigger] self.held(i) == before.held(i),
        ensures
            forall|addr: int| #[trigger] self.holds(addr) == before.holds(addr),
    {
        assert forall|addr: int| #[trigger] self.holds(addr) == before.holds(addr) by {
            assert(self.located(addr as usize) == before.located(addr as usize));
            if self.located(addr as usize) is Ok {
                let index = self.located(addr as usize)->Ok_0.index.index as int;
                assert(self.held(index) == before.held(index));
            }
        }
    }

    /// Holding one more block, or one fewer, changes what is held at its address only.
    pub proof fn lemma_changed_holds(self, before: Run, ptr: usize, now: bool)
        requires
            self.shape_wf(),
            before.shape_wf(),
            self.same_shape(before),
            before.located(ptr) is Ok,
            forall|i: int|
                i != before.located(ptr)->Ok_0.index.index ==> #[trigger] self.held(i)
                    == before.held(i),
            self.held(before.located(ptr)->Ok_0.index.index as int) == now,
        ensures
            forall|addr: int| addr != ptr ==> #[trigger] self.holds(addr) == before.holds(addr),
            self.holds(ptr as int) == now,
    {
        assert(self.located(ptr) == before.located(ptr));
        assert forall|addr: int| addr != ptr implies #[trigger] self.holds(addr) == before.holds(
            addr,
        ) by {
            assert(self.located(addr as usize) == before.located(addr as usize));
            if 0 <= addr <= usize::MAX && self.located(addr as usize) is Ok {
                let index = self.located(addr as usize)->Ok_0.index.index as int;
                before.lemma_located(addr as usize);
                before.lemma_located(ptr);
                assert(index != before.located(ptr)->Ok_0.index.index);
                assert(self.held(index) == before.held(index));
            }
        }
    }

    /// The payload bytes.
    pub open spec fn spec_range(self) -> AddressRange {
        AddressRange { base: self.base, len: RUN_SIZE }
    }

    /// Block addresses are nonzero, lie in the payload with their whole block, and
    /// differ for different blocks.
    pub proof fn lemma_block(self, index: int)
        requires
            self.shape_wf(),
            0 <= index < self.capacity,
        ensures
            self.base <= self.block_addr(index),
            self.block_addr(index) + self.stride <= self.base + self.span,
            0 < self.block_addr(index) <= usize::MAX,
            self.located(self.block_addr(index) as usize) == Ok::<Block, RunError>(
                Block {
                    index: BlockIndex { index: index as usize },
                    ptr: self.block_addr(index) as usize,
                },
            ),
            forall|other: int|
                other != index ==> #[trigger] self.block_addr(other) != self.block_addr(index),
    {
        let stride = self.stride as int;
        let capacity = self.capacity as int;
        assert(index * stride + stride <= capacity * stride && index * stride >= 0)
            by (nonlinear_arith)
            requires
                0 <= index < capacity,
                stride > 0,
        ;
        vstd::arithmetic::div_mod::lemma_fundamental_div_mod_converse(
            index * stride,
            stride,
            index,
            0,
        );
        assert(stride * index == index * stride) by (nonlinear_arith);
        assert forall|other: int| other != index implies #[trigger] self.block_addr(other)
            != self.block_addr(index) by {
            if other < index {
                assert(other * stride < index * stride) by (nonlinear_arith)
                    requires
                        other < index,
                        stride > 0,
                ;
            } else {
                assert(index * stride < other * stride) by (nonlinear_arith)
                    requires
                        index < other,
                        stride > 0,
                ;
            }
        }
    }

    /// A pointer that locates is the address of its block.
    pub proof fn lemma_located(self, ptr: usize)
        requires
            self.shape_wf(),
            self.located(ptr) is Ok,
        ensures
            self.located(ptr)->Ok_0.index.index < self.capacity,
            self.block_addr(self.located(ptr)->Ok_0.index.index as int) == ptr,
    {
        let stride = self.stride as int;
        let offset = ptr - self.base;
        let index = offset / stride;
        vstd::arithmetic::div_mod::lemma_fundamental_div_mod(offset, stride);
        assert(stride * index == index * stride) by (nonlinear_arith);
        assert(0 <= index < self.capacity) by (nonlinear_arith)
            requires
                0 <= index * stride < self.capacity * stride,
                stride > 0,
        ;
    }

    /// The free list, as block indices.
    pub open spec fn free_indices(self) -> Seq<int> {
        self.free@.map_values(
            |addr: usize| choose|index: int|
                0 <= index < self.bump && self.block_addr(index) == addr,
        )
    }

    proof fn lemma_free_indices(self)
        requires
            self.wf(),
        ensures
            self.free_indices().len() == self.free@.len(),
            self.free_indices().no_duplicates(),
            forall|i: int|
                0 <= i < self.free@.len() ==> 0 <= #[trigger] self.free_indices()[i] < self.bump
                    && self.block_addr(self.free_indices()[i]) == self.free@[i],
    {
        let indices = self.free_indices();
        assert forall|i: int| 0 <= i < self.free@.len() implies 0 <= #[trigger] indices[i]
            < self.bump && self.block_addr(indices[i]) == self.free@[i] by {
            assert(self.lists(self.free@[i]));
        }
        assert forall|i: int, j: int|
            0 <= i < indices.len() && 0 <= j < indices.len() && i != j implies indices[i]
            != indices[j] by {
            assert(self.free@[i] != self.free@[j]);
        }
    }

    /// While a block is outstanding, `live` is not zero.
    pub proof fn lemma_outstanding_counts(self, index: int)
        requires
            self.wf(),
            self.outstanding(index),
        ensures
            self.live > 0,
            self.free@.len() < self.bump,
    {
        self.lemma_free_indices();
        let indices = self.free_indices();
        let more = indices.push(index);
        self.lemma_block(index);
        assert forall|i: int| 0 <= i < indices.len() implies indices[i] != index by {
            assert(self.free@.contains(self.free@[i]));
        }
        lemma_pigeonhole(more, self.bump as int);
    }

    /// When every issued block is free, `live` is zero.
    pub proof fn lemma_all_free(self)
        requires
            self.wf(),
            forall|index: int| !#[trigger] self.outstanding(index),
        ensures
            self.live == 0,
    {
        let free = self.free@;
        let places = Seq::new(
            self.bump as nat,
            |i: int| free.index_of(self.block_addr(i) as usize),
        );
        assert forall|i: int| 0 <= i < places.len() implies 0 <= #[trigger] places[i] < free.len()
            && free[places[i]] == self.block_addr(i) as usize by {
            assert(!self.outstanding(i));
            assert(free.contains(self.block_addr(i) as usize));
        }
        assert(places.no_duplicates()) by {
            assert forall|i: int, j: int|
                0 <= i < places.len() && 0 <= j < places.len() && i != j implies places[i]
                != places[j] by {
                self.lemma_block(i);
                self.lemma_block(j);
            }
        }
        lemma_pigeonhole(places, free.len() as int);
    }

    /// A run holds at least two blocks, and `live` never exceeds that capacity.
    pub proof fn lemma_live_bound(self)
        requires
            self.wf(),
        ensures
            2 <= self.capacity <= 8192,
            self.live <= self.capacity,
    {
        let capacity = self.capacity as int;
        let stride = self.stride as int;
        assert(2 <= capacity <= 8192) by (nonlinear_arith)
            requires
                capacity == 65536int / stride,
                8 <= stride <= 32768,
        ;
    }

    /// When `live` is zero, every issued block is free and none is claimed.
    pub proof fn lemma_none_outstanding(self)
        requires
            self.wf(),
            self.live == 0,
        ensures
            forall|index: int| !#[trigger] self.outstanding(index),
            self.claims.none(),
    {
        assert forall|index: int| !#[trigger] self.outstanding(index) by {
            if self.outstanding(index) {
                self.lemma_outstanding_counts(index);
            }
        }
        assert forall|index: int| !#[trigger] self.claims.has(index) by {
            if self.claims.has(index) {
                assert(self.outstanding(index));
            }
        }
    }

    pub fn new(id: RunId, heap: u32, base: usize, class: SizeClass, policy: RunPolicy) -> (run:
        Option<Self>)
        requires
            class.wf(),
            id.index > 0,
            base > 0,
            base + RUN_SPACE <= usize::MAX,
        ensures
            run is Some <==> base % RUN_SIZE == 0,
            run matches Some(run) ==> run.wf() && run.base == base && run.class == class && run.id
                == id && run.heap == heap && run.policy == policy && run.bump == 0 && run.live == 0
                && run.free@.len() == 0 && run.claims.none() && run.available
                == AvailableLink::Unlisted && !run.link.queued,
    {
        proof {
            lemma_class_bounds(class.index as int);
        }
        let stride: usize = class.size();
        let capacity: usize = RUN_SIZE / stride;
        proof {
            assert(2 <= capacity <= 8192 && capacity * stride <= 65536) by (nonlinear_arith)
                requires
                    capacity == 65536int / stride as int,
                    8 <= stride <= 32768,
            ;
        }
        match ClaimBits::byte_len(capacity) {
            None => None,
            Some(claim_bytes) => {
                let claim_offset: usize = ClaimBits::space_offset();
                if RUN_SPACE < claim_offset + claim_bytes {
                    return None;
                }
                if base % RUN_SIZE != 0 {
                    return None;
                }
                let claims = ClaimBits::new(capacity);
                let span: u32 = (capacity * stride) as u32;
                match Self::recip(stride as u32) {
                    None => None,
                    Some(recip) => Some(
                        Self {
                            base,
                            span,
                            recip,
                            stride,
                            class,
                            id,
                            heap,
                            policy,
                            free: Freelist::new(),
                            links: Words::new(),
                            live: 0,
                            capacity,
                            bump: 0,
                            available: AvailableLink::Unlisted,
                            issued: 0,
                            link: Link::new(),
                            claims,
                        },
                    ),
                }
            },
        }
    }

    /// `ceil(2^32 / stride)`. `None` when it does not fit.
    pub fn recip(stride: u32) -> (recip: Option<u32>)
        requires
            stride > 0,
        ensures
            recip is Some <==> stride > 1,
            recip matches Some(recip) ==> is_recip(recip as int, stride as int),
    {
        let whole: u64 = 0x1_0000_0000;
        let wide: u64 = stride as u64;
        let down: u64 = whole / wide;
        let up: u64 = if whole % wide == 0 {
            down
        } else {
            down + 1
        };
        proof {
            vstd::arithmetic::div_mod::lemma_fundamental_div_mod(whole as int, wide as int);
            assert(wide * down == down * wide) by (nonlinear_arith);
            assert((down + 1) * wide == down * wide + wide) by (nonlinear_arith);
            if stride > 1 {
                assert(up <= 0x8000_0000) by (nonlinear_arith)
                    requires
                        up * wide < 0x1_0000_0000 + wide,
                        wide >= 2,
                ;
            } else {
                assert(down == 0x1_0000_0000) by (nonlinear_arith)
                    requires
                        wide == 1,
                        whole == 0x1_0000_0000,
                        whole == wide * down + whole % wide,
                        0 <= whole % wide < 1,
                ;
            }
        }
        if up <= 0xffff_ffff {
            Some(up as u32)
        } else {
            None
        }
    }

    pub fn id(&self) -> (id: RunId)
        ensures
            id == self.id,
    {
        self.id
    }

    pub fn heap(&self) -> (heap: u32)
        ensures
            heap == self.heap,
    {
        self.heap
    }

    pub fn class(&self) -> (class: SizeClass)
        ensures
            class == self.class,
    {
        self.class
    }

    /// True when every block is outstanding (allocated or remote-claimed).
    pub fn is_full(&self) -> (full: bool)
        ensures
            full == (self.live == self.capacity),
    {
        self.live == self.capacity
    }

    /// Outstanding blocks on this run (allocated or remote-claimed).
    pub fn is_live(&self) -> (live: bool)
        ensures
            live == (self.live != 0),
    {
        self.live != 0
    }

    /// Empty payload that [`Self::discard`] returns to the system. Keep retains.
    pub fn is_discardable(&self) -> (discardable: bool)
        ensures
            discardable == (self.policy == RunPolicy::Discard && self.live == 0),
    {
        self.policy == RunPolicy::Discard && !self.is_live()
    }

    pub fn listed(&self) -> (listed: bool)
        ensures
            listed == (self.available != AvailableLink::Unlisted),
    {
        !self.available.is_unlisted()
    }

    /// Everything but the available link is the same.
    pub open spec fn relinked(self, other: Run, link: AvailableLink) -> bool {
        self == (Run { available: link, ..other })
    }

    /// Link onto the available list.
    pub fn list_available(&mut self, next: Option<u32>)
        requires
            old(self).available == AvailableLink::Unlisted,
        ensures
            final(self).relinked(*old(self), AvailableLink::spec_from_next(next)),
    {
        self.available = AvailableLink::from_next(next);
    }

    /// Unlink from the available list. Returns the previous successor.
    pub fn unlist_available(&mut self) -> (next: Option<u32>)
        requires
            old(self).available != AvailableLink::Unlisted,
        ensures
            next == old(self).available.spec_successor(),
            final(self).relinked(*old(self), AvailableLink::Unlisted),
    {
        let before = self.available;
        self.available = AvailableLink::Unlisted;
        before.successor()
    }

    pub fn range(&self) -> (range: AddressRange)
        ensures
            range == self.spec_range(),
    {
        AddressRange::new(self.base, RUN_SIZE)
    }

    /// `ptr` is the first block on the free list of `before`, and the others are left.
    pub open spec fn popped(self, before: Run, ptr: Option<usize>) -> bool {
        if before.free@.len() == 0 {
            ptr is None && self == before
        } else {
            ptr == Some(before.free@[0]) && self.free@ == before.free@.skip(1) && self.live
                == before.live + 1
        }
    }

    /// Hit: pop one block from the free list. Empty: the caller extends.
    pub fn allocate(&mut self) -> (ptr: Option<usize>)
        requires
            old(self).wf(),
        ensures
            final(self).wf(),
            final(self).same_shape(*old(self)),
            final(self).bump == old(self).bump,
            final(self).available == old(self).available,
            final(self).link == old(self).link,
            final(self).claims == old(self).claims,
            final(self).popped(*old(self), ptr),
            ptr matches Some(ptr) ==> ({
                let block = old(self).located(ptr);
                &&& block is Ok
                &&& ptr != 0
                &&& !old(self).outstanding(block->Ok_0.index.index as int)
                &&& forall|i: int| #[trigger]
                    final(self).outstanding(i) == (i == block->Ok_0.index.index || old(self).outstanding(i))
                &&& final(self).held(block->Ok_0.index.index as int)
            }),
    {
        let ghost before = *self;
        match self.free.pop(&self.links) {
            None => {
                assert(self.free == before.free);
                None
            },
            Some(ptr) => {
                self.live = self.live + 1;
                proof {
                    assert(before.lists(before.free@[0]));
                    let index = choose|index: int|
                        0 <= index < before.bump && #[trigger] before.block_addr(index) == ptr;
                    before.lemma_block(index);
                    assert(before.is_free(index));
                    assert forall|i: int| #[trigger] self.outstanding(i) == (i == index
                        || before.outstanding(i)) by {
                        if 0 <= i < before.bump {
                            before.lemma_block(i);
                            if i == index {
                                assert(!self.free@.contains(ptr)) by {
                                    if self.free@.contains(ptr) {
                                        let k = choose|k: int|
                                            0 <= k < self.free@.len() && self.free@[k] == ptr;
                                        assert(before.free@[k + 1] == before.free@[0]);
                                    }
                                }
                            } else {
                                let addr = before.block_addr(i) as usize;
                                if before.free@.contains(addr) {
                                    let k = choose|k: int|
                                        0 <= k < before.free@.len() && before.free@[k] == addr;
                                    assert(self.free@[k - 1] == addr);
                                }
                                if self.free@.contains(addr) {
                                    let k = choose|k: int|
                                        0 <= k < self.free@.len() && self.free@[k] == addr;
                                    assert(before.free@[k + 1] == addr);
                                }
                            }
                        }
                    }
                    assert forall|i: int|
                        0 <= i < self.free@.len() implies self.lists(#[trigger] self.free@[i]) by {
                        assert(before.lists(before.free@[i + 1]));
                        let other = choose|other: int|
                            0 <= other < before.bump && #[trigger] before.block_addr(other)
                                == before.free@[i + 1];
                        assert(self.block_addr(other) == self.free@[i]);
                    }
                    assert(!before.claims.has(index)) by {
                        if before.claims.has(index) {
                            assert(before.outstanding(index));
                        }
                    }
                }
                Some(ptr)
            },
        }
    }

    /// An extension threads at least one block and never more than are left. Where it leaves
    /// some, it threads 32, or more as far as they fit on one page.
    pub proof fn law_extension_is_a_page_or_more(self)
        requires
            self.wf(),
            self.bump < self.capacity,
        ensures
            1 <= self.batch() <= self.capacity - self.bump,
            self.batch() < self.capacity - self.bump ==> self.batch() >= 32 && (self.batch() + 1)
                * self.stride > 4096,
            self.batch() > 32 ==> self.batch() * self.stride <= 4096,
    {
        let stride = self.stride as int;
        let worth = 4096int / stride;
        let batch = self.batch();
        vstd::arithmetic::div_mod::lemma_fundamental_div_mod(4096, stride);
        vstd::arithmetic::div_mod::lemma_mod_bound(4096, stride);
        assert(worth * stride <= 4096 < (worth + 1) * stride) by (nonlinear_arith)
            requires
                4096 == stride * worth + 4096int % stride,
                0 <= 4096int % stride < stride,
        ;
        if batch < self.capacity - self.bump {
            assert((batch + 1) * stride > 4096) by (nonlinear_arith)
                requires
                    batch >= worth,
                    stride > 0,
                    4096 < (worth + 1) * stride,
            ;
        }
        if batch > 32 {
            assert(batch * stride <= 4096) by (nonlinear_arith)
                requires
                    batch <= worth,
                    stride > 0,
                    worth * stride <= 4096,
            ;
        }
    }

    /// How many fresh blocks one extension threads: a page's worth, at least 32, at
    /// most what is left.
    pub open spec fn batch(self) -> int {
        let page_worth = 4096int / self.stride as int;
        let wanted = if page_worth > 32 {
            page_worth
        } else {
            32
        };
        let left = self.capacity - self.bump;
        if wanted < left {
            wanted
        } else {
            left
        }
    }

    /// Thread one page of fresh blocks (at least 32, or what remains) onto the free
    /// list, lowest first.
    ///
    /// Returns `false` when no fresh blocks remain.
    pub fn extend(&mut self) -> (extended: bool)
        requires
            old(self).wf(),
        ensures
            final(self).wf(),
            final(self).same_shape(*old(self)),
            final(self).live == old(self).live,
            final(self).available == old(self).available,
            final(self).link == old(self).link,
            final(self).claims == old(self).claims,
            extended == (old(self).bump < old(self).capacity),
            !extended ==> *final(self) == *old(self),
            extended ==> final(self).bump == old(self).bump + old(self).batch() && old(self).batch() > 0 && final(self).free@ == Seq::new(
                old(self).batch() as nat,
                |i: int| old(self).block_addr(old(self).bump + i) as usize,
            ) + old(self).free@,
            forall|i: int| #[trigger] final(self).outstanding(i) == old(self).outstanding(i),
    {
        let ghost before = *self;
        if self.bump >= self.capacity {
            return false;
        }
        let page_worth: usize = PAGE_SIZE / self.stride;
        let wanted: usize = if page_worth > 32 {
            page_worth
        } else {
            32
        };
        let left: usize = self.capacity - self.bump;
        let count: usize = if wanted < left {
            wanted
        } else {
            left
        };
        let end: usize = self.bump + count;
        proof {
            self.lemma_block(self.bump as int);
            self.lemma_block(end - 1);
        }
        let first: usize = self.address(BlockIndex::new(self.bump));
        proof {
            self.lemma_fresh(first, count);
        }
        self.free.push_contiguous(&mut self.links, first, count, self.stride);
        self.bump = end;
        self.issued = end;
        proof {
            let fresh = Seq::new(
                count as nat,
                |i: int| before.block_addr(before.bump + i) as usize,
            );
            assert(self.free@ =~= fresh + before.free@);
            before.lemma_extended(*self, count);
        }
        true
    }

    /// Blocks past `bump` lie in the payload and are not listed.
    proof fn lemma_fresh(self, first: usize, count: usize)
        requires
            self.wf(),
            self.bump + count <= self.capacity,
            count > 0,
            first == self.block_addr(self.bump as int),
        ensures
            first + count * self.stride <= usize::MAX,
            forall|i: int|
                0 <= i < count ==> #[trigger] contiguous(first, self.stride, i)
                    == self.block_addr(self.bump + i) as usize && !self.free@.contains(
                    contiguous(first, self.stride, i),
                ),
    {
        let stride = self.stride as int;
        let bump = self.bump as int;
        self.lemma_block(bump + count - 1);
        assert(bump * stride + count * stride == (bump + count - 1) * stride + stride)
            by (nonlinear_arith);
        assert forall|i: int| 0 <= i < count implies #[trigger] contiguous(first, self.stride, i)
            == self.block_addr(bump + i) as usize && !self.free@.contains(
            contiguous(first, self.stride, i),
        ) by {
            assert(bump * stride + i * stride == (bump + i) * stride) by (nonlinear_arith);
            self.lemma_block(bump + i);
            let addr = contiguous(first, self.stride, i);
            if self.free@.contains(addr) {
                let k = choose|k: int| 0 <= k < self.free@.len() && self.free@[k] == addr;
                assert(self.lists(self.free@[k]));
                let other = choose|other: int|
                    0 <= other < self.bump && #[trigger] self.block_addr(other) == addr;
                assert(self.block_addr(other) != self.block_addr(bump + i));
            }
        }
    }

    /// Listing fresh blocks changes nothing about outstanding ones.
    proof fn lemma_extended(self, after: Run, count: usize)
        requires
            self.wf(),
            after.same_shape(self),
            self.bump + count <= self.capacity,
            after.bump == self.bump + count,
            after.free@ == Seq::new(
                count as nat,
                |i: int| self.block_addr(self.bump + i) as usize,
            ) + self.free@,
        ensures
            forall|i: int| #[trigger] after.outstanding(i) == self.outstanding(i),
            forall|i: int| 0 <= i < after.free@.len() ==> after.lists(#[trigger] after.free@[i]),
    {
        assert forall|i: int| #[trigger] after.outstanding(i) == self.outstanding(i) by {
            if 0 <= i < after.bump {
                self.lemma_block(i);
                let addr = self.block_addr(i) as usize;
                if i >= self.bump {
                    assert(after.free@[i - self.bump] == addr);
                } else {
                    if self.free@.contains(addr) {
                        let k = choose|k: int| 0 <= k < self.free@.len() && self.free@[k] == addr;
                        assert(after.free@[k + count] == addr);
                    }
                    if after.free@.contains(addr) {
                        let k = choose|k: int|
                            0 <= k < after.free@.len() && after.free@[k] == addr;
                        if k < count {
                            self.lemma_block(self.bump + k);
                            assert(self.block_addr(i) != self.block_addr(self.bump + k));
                        } else {
                            assert(self.free@[k - count] == addr);
                        }
                    }
                }
            }
        }
        assert forall|i: int| 0 <= i < after.free@.len() implies after.lists(
            #[trigger] after.free@[i],
        ) by {
            if i < count {
                self.lemma_block(self.bump + i);
                assert(after.block_addr(self.bump + i) == after.free@[i]);
            } else {
                assert(self.lists(self.free@[i - count]));
                let other = choose|other: int|
                    0 <= other < self.bump && #[trigger] self.block_addr(other) == self.free@[i
                        - count];
                assert(after.block_addr(other) == after.free@[i]);
            }
        }
    }

    /// Put an outstanding block in front of the free list.
    fn push_free(&mut self, index: usize)
        requires
            old(self).wf_but_claims(),
            old(self).outstanding(index as int),
            old(self).live > 0,
        ensures
            final(self).wf_but_claims(),
            final(self).same_shape(*old(self)),
            final(self).claims == old(self).claims,
            final(self).bump == old(self).bump,
            final(self).available == old(self).available,
            final(self).link == old(self).link,
            final(self).live == old(self).live - 1,
            final(self).free@ == seq![old(self).block_addr(index as int) as usize] + old(self).free@,
            forall|i: int| #[trigger]
                final(self).outstanding(i) == (i != index && old(self).outstanding(i)),
    {
        let ghost before = *self;
        proof {
            self.lemma_block(index as int);
        }
        let ptr: usize = self.address(BlockIndex::new(index));
        self.live = self.live - 1;
        self.free.push(&mut self.links, ptr);
        proof {
            before.lemma_push(*self, index as int);
        }
    }

    /// Well-formed except for what is claimed.
    pub open spec fn wf_but_claims(self) -> bool {
        &&& self.shape_wf()
        &&& self.bump <= self.capacity
        &&& self.issued == self.bump
        &&& self.free.wf(self.links@)
        &&& forall|i: int| 0 <= i < self.free@.len() ==> self.lists(#[trigger] self.free@[i])
        &&& self.live + self.free@.len() == self.bump
    }

    proof fn lemma_push(self, after: Run, index: int)
        requires
            self.shape_wf(),
            after.shape_wf(),
            after.same_shape(self),
            after.bump == self.bump,
            self.bump <= self.capacity,
            0 <= index < self.bump,
            forall|i: int| 0 <= i < self.free@.len() ==> self.lists(#[trigger] self.free@[i]),
            after.free@ == seq![self.block_addr(index) as usize] + self.free@,
        ensures
            forall|i: int| 0 <= i < after.free@.len() ==> after.lists(#[trigger] after.free@[i]),
            forall|i: int| #[trigger]
                after.outstanding(i) == (i != index && self.outstanding(i)),
    {
        self.lemma_block(index);
        assert forall|i: int| #[trigger] after.outstanding(i) == (i != index && self.outstanding(
            i,
        )) by {
            if 0 <= i < self.bump {
                self.lemma_block(i);
                let addr = self.block_addr(i) as usize;
                if i == index {
                    assert(after.free@[0] == addr);
                } else {
                    if self.free@.contains(addr) {
                        let k = choose|k: int| 0 <= k < self.free@.len() && self.free@[k] == addr;
                        assert(after.free@[k + 1] == addr);
                    }
                    if after.free@.contains(addr) {
                        let k = choose|k: int|
                            0 <= k < after.free@.len() && after.free@[k] == addr;
                        assert(k != 0);
                        assert(self.free@[k - 1] == addr);
                    }
                }
            }
        }
        assert forall|i: int| 0 <= i < after.free@.len() implies after.lists(
            #[trigger] after.free@[i],
        ) by {
            if i == 0 {
                assert(after.block_addr(index) == after.free@[0]);
            } else {
                assert(self.lists(self.free@[i - 1]));
                let other = choose|other: int|
                    0 <= other < self.bump && #[trigger] self.block_addr(other) == self.free@[i
                        - 1];
                assert(after.block_addr(other) == after.free@[i]);
            }
        }
    }

    /// Owner-local: live block to the free list. `Available` when the run was full.
    ///
    /// The owner frees only blocks it holds; remote frees go through
    /// [`Self::claim`] and [`Self::accept`].
    pub fn free(&mut self, ptr: usize) -> (freed: Result<RunFree, RunError>)
        requires
            old(self).wf(),
            old(self).located(ptr) matches Ok(block) ==> old(self).held(block.index.index as int),
        ensures
            final(self).wf(),
            final(self).same_shape(*old(self)),
            match old(self).located(ptr) {
                Err(error) => freed == Err::<RunFree, RunError>(error) && *final(self) == *old(self),
                Ok(block) => {
                    &&& freed == Ok::<RunFree, RunError>(
                        if old(self).live == old(self).capacity {
                            RunFree::Available
                        } else {
                            RunFree::Unchanged
                        },
                    )
                    &&& old(self).live > 0
                    &&& final(self).live == old(self).live - 1
                    &&& final(self).free@ == seq![ptr] + old(self).free@
                    &&& final(self).bump == old(self).bump
                    &&& final(self).available == old(self).available
                    &&& final(self).link == old(self).link
                    &&& final(self).claims == old(self).claims
                    &&& forall|i: int| #[trigger]
                        final(self).outstanding(i) == (i != block.index.index && old(self).outstanding(i))
                },
            },
    {
        let ghost before = *self;
        match self.locate(ptr) {
            Err(error) => Err(error),
            Ok(block) => {
                proof {
                    self.lemma_located(ptr);
                    self.lemma_outstanding_counts(block.index.index as int);
                }
                let was_full = self.live == self.capacity;
                self.push_free(block.index().get());
                Ok(
                    if was_full {
                        RunFree::Available
                    } else {
                        RunFree::Unchanged
                    },
                )
            },
        }
    }

    /// Freer: reserve remote admission before the block is reused.
    ///
    /// The freer holds the block, or repeats a claim.
    pub fn claim(&mut self, ptr: usize) -> (claimed: Result<(), RunError>)
        requires
            old(self).wf(),
            old(self).located(ptr) matches Ok(block) ==> block.index.index < old(self).bump
                ==> old(self).outstanding(block.index.index as int),
        ensures
            final(self).wf(),
            final(self).same_shape(*old(self)),
            match old(self).located(ptr) {
                Err(error) => claimed == Err::<(), RunError>(error) && *final(self) == *old(self),
                Ok(block) => if block.index.index >= old(self).bump || old(self).claims.has(
                    block.index.index as int,
                ) {
                    &&& claimed == Err::<(), RunError>(RunError::DoubleFree)
                    &&& final(self).same_but_claims(*old(self))
                    &&& forall|i: int| #[trigger]
                        final(self).claims.has(i) == old(self).claims.has(i)
                } else {
                    &&& claimed == Ok::<(), RunError>(())
                    &&& final(self).same_but_claims(*old(self))
                    &&& forall|i: int| #[trigger]
                        final(self).claims.has(i) == (i == block.index.index || old(self).claims.has(i))
                },
            },
    {
        match self.locate(ptr) {
            Err(error) => Err(error),
            Ok(block) => {
                if block.index().get() >= self.issued {
                    return Err(RunError::DoubleFree);
                }
                proof {
                    self.lemma_located(ptr);
                }
                let ghost before = *self;
                let won = self.claims.try_set(block.index());
                proof {
                    assert forall|i: int| #[trigger] self.outstanding(i) == before.outstanding(
                        i,
                    ) by {}
                    assert forall|i: int| 0 <= i < self.free@.len() implies self.lists(
                        #[trigger] self.free@[i],
                    ) by {
                        assert(before.lists(before.free@[i]));
                        let other = choose|other: int|
                            0 <= other < before.bump && #[trigger] before.block_addr(other)
                                == before.free@[i];
                        assert(self.block_addr(other) == self.free@[i]);
                    }
                }
                if !won {
                    return Err(RunError::DoubleFree);
                }
                Ok(())
            },
        }
    }

    /// Everything but the claims is the same.
    pub open spec fn same_but_claims(self, other: Run) -> bool {
        &&& self.same_shape(other)
        &&& self.free == other.free
        &&& self.links == other.links
        &&& self.live == other.live
        &&& self.bump == other.bump
        &&& self.issued == other.issued
        &&& self.available == other.available
        &&& self.link == other.link
    }

    /// Addresses of all claimed blocks, highest first.
    pub open spec fn all_claimed(self) -> Seq<usize> {
        self.claimed((self.claims.words@.len() * 64) as nat)
    }

    /// Whether accepting every claim leaves a payload to discard.
    pub open spec fn accept_discards(self) -> bool {
        self.policy == RunPolicy::Discard && self.live == self.all_claimed().len()
    }

    /// Take every claimed bit and put its block on the free list, lowest first.
    fn drain_claims(&mut self)
        requires
            old(self).wf(),
        ensures
            final(self).wf(),
            final(self).same_shape(*old(self)),
            final(self).claims.none(),
            forall|w: int|
                0 <= w < final(self).claims.words@.len() ==> #[trigger] final(self).claims.words@[w]
                    == 0,
            final(self).link == old(self).link,
            final(self).available == old(self).available,
            final(self).bump == old(self).bump,
            final(self).free@ == old(self).all_claimed() + old(self).free@,
            final(self).live == old(self).live - old(self).all_claimed().len(),
            forall|i: int| #[trigger]
                final(self).outstanding(i) == (old(self).outstanding(i) && !old(self).claims.has(
                    i,
                )),
    {
        let ghost before = *self;
        let mut word: usize = 0;
        let words: usize = self.claims.words.len();
        assert(before.claimed(0) + before.free@ =~= before.free@);
        while word < words
            invariant
                before.wf(),
                words == before.claims.words@.len(),
                word <= words,
                self.wf_but_claims(),
                self.same_shape(before),
                self.bump == before.bump,
                self.available == before.available,
                self.link == before.link,
                forall|w: int| 0 <= w < word ==> #[trigger] self.claims.words@[w] == 0,
                forall|w: int|
                    word <= w < words ==> #[trigger] self.claims.words@[w]
                        == before.claims.words@[w],
                self.free@ == before.claimed((word * 64) as nat) + before.free@,
                self.live + before.claimed((word * 64) as nat).len() == before.live,
                forall|i: int| #[trigger]
                    self.outstanding(i) == (before.outstanding(i) && !(i < word * 64
                        && before.claims.has(i))),
            decreases words - word,
        {
            let ghost undrained = *self;
            let bits: u64 = self.claims.drain_word(word);
            let ghost drained = *self;
            assert forall|i: int| #[trigger] self.outstanding(i) == (before.outstanding(i) && !(i
                < word * 64 + 0 && before.claims.has(i))) by {
                assert(self.outstanding(i) == undrained.outstanding(i));
            }
            let mut bit: u64 = 0;
            while bit < 64
                invariant
                    before.wf(),
                    words == before.claims.words@.len(),
                    word < words,
                    bit <= 64,
                    bits == before.claims.words@[word as int],
                    self.wf_but_claims(),
                    self.same_shape(before),
                    self.bump == before.bump,
                    self.available == before.available,
                    self.link == before.link,
                    self.claims == drained.claims,
                    self.free@ == before.claimed((word * 64 + bit) as nat) + before.free@,
                    self.live + before.claimed((word * 64 + bit) as nat).len() == before.live,
                    forall|i: int| #[trigger]
                        self.outstanding(i) == (before.outstanding(i) && !(i < word * 64 + bit
                            && before.claims.has(i))),
                decreases 64 - bit,
            {
                proof {
                    lemma_bits(bits, bit);
                }
                let ghost at = word * 64 + bit;
                assert(at / 64 == word && at % 64 == bit as int);
                assert(before.claims.has(at) == bit_set(bits, bit));
                if bits & (1u64 << bit) != 0 {
                    let index: usize = word * CLAIM_WORD_BITS + bit as usize;
                    proof {
                        assert(before.outstanding(at));
                        assert(self.outstanding(at));
                        self.lemma_live(at);
                    }
                    self.push_free(index);
                    assert(self.free@ =~= before.claimed((at + 1) as nat) + before.free@);
                } else {
                    assert forall|i: int| #[trigger] self.outstanding(i) == (before.outstanding(i)
                        && !(i < word * 64 + bit + 1 && before.claims.has(i))) by {
                        if i == at {
                            assert(!before.claims.has(i));
                        }
                    }
                }
                bit = bit + 1;
            }
            word = word + 1;
        }
        proof {
            assert forall|index: int| !#[trigger] self.claims.has(index) by {
                if 0 <= index < words * 64 {
                    lemma_bits(0, (index % 64) as u64);
                    assert(self.claims.words@[index / 64] == 0);
                }
            }
            assert forall|i: int| #[trigger] self.outstanding(i) == (before.outstanding(i)
                && !before.claims.has(i)) by {}
        }
    }

    /// Owner: clear the queued mark, drain every claimed bit, and put the blocks on
    /// the free list, the highest on top. An emptied payload is discarded when the
    /// policy says so.
    ///
    /// Returns `Requeue` when claims remain after the scan.
    pub fn accept(&mut self, os: &mut Os) -> (accept: Accept)
        requires
            old(self).wf(),
            old(os).wf(),
        ensures
            final(self).wf(),
            final(os).wf(),
            accept == Accept::Done,
            final(self).same_shape(*old(self)),
            final(self).claims.none(),
            !final(self).link.queued,
            final(self).available == old(self).available,
            final(self).live == old(self).live - old(self).all_claimed().len(),
            old(self).accept_discards() ==> final(self).bump == 0 && final(self).free@
                == Seq::<usize>::empty() && final(os).effects@ == old(os).effects@.push(
                Effect::Discard(old(self).spec_range()),
            ),
            !old(self).accept_discards() ==> final(self).bump == old(self).bump && final(self).free@ == old(self).all_claimed() + old(self).free@ && final(os).effects == old(os).effects,
            final(os).grant == old(os).grant,
            final(os).wanted == old(os).wanted,
            final(os).discards == old(os).discards,
            forall|i: int| #[trigger]
                final(self).outstanding(i) == (old(self).outstanding(i) && !old(self).claims.has(
                    i,
                )),
    {
        let ghost start = *self;
        self.link.clear_queued();
        let ghost idle = *self;
        proof {
            start.lemma_same_claimed(idle, (idle.claims.words@.len() * 64) as nat);
        }
        assert(idle.wf());
        self.drain_claims();
        let ghost drained = *self;
        assert forall|i: int| #[trigger] drained.outstanding(i) == (start.outstanding(i)
            && !start.claims.has(i)) by {
            assert(idle.outstanding(i) == start.outstanding(i));
        }
        if self.is_discardable() {
            self.discard(os);
            assert forall|i: int| #[trigger] self.outstanding(i) == (start.outstanding(i)
                && !start.claims.has(i)) by {
                assert(!drained.outstanding(i));
            }
        }
        assert(self.claims == drained.claims);
        if self.claims.any_set() {
            Accept::Requeue
        } else {
            Accept::Done
        }
    }

    /// Claimed blocks are listed once each, highest first.
    proof fn lemma_claimed(self, below: nat)
        requires
            self.wf(),
        ensures
            forall|i: int, j: int|
                0 <= i < j < self.claimed(below).len() ==> #[trigger] self.claimed(below)[i]
                    > #[trigger] self.claimed(below)[j],
            forall|i: int|
                0 <= i < self.claimed(below).len() ==> self.claims_at(
                    #[trigger] self.claimed(below)[i],
                    below as int,
                ),
            forall|index: int| #[trigger]
                self.claims.has(index) && index < below ==> self.claimed(below).contains(
                    self.block_addr(index) as usize,
                ),
        decreases below,
    {
        if below > 0 {
            let less = (below - 1) as nat;
            self.lemma_claimed(less);
            let rest = self.claimed(less);
            let all = self.claimed(below);
            if self.claims.has(below - 1) {
                assert(self.outstanding(below - 1));
                self.lemma_block(below - 1);
                let top = self.block_addr(below - 1) as usize;
                assert forall|j: int| 0 < j < all.len() implies top > #[trigger] all[j]
                    && self.claims_at(all[j], below as int) by {
                    assert(all[j] == rest[j - 1]);
                    assert(self.claims_at(rest[j - 1], less as int));
                    let index = choose|index: int|
                        0 <= index < less && #[trigger] self.claims.has(index)
                            && self.block_addr(index) == rest[j - 1];
                    self.lemma_block(index);
                    assert(index * self.stride < (below - 1) * self.stride) by (nonlinear_arith)
                        requires
                            index < below - 1,
                            self.stride > 0,
                    ;
                }
                assert(all[0] == top);
                assert(self.claims_at(top, below as int));
                assert forall|i: int, j: int| 0 <= i < j < all.len() implies #[trigger] all[i]
                    > #[trigger] all[j] by {
                    if i > 0 {
                        assert(all[i] == rest[i - 1] && all[j] == rest[j - 1]);
                    }
                }
                assert forall|index: int| #[trigger]
                    self.claims.has(index) && index < below implies all.contains(
                    self.block_addr(index) as usize,
                ) by {
                    if index < less {
                        let at = choose|at: int|
                            0 <= at < rest.len() && rest[at] == self.block_addr(index) as usize;
                        assert(all[at + 1] == rest[at]);
                    }
                }
            } else {
                assert forall|i: int| 0 <= i < all.len() implies self.claims_at(
                    #[trigger] all[i],
                    below as int,
                ) by {
                    assert(self.claims_at(rest[i], less as int));
                }
            }
        }
    }

    /// A claimed block below `below` starts at `addr`.
    pub open spec fn claims_at(self, addr: usize, below: int) -> bool {
        exists|index: int|
            0 <= index < below && #[trigger] self.claims.has(index) && self.block_addr(index)
                == addr
    }

    /// The claimed blocks, each once, are what the next allocations hand out after the run
    /// accepted them, the highest address first; the other free blocks follow as they were.
    pub proof fn law_accepted_blocks_come_highest_first(
        self,
        steps: Seq<Run>,
        given: Seq<Option<usize>>,
    )
        requires
            self.wf(),
            given.len() == self.all_claimed().len(),
            steps.len() == given.len() + 1,
            steps[0].free@ == self.all_claimed() + self.free@,
            forall|i: int|
                0 <= i < given.len() ==> (#[trigger] steps[i + 1]).popped(steps[i], given[i]),
        ensures
            forall|i: int|
                0 <= i < given.len() ==> #[trigger] given[i] == Some(self.all_claimed()[i]),
            forall|i: int, j: int|
                0 <= i < j < given.len() ==> (#[trigger] given[i])->0 > (#[trigger] given[j])->0,
            forall|addr: usize| #[trigger]
                given.contains(Some(addr)) == self.claims_at(
                    addr,
                    (self.claims.words@.len() * 64) as int,
                ),
            steps.last().free@ == self.free@,
    {
        let all = self.all_claimed();
        let below = (self.claims.words@.len() * 64) as nat;
        self.lemma_claimed(below);
        self.lemma_pops(steps, given, given.len());
        assert(all.skip(all.len() as int) + self.free@ =~= self.free@);
        assert forall|addr: usize| #[trigger] given.contains(Some(addr)) == self.claims_at(
            addr,
            below as int,
        ) by {
            if given.contains(Some(addr)) {
                let at = choose|at: int| 0 <= at < given.len() && given[at] == Some(addr);
                assert(self.claims_at(all[at], below as int));
            }
            if self.claims_at(addr, below as int) {
                let index = choose|index: int|
                    0 <= index < below && #[trigger] self.claims.has(index) && self.block_addr(
                        index,
                    ) == addr;
                let at = choose|at: int|
                    0 <= at < all.len() && all[at] == self.block_addr(index) as usize;
                assert(given[at] == Some(addr));
            }
        }
    }

    /// The first `count` pops take the first `count` blocks.
    proof fn lemma_pops(self, steps: Seq<Run>, given: Seq<Option<usize>>, count: nat)
        requires
            count <= given.len() == self.all_claimed().len(),
            steps.len() == given.len() + 1,
            steps[0].free@ == self.all_claimed() + self.free@,
            forall|i: int|
                0 <= i < given.len() ==> (#[trigger] steps[i + 1]).popped(steps[i], given[i]),
        ensures
            forall|i: int|
                0 <= i < count ==> #[trigger] given[i] == Some(self.all_claimed()[i]),
            steps[count as int].free@ == self.all_claimed().skip(count as int) + self.free@,
        decreases count,
    {
        let all = self.all_claimed();
        if count == 0 {
            assert(all.skip(0) =~= all);
        } else {
            self.lemma_pops(steps, given, (count - 1) as nat);
            let last = count - 1;
            assert(steps[last + 1].popped(steps[last], given[last]));
            assert(steps[last].free@[0] == all[last]);
            assert((all.skip(last) + self.free@).skip(1) =~= all.skip(count as int) + self.free@);
        }
    }

    /// Claiming one more block adds one to the claimed ones.
    pub proof fn law_claim_adds_one(self, before: Run, index: int)
        requires
            before.wf(),
            self.wf(),
            self.same_shape(before),
            0 <= index < before.bump,
            !before.claims.has(index),
            forall|i: int| #[trigger]
                self.claims.has(i) == (i == index || before.claims.has(i)),
        ensures
            self.all_claimed().len() == before.all_claimed().len() + 1,
    {
        self.lemma_claim_count(before, index, (self.claims.words@.len() * 64) as nat);
        assert(self.claims.has(index));
    }

    proof fn lemma_claim_count(self, before: Run, index: int, below: nat)
        requires
            self.same_shape(before),
            !before.claims.has(index),
            forall|i: int| #[trigger]
                self.claims.has(i) == (i == index || before.claims.has(i)),
        ensures
            self.claimed(below).len() == before.claimed(below).len() + if 0 <= index < below {
                1int
            } else {
                0int
            },
        decreases below,
    {
        if below > 0 {
            self.lemma_claim_count(before, index, (below - 1) as nat);
            assert(self.claims.has(below - 1) == (below - 1 == index || before.claims.has(
                below - 1,
            )));
        }
    }

    /// Runs with the same shape and claims have the same claimed blocks.
    pub proof fn lemma_same_claimed(self, other: Run, below: nat)
        requires
            self.same_shape(other),
            self.claims == other.claims,
        ensures
            self.claimed(below) == other.claimed(below),
        decreases below,
    {
        if below > 0 {
            self.lemma_same_claimed(other, (below - 1) as nat);
        }
    }

    /// While a block is outstanding, `live` is not zero, whatever is claimed.
    proof fn lemma_live(self, index: int)
        requires
            self.wf_but_claims(),
            self.outstanding(index),
        ensures
            self.live > 0,
    {
        let indices = self.free_indices();
        assert forall|i: int| 0 <= i < self.free@.len() implies 0 <= #[trigger] indices[i]
            < self.bump && self.block_addr(indices[i]) == self.free@[i] by {
            assert(self.lists(self.free@[i]));
        }
        assert forall|i: int, j: int|
            0 <= i < indices.len() && 0 <= j < indices.len() && i != j implies indices[i]
            != indices[j] by {
            assert(self.free@[i] != self.free@[j]);
        }
        self.lemma_block(index);
        assert forall|i: int| 0 <= i < indices.len() implies indices[i] != index by {
            assert(self.free@.contains(self.free@[i]));
        }
        lemma_pigeonhole(indices.push(index), self.bump as int);
    }

    /// Drop the payload's contents and reset the run to fresh.
    pub fn discard(&mut self, os: &mut Os)
        requires
            old(self).wf(),
            old(self).policy == RunPolicy::Discard,
            old(self).live == 0,
            old(os).wf(),
        ensures
            final(self).wf(),
            final(os).wf(),
            final(self).same_shape(*old(self)),
            final(self).bump == 0,
            final(self).live == 0,
            final(self).free@ == Seq::<usize>::empty(),
            final(self).available == old(self).available,
            final(self).link == old(self).link,
            final(self).claims == old(self).claims,
            final(self).claims.none(),
            forall|i: int| !#[trigger] final(self).outstanding(i),
            forall|i: int| !#[trigger] old(self).outstanding(i),
            final(os).effects@ == old(os).effects@.push(Effect::Discard(old(self).spec_range())),
            final(os).grant == old(os).grant,
            final(os).wanted == old(os).wanted,
            final(os).discards == old(os).discards,
    {
        proof {
            self.lemma_none_outstanding();
        }
        self.bump = 0;
        self.free.clear();
        self.issued = 0;
        let _zeroed = os.discard(self.range());
    }

    /// The block at `ptr`, when it is issued and no remote free of it is pending.
    pub fn allocated(&self, ptr: usize) -> (block: Result<Block, RunError>)
        requires
            self.wf(),
        ensures
            block == match self.located(ptr) {
                Err(error) => Err::<Block, RunError>(error),
                Ok(block) => if block.index.index >= self.bump || self.claims.has(
                    block.index.index as int,
                ) {
                    Err(RunError::DoubleFree)
                } else {
                    Ok(block)
                },
            },
    {
        match self.locate(ptr) {
            Err(error) => Err(error),
            Ok(block) => {
                if block.index().get() >= self.issued {
                    return Err(RunError::DoubleFree);
                }
                proof {
                    self.lemma_located(ptr);
                }
                if self.claims.is_set(block.index()) {
                    return Err(RunError::DoubleFree);
                }
                Ok(block)
            },
        }
    }

    /// Whether the block at `ptr` already serves `spec`.
    pub fn resize_in_place(&self, ptr: usize, spec: LayoutSpec) -> (resized: Result<bool, RunError>)
        requires
            self.wf(),
            spec.wf(),
        ensures
            resized == match self.located(ptr) {
                Err(error) => Err::<bool, RunError>(error),
                Ok(block) => if block.index.index >= self.bump || self.claims.has(
                    block.index.index as int,
                ) {
                    Err(RunError::DoubleFree)
                } else {
                    Ok(self.stride >= spec.size && ptr % spec.align == 0)
                },
            },
    {
        match self.allocated(ptr) {
            Err(error) => Err(error),
            Ok(_) => Ok(self.stride >= spec.size() && spec.is_addr_aligned(ptr)),
        }
    }

    /// The block that starts at `ptr`.
    pub fn locate(&self, ptr: usize) -> (block: Result<Block, RunError>)
        requires
            self.shape_wf(),
        ensures
            block == self.located(ptr),
    {
        if ptr < self.base {
            return Err(RunError::OutOfRange);
        }
        let offset: u64 = (ptr - self.base) as u64;
        if offset >= self.span as u64 {
            return Err(RunError::OutOfRange);
        }
        proof {
            let stride = self.stride as int;
            vstd::arithmetic::div_mod::lemma_mod_multiples_basic(self.capacity as int, stride);
            law_recip_is_exact(offset as int, stride, self.recip as int, self.span as int);
        }
        let product: u64 = offset * self.recip as u64;
        assert(product & 0xffff_ffff == product % 0x1_0000_0000 && product >> 32 == product
            / 0x1_0000_0000) by (bit_vector);
        if product & 0xffff_ffff >= self.recip as u64 {
            return Err(RunError::InvalidPointer);
        }
        let index: usize = (product >> 32) as usize;
        proof {
            assert(offset as int / self.stride as int <= offset) by (nonlinear_arith)
                requires
                    self.stride >= 1,
                    offset >= 0,
            ;
        }
        Ok(Block::new(BlockIndex::new(index), ptr))
    }

    /// Payload address of block `index`.
    pub fn address(&self, index: BlockIndex) -> (ptr: usize)
        requires
            self.shape_wf(),
            index.index < self.capacity,
        ensures
            ptr == self.block_addr(index.index as int),
    {
        proof {
            self.lemma_block(index.index as int);
        }
        let byte_offset: usize = index.get() * self.stride;
        self.base + byte_offset
    }
}

/// Equal steps from a run boundary are aligned to every power of two that divides the step.
pub proof fn lemma_stepped_aligned(base: int, index: int, stride: int, align: int)
    requires
        base >= 0,
        base % 65536 == 0,
        0 < stride <= 65536,
        index >= 0,
        vstd::arithmetic::power2::is_pow2(align),
        stride % align == 0,
    ensures
        (base + index * stride) % align == 0,
{
    vstd::arithmetic::power2::is_pow2_equiv(align);
    assert(vstd::arithmetic::power2::is_pow2_exists(align));
    let n = choose|i: nat| vstd::arithmetic::power::pow(2, i) == align;
    vstd::arithmetic::power2::lemma_pow2(n);
    assert(vstd::arithmetic::power2::pow2(n) == align);
    vstd::arithmetic::power2::lemma_pow2_pos(n);
    if align > stride {
        vstd::arithmetic::div_mod::lemma_small_mod(stride as nat, align as nat);
    }
    assert(vstd::arithmetic::power2::pow2(16) == 65536) by {
        vstd::arithmetic::power2::lemma2_to64();
    }
    if n > 16 {
        vstd::arithmetic::power2::lemma_pow2_strictly_increases(16, n);
    }
    let rest = vstd::arithmetic::power2::pow2((16 - n) as nat) as int;
    vstd::arithmetic::power2::lemma_pow2_adds(n, (16 - n) as nat);
    assert(65536 == align * rest);
    let parts = base / 65536;
    vstd::arithmetic::div_mod::lemma_fundamental_div_mod(base, 65536);
    let step = stride / align;
    vstd::arithmetic::div_mod::lemma_fundamental_div_mod(stride, align);
    assert(base + index * stride == align * (rest * parts + index * step)) by (nonlinear_arith)
        requires
            base == 65536 * parts,
            65536 == align * rest,
            stride == align * step,
    ;
    vstd::arithmetic::div_mod::lemma_mod_multiples_basic(rest * parts + index * step, align);
    assert(align * (rest * parts + index * step) == (rest * parts + index * step) * align)
        by (nonlinear_arith);
}

/// Blocks are aligned to every power of two that divides the block size.
pub proof fn lemma_block_aligned(run: Run, index: int, align: int)
    requires
        run.shape_wf(),
        0 <= index < run.capacity,
        vstd::arithmetic::power2::is_pow2(align),
        run.stride as int % align == 0,
    ensures
        run.block_addr(index) % align == 0,
{
    lemma_stepped_aligned(run.base as int, index, run.stride as int, align);
}

/// Two blocks of one run share no byte.
pub proof fn law_blocks_share_no_byte(run: Run, left: int, right: int)
    requires
        run.shape_wf(),
        0 <= left < run.capacity,
        0 <= right < run.capacity,
        left != right,
    ensures
        run.block_addr(left) + run.stride <= run.block_addr(right) || run.block_addr(right)
            + run.stride <= run.block_addr(left),
{
    let stride = run.stride as int;
    if left < right {
        assert(left * stride + stride <= right * stride) by (nonlinear_arith)
            requires
                left < right,
                stride > 0,
        ;
    } else {
        assert(right * stride + stride <= left * stride) by (nonlinear_arith)
            requires
                right < left,
                stride > 0,
        ;
    }
}

} // verus!
