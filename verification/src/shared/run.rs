//! A run of equal blocks with an owner. Each block is free, live, or on its way back to
//! the owner.

use vstd::prelude::*;

use crate::heap::id::HeapId;
use crate::heap::run::RUN_SIZE;
use crate::layout::LayoutSpec;
use crate::memory::AddressRange;
use crate::size_class::{lemma_class_bounds, serves, SizeClass, SizeClasses};

verus! {

/// Who may hand out blocks of a run.
#[derive(Clone, Copy, Debug, PartialEq, Eq, Structural)]
pub enum RunOwner {
    Shared,
    Thread(HeapId),
}

#[derive(Clone, Copy, Debug, PartialEq, Eq, Structural)]
pub enum BlockState {
    Free,
    Live,
    /// Freed by another thread; the owner has not taken it back yet.
    Pending,
}

#[derive(Clone, Copy, Debug, PartialEq, Eq, Structural)]
pub enum RunHeapError {
    InvalidPointer,
    DoubleFree,
    InvalidMetadata,
}

/// Equal blocks in one mapping.
pub struct SharedRun {
    pub base: usize,
    pub class: SizeClass,
    pub owner: RunOwner,
    pub states: Vec<BlockState>,
    /// Blocks that came back, the latest last.
    pub free: Vec<usize>,
    /// Blocks from here on were never handed out.
    pub bump: usize,
}

/// How many blocks of a class a run holds.
pub open spec fn capacity_of(class: SizeClass) -> int {
    RUN_SIZE as int / class.size as int
}

/// `free` are the free blocks below `bump`, once each.
pub open spec fn free_list(states: Seq<BlockState>, free: Seq<usize>, bump: int) -> bool {
    &&& free.no_duplicates()
    &&& forall|k: int| 0 <= k < free.len() ==> #[trigger] free[k] < bump
    &&& forall|i: int|
        0 <= i < states.len() ==> ((#[trigger] states[i]) == BlockState::Free <==> i >= bump
            || free.contains(i as usize))
}

/// A block that comes back is the only new free one.
proof fn lemma_back(states: Seq<BlockState>, free: Seq<usize>, bump: int, block: usize)
    requires
        free_list(states, free, bump),
        block < bump <= states.len() <= usize::MAX,
        states[block as int] != BlockState::Free,
    ensures
        free_list(states.update(block as int, BlockState::Free), free.push(block), bump),
{
    let after = states.update(block as int, BlockState::Free);
    let list = free.push(block);
    assert(!free.contains(block));
    assert forall|i: int| 0 <= i < after.len() implies ((#[trigger] after[i]) == BlockState::Free
        <==> i >= bump || list.contains(i as usize)) by {
        assert(states[i] == states[i]);
        if free.contains(i as usize) {
            assert(list[free.index_of(i as usize)] == i as usize);
        }
        if i == block {
            assert(list[free.len() as int] == block);
        }
        if list.contains(i as usize) && i != block {
            assert(free[list.index_of(i as usize)] == i as usize);
        }
    }
}

/// Without the block that came back last, the others are the free ones.
proof fn lemma_out(states: Seq<BlockState>, free: Seq<usize>, bump: int)
    requires
        free_list(states, free, bump),
        free.len() > 0,
        bump <= states.len() <= usize::MAX,
    ensures
        free_list(
            states.update(free.last() as int, BlockState::Live),
            free.drop_last(),
            bump,
        ),
        states[free.last() as int] == BlockState::Free,
{
    let block = free.last();
    assert(free[free.len() - 1] == block);
    assert(free.contains(block));
    let after = states.update(block as int, BlockState::Live);
    let list = free.drop_last();
    assert forall|i: int| 0 <= i < after.len() implies ((#[trigger] after[i]) == BlockState::Free
        <==> i >= bump || list.contains(i as usize)) by {
        assert(states[i] == states[i]);
        if list.contains(i as usize) {
            let k = list.index_of(i as usize);
            assert(free[k] == i as usize);
            assert(free[k] != free[free.len() - 1]);
        }
        if i != block && free.contains(i as usize) {
            let k = free.index_of(i as usize);
            assert(list[k] == i as usize);
        }
    }
}

impl SharedRun {
    pub open spec fn capacity(self) -> int {
        capacity_of(self.class)
    }

    pub open spec fn spec_range(self) -> AddressRange {
        AddressRange { base: self.base, len: RUN_SIZE }
    }

    pub open spec fn wf(self) -> bool {
        &&& self.base > 0
        &&& self.base % RUN_SIZE == 0
        &&& self.base + RUN_SIZE <= usize::MAX
        &&& self.class.wf()
        &&& self.states@.len() == self.capacity()
        &&& self.bump <= self.capacity()
        &&& free_list(self.states@, self.free@, self.bump as int)
    }

    /// Where block `i` starts.
    pub open spec fn block_at(self, i: int) -> int {
        self.base + i * self.class.size
    }

    /// The block that starts at `ptr`.
    pub open spec fn block_of(self, ptr: int) -> Option<int> {
        let offset = ptr - self.base;
        let size = self.class.size as int;
        if offset >= 0 && offset % size == 0 && offset / size < self.capacity() {
            Some(offset / size)
        } else {
            None
        }
    }

    /// A live block starts at `ptr`.
    pub open spec fn live(self, ptr: int) -> bool {
        self.block_of(ptr) matches Some(i) && self.states@[i] == BlockState::Live
    }

    /// A block on its way back starts at `ptr`.
    pub open spec fn pending(self, ptr: int) -> bool {
        self.block_of(ptr) matches Some(i) && self.states@[i] == BlockState::Pending
    }

    /// As many blocks came back as were ever handed out.
    pub open spec fn empty(self) -> bool {
        self.free@.len() == self.bump
    }

    /// No block can be handed out.
    pub open spec fn full(self) -> bool {
        self.free@.len() == 0 && self.bump == self.capacity()
    }

    /// The block that is handed out next: the one that came back last, or the next new one.
    pub open spec fn next(self) -> int {
        if self.free@.len() > 0 {
            self.free@.last() as int
        } else {
            self.bump as int
        }
    }

    /// The same blocks with the same owner.
    pub open spec fn same_shape(self, before: SharedRun) -> bool {
        self.base == before.base && self.class == before.class && self.owner == before.owner
    }

    /// Same as `before` but for the state of block `i`.
    pub open spec fn one_block(self, before: SharedRun, i: int, state: BlockState) -> bool {
        self.same_shape(before) && self.states@ == before.states@.update(i, state)
    }

    /// Blocks of a run start where they should.
    pub proof fn lemma_block(self, i: int)
        requires
            self.wf(),
            0 <= i < self.capacity(),
        ensures
            self.block_of(self.block_at(i)) == Some(i),
            self.base <= self.block_at(i),
            self.block_at(i) + self.class.size <= self.base + RUN_SIZE,
            self.capacity() >= 2,
    {
        lemma_class_bounds(self.class.index as int);
        let size = self.class.size as int;
        let capacity = self.capacity();
        assert(i * size >= 0) by (nonlinear_arith)
            requires
                i >= 0,
                size > 0,
        ;
        assert((i * size) % size == 0 && (i * size) / size == i) by (nonlinear_arith)
            requires
                size > 0,
        ;
        assert(i * size + size <= RUN_SIZE as int) by (nonlinear_arith)
            requires
                i + 1 <= RUN_SIZE as int / size,
                size > 0,
        ;
        assert(capacity >= 2) by (nonlinear_arith)
            requires
                capacity == RUN_SIZE as int / size,
                0 < size <= 32768,
                RUN_SIZE == 65536,
        ;
    }

    /// A block found by its start starts there.
    pub proof fn lemma_found(self, ptr: int)
        requires
            self.wf(),
            self.block_of(ptr) is Some,
        ensures
            ({
                let i = self.block_of(ptr)->0;
                0 <= i < self.capacity() && self.block_at(i) == ptr
            }),
    {
        lemma_class_bounds(self.class.index as int);
        let size = self.class.size as int;
        let offset = ptr - self.base;
        assert(offset == (offset / size) * size + offset % size && offset / size >= 0)
            by (nonlinear_arith)
            requires
                size > 0,
                offset >= 0,
        ;
    }

    /// A run in a mapping, with no block handed out.
    pub fn new(base: usize, class: SizeClass, owner: RunOwner) -> (run: Self)
        requires
            base > 0,
            base % RUN_SIZE == 0,
            base + RUN_SIZE <= usize::MAX,
            class.wf(),
        ensures
            run.wf(),
            run.base == base,
            run.class == class,
            run.owner == owner,
            run.bump == 0,
            run.free@.len() == 0,
            forall|i: int| 0 <= i < run.capacity() ==> (#[trigger] run.states@[i]) == BlockState::Free,
            !run.full(),
    {
        proof {
            lemma_class_bounds(class.index as int);
        }
        let capacity: usize = RUN_SIZE / class.size;
        let mut states: Vec<BlockState> = Vec::new();
        let mut i: usize = 0;
        while i < capacity
            invariant
                i <= capacity,
                states@.len() == i,
                forall|k: int| 0 <= k < i ==> (#[trigger] states@[k]) == BlockState::Free,
            decreases capacity - i,
        {
            states.push(BlockState::Free);
            i = i + 1;
        }
        let run = Self { base, class, owner, states, free: Vec::new(), bump: 0 };
        proof {
            let size = class.size as int;
            assert(RUN_SIZE as int / size >= 2) by (nonlinear_arith)
                requires
                    0 < size <= 32768,
                    RUN_SIZE == 65536,
            ;
            run.lemma_block(0);
        }
        run
    }

    pub fn owner(&self) -> (owner: RunOwner)
        ensures
            owner == self.owner,
    {
        self.owner
    }

    pub fn assign_owner(&mut self, owner: RunOwner)
        requires
            old(self).wf(),
        ensures
            final(self).wf(),
            *final(self) == (SharedRun { owner, ..*old(self) }),
    {
        self.owner = owner;
    }

    pub fn is_empty(&self) -> (empty: bool)
        ensures
            empty == self.empty(),
    {
        self.free.len() == self.bump
    }

    pub fn range(&self) -> (range: AddressRange)
        ensures
            range == self.spec_range(),
    {
        AddressRange { base: self.base, len: RUN_SIZE }
    }

    pub fn is_full(&self) -> (full: bool)
        requires
            self.wf(),
        ensures
            full == self.full(),
    {
        self.free.len() == 0 && self.bump == self.states.len()
    }

    /// Hand out a block.
    pub fn allocate(&mut self) -> (ptr: Option<usize>)
        requires
            old(self).wf(),
        ensures
            final(self).wf(),
            ptr is Some == !old(self).full(),
            match ptr {
                Some(ptr) => ptr == old(self).block_at(old(self).next()) && old(self).block_of(
                    ptr as int,
                ) == Some(old(self).next()) && 0 <= old(self).next() < old(self).capacity()
                    && old(self).states@[old(self).next()] == BlockState::Free
                    && final(self).one_block(*old(self), old(self).next(), BlockState::Live) && if old(self).free@.len() > 0 {
                    final(self).free@ == old(self).free@.drop_last() && final(self).bump
                        == old(self).bump
                } else {
                    final(self).free@ == old(self).free@ && final(self).bump == old(self).bump + 1
                },
                None => *final(self) == *old(self),
            },
    {
        let ghost before = *self;
        let count: usize = self.states.len();
        if self.free.len() > 0 {
            proof {
                lemma_out(self.states@, self.free@, self.bump as int);
                assert(self.free@[self.free@.len() - 1] < self.bump);
                self.lemma_block(self.free@.last() as int);
            }
            match self.free.pop() {
                Some(block) => {
                    self.states.set(block, BlockState::Live);
                    proof {
                        assert(block as int * self.class.size >= 0) by (nonlinear_arith);
                    }
                    Some(self.base + block * self.class.size)
                },
                None => None,
            }
        } else if self.bump < count {
            let block: usize = self.bump;
            proof {
                self.lemma_block(block as int);
            }
            self.states.set(block, BlockState::Live);
            self.bump = block + 1;
            proof {
                assert(before.states@[block as int] == BlockState::Free);
                assert forall|i: int| 0 <= i < self.states@.len() implies ((
                #[trigger] self.states@[i]) == BlockState::Free <==> i >= self.bump
                    || self.free@.contains(i as usize)) by {
                    assert(before.states@[i] == before.states@[i]);
                    if self.free@.contains(block) {
                        let k = self.free@.index_of(block);
                        assert(self.free@[k] < before.bump);
                    }
                }
                assert(block as int * self.class.size >= 0) by (nonlinear_arith);
            }
            Some(self.base + block * self.class.size)
        } else {
            None
        }
    }

    /// The block that starts at `ptr`.
    pub fn index_of(&self, ptr: usize) -> (block: Option<usize>)
        requires
            self.wf(),
        ensures
            match block {
                Some(i) => self.block_of(ptr as int) == Some(i as int) && i < self.capacity(),
                None => self.block_of(ptr as int) is None,
            },
    {
        if ptr < self.base {
            return None;
        }
        let offset: usize = ptr - self.base;
        proof {
            lemma_class_bounds(self.class.index as int);
            assert(offset as int / self.class.size as int <= offset) by (nonlinear_arith)
                requires
                    self.class.size > 0,
                    offset >= 0,
            ;
        }
        match self.class.index_of(offset) {
            Some(i) => if i < self.states.len() {
                Some(i)
            } else {
                None
            },
            None => None,
        }
    }

    /// What freeing `ptr` answers.
    pub open spec fn freed(self, ptr: int) -> Result<(), RunHeapError> {
        match self.block_of(ptr) {
            None => Err(RunHeapError::InvalidPointer),
            Some(i) => if self.states@[i] == BlockState::Live {
                Ok(())
            } else {
                Err(RunHeapError::DoubleFree)
            },
        }
    }

    /// Free a live block.
    pub fn free(&mut self, ptr: usize) -> (freed: Result<(), RunHeapError>)
        requires
            old(self).wf(),
        ensures
            final(self).wf(),
            freed == old(self).freed(ptr as int),
            freed is Err ==> *final(self) == *old(self),
            freed is Ok ==> final(self).one_block(
                *old(self),
                old(self).block_of(ptr as int)->0,
                BlockState::Free,
            ) && final(self).free@ == old(self).free@.push(
                old(self).block_of(ptr as int)->0 as usize,
            ) && final(self).bump == old(self).bump && !final(self).full(),
    {
        match self.index_of(ptr) {
            Some(block) => {
                if self.states[block] != BlockState::Live {
                    return Err(RunHeapError::DoubleFree);
                }
                let count: usize = self.states.len();
                proof {
                    assert(count == self.capacity());
                    assert(self.states@[block as int] != BlockState::Free);
                    assert(block < self.bump);
                    lemma_back(self.states@, self.free@, self.bump as int, block);
                }
                self.states.set(block, BlockState::Free);
                self.free.push(block);
                Ok(())
            },
            None => Err(RunHeapError::InvalidPointer),
        }
    }

    /// Mark a live block as freed by another thread.
    pub fn mark_remote_pending(&mut self, ptr: usize) -> (marked: Result<(), RunHeapError>)
        requires
            old(self).wf(),
        ensures
            final(self).wf(),
            marked == old(self).freed(ptr as int),
            marked is Err ==> *final(self) == *old(self),
            marked is Ok ==> final(self).one_block(
                *old(self),
                old(self).block_of(ptr as int)->0,
                BlockState::Pending,
            ) && final(self).free == old(self).free && final(self).bump == old(self).bump,
    {
        match self.index_of(ptr) {
            Some(block) => {
                if self.states[block] != BlockState::Live {
                    return Err(RunHeapError::DoubleFree);
                }
                let ghost before = *self;
                self.states.set(block, BlockState::Pending);
                proof {
                    assert forall|i: int| 0 <= i < self.states@.len() implies ((
                    #[trigger] self.states@[i]) == BlockState::Free <==> i >= self.bump
                        || self.free@.contains(i as usize)) by {
                        assert(before.states@[i] == before.states@[i]);
                        assert(before.states@[block as int] != BlockState::Free);
                    }
                }
                Ok(())
            },
            None => Err(RunHeapError::InvalidPointer),
        }
    }

    /// Take a block back that another thread freed.
    pub fn drain_remote_pending(&mut self, ptr: usize) -> (drained: Result<(), RunHeapError>)
        requires
            old(self).wf(),
        ensures
            final(self).wf(),
            drained == match old(self).block_of(ptr as int) {
                None => Err::<(), RunHeapError>(RunHeapError::InvalidPointer),
                Some(i) => if old(self).states@[i] == BlockState::Pending {
                    Ok::<(), RunHeapError>(())
                } else {
                    Err::<(), RunHeapError>(RunHeapError::InvalidMetadata)
                },
            },
            drained is Err ==> *final(self) == *old(self),
            drained is Ok ==> final(self).one_block(
                *old(self),
                old(self).block_of(ptr as int)->0,
                BlockState::Free,
            ) && final(self).free@ == old(self).free@.push(
                old(self).block_of(ptr as int)->0 as usize,
            ) && final(self).bump == old(self).bump && !final(self).full(),
    {
        match self.index_of(ptr) {
            Some(block) => {
                if self.states[block] != BlockState::Pending {
                    return Err(RunHeapError::InvalidMetadata);
                }
                let count: usize = self.states.len();
                proof {
                    assert(count == self.capacity());
                    assert(self.states@[block as int] != BlockState::Free);
                    assert(block < self.bump);
                    lemma_back(self.states@, self.free@, self.bump as int, block);
                }
                self.states.set(block, BlockState::Free);
                self.free.push(block);
                Ok(())
            },
            None => Err(RunHeapError::InvalidPointer),
        }
    }

    /// The smallest class that serves a layout is the class of this run.
    pub open spec fn fits(self, spec: LayoutSpec) -> bool {
        serves(self.class.index as int, spec) && forall|i: int|
            0 <= i < self.class.index ==> !#[trigger] serves(i, spec)
    }

    /// Whether a live block stays where it is for another layout: it does when the layout
    /// has the class of the run.
    pub fn resize_in_place(&self, ptr: usize, spec: LayoutSpec) -> (stays: Result<
        bool,
        RunHeapError,
    >)
        requires
            self.wf(),
            spec.wf(),
        ensures
            match self.freed(ptr as int) {
                Ok(()) => stays == Ok::<bool, RunHeapError>(self.fits(spec)),
                Err(error) => stays == Err::<bool, RunHeapError>(error),
            },
    {
        match self.index_of(ptr) {
            Some(block) => {
                if self.states[block] != BlockState::Live {
                    return Err(RunHeapError::DoubleFree);
                }
                match SizeClasses::class_for(spec) {
                    Some(class) => {
                        proof {
                            if self.fits(spec) {
                                if class.index < self.class.index {
                                    assert(!serves(class.index as int, spec));
                                }
                                if self.class.index < class.index {
                                    assert(!serves(self.class.index as int, spec));
                                }
                            }
                        }
                        Ok(class.index == self.class.index)
                    },
                    None => {
                        assert(!serves(self.class.index as int, spec));
                        Ok(false)
                    },
                }
            },
            None => Err(RunHeapError::InvalidPointer),
        }
    }
}

/// A run as many blocks of which came back as were handed out has none out: neither a live
/// one nor one on its way back.
pub proof fn law_empty_run_has_no_block_out(run: SharedRun, block: int)
    requires
        run.wf(),
        run.empty(),
        0 <= block < run.capacity(),
    ensures
        run.states@[block] == BlockState::Free,
{
    if block < run.bump {
        let free = run.free@;
        let issued = below(run.bump as nat);
        lemma_below(run.bump as nat);
        free.unique_seq_to_set();
        assert(free.to_set().subset_of(issued)) by {
            assert forall|i: usize| free.to_set().contains(i) implies issued.contains(i) by {
                let k = choose|k: int| 0 <= k < free.len() && free[k] == i;
                assert(free[k] < run.bump);
            }
        }
        vstd::set_lib::lemma_subset_equality(free.to_set(), issued);
        assert(issued.contains(block as usize));
        assert(free.to_set().contains(block as usize));
    }
}

/// The first `count` block numbers.
spec fn below(count: nat) -> Set<usize> {
    Set::new(|i: usize| i < count)
}

proof fn lemma_below(count: nat)
    requires
        count <= usize::MAX,
    ensures
        below(count).finite(),
        below(count).len() == count,
    decreases count,
{
    if count == 0 {
        assert(below(count) =~= Set::empty());
    } else {
        lemma_below((count - 1) as nat);
        assert(below(count) =~= below((count - 1) as nat).insert((count - 1) as usize));
    }
}

/// A block that came back is the next one that is handed out.
pub proof fn law_freed_block_is_next(before: SharedRun, after: SharedRun, block: usize)
    requires
        before.wf(),
        after.wf(),
        after.free@ == before.free@.push(block),
    ensures
        after.next() == block,
        !after.full(),
{
}

} // verus!
