//! Owner-exclusive stack of free run blocks.
//!
//! The head is a payload address, or [`END`] when the stack is empty. Each free
//! block's first word holds the next address. That word belongs to the caller again
//! after [`Freelist::pop`].

use std::collections::HashMap;

use vstd::prelude::*;

verus! {

broadcast use vstd::std_specs::hash::group_hash_axioms;

/// Empty head and end-of-stack link. A payload address is never 0.
pub const END: usize = 0;

/// The first word of every block, by block address. A word never written is zero.
pub struct Words {
    pub words: HashMap<usize, usize>,
}

/// The word at `addr`.
pub open spec fn word_at(words: Map<usize, usize>, addr: usize) -> usize {
    if words.contains_key(addr) {
        words[addr]
    } else {
        0
    }
}

impl View for Words {
    type V = Map<usize, usize>;

    open spec fn view(&self) -> Map<usize, usize> {
        self.words@
    }
}

impl Words {
    pub fn new() -> (words: Self)
        ensures
            words@ == Map::<usize, usize>::empty(),
    {
        Self { words: HashMap::new() }
    }

    pub fn read(&self, addr: usize) -> (word: usize)
        ensures
            word == word_at(self@, addr),
    {
        match self.words.get(&addr) {
            Some(word) => *word,
            None => 0,
        }
    }

    pub fn write(&mut self, addr: usize, word: usize)
        ensures
            final(self)@ == old(self)@.insert(addr, word),
    {
        self.words.insert(addr, word);
    }
}

/// Head of the free-block stack, viewed as the block addresses in pop order.
pub struct Freelist {
    pub head: usize,
    pub chain: Ghost<Seq<usize>>,
}

/// The address that stands before `chain`: its first block, or [`END`].
pub open spec fn head_of(chain: Seq<usize>) -> usize {
    if chain.len() == 0 {
        END
    } else {
        chain[0]
    }
}

/// What a walk over at most `limit` links from `raw` finds when it looks for `block`.
pub open spec fn walk(
    words: Map<usize, usize>,
    raw: usize,
    block: usize,
    limit: nat,
) -> Result<(), FreelistError>
    decreases limit,
{
    if raw == END {
        Ok(())
    } else if limit == 0 {
        Err(FreelistError::Corrupt)
    } else if raw == block {
        Err(FreelistError::Listed)
    } else {
        walk(words, word_at(words, raw), block, (limit - 1) as nat)
    }
}

impl View for Freelist {
    type V = Seq<usize>;

    open spec fn view(&self) -> Seq<usize> {
        self.chain@
    }
}

impl Freelist {
    /// The links in `words` run through the viewed blocks in order and then end; no
    /// block is listed twice, and none has the address [`END`].
    pub open spec fn wf(&self, words: Map<usize, usize>) -> bool {
        &&& self.head == head_of(self@)
        &&& self@.no_duplicates()
        &&& forall|i: int| 0 <= i < self@.len() ==> #[trigger] self@[i] != END
        &&& forall|i: int|
            0 <= i < self@.len() ==> word_at(words, #[trigger] self@[i]) == head_of(
                self@.skip(i + 1),
            )
    }

    pub fn new() -> (list: Self)
        ensures
            list@ == Seq::<usize>::empty(),
            forall|words: Map<usize, usize>| #[trigger] list.wf(words),
    {
        Self { head: END, chain: Ghost(Seq::empty()) }
    }

    /// Pop the head block. `None` when the stack is empty.
    pub fn pop(&mut self, words: &Words) -> (block: Option<usize>)
        requires
            old(self).wf(words@),
        ensures
            final(self).wf(words@),
            old(self)@.len() == 0 ==> block is None && final(self)@ == old(self)@,
            old(self)@.len() > 0 ==> block == Some(old(self)@[0]) && final(self)@ == old(self)@.skip(1),
    {
        if self.head == END {
            return None;
        }
        let block: usize = self.head;
        self.head = words.read(block);
        proof {
            let before = self.chain@;
            assert(before[0] == block);
            self.chain@ = before.skip(1);
            assert forall|i: int| 0 <= i < self@.len() implies word_at(
                words@,
                #[trigger] self@[i],
            ) == head_of(self@.skip(i + 1)) by {
                assert(self@[i] == before[i + 1]);
                assert(self@.skip(i + 1) =~= before.skip(i + 2));
            }
        }
        Some(block)
    }

    /// Push `block` in front of the head. `block` is not already on this stack.
    pub fn push(&mut self, words: &mut Words, block: usize)
        requires
            old(self).wf(old(words)@),
            block != END,
            !old(self)@.contains(block),
        ensures
            final(self).wf(final(words)@),
            final(self)@ == seq![block] + old(self)@,
            final(words)@ == old(words)@.insert(block, old(self).head),
    {
        let ghost before = self.chain@;
        words.write(block, self.head);
        self.head = block;
        proof {
            self.chain@ = seq![block] + before;
            assert forall|i: int| 0 <= i < self@.len() implies word_at(
                words@,
                #[trigger] self@[i],
            ) == head_of(self@.skip(i + 1)) by {
                if i == 0 {
                    assert(self@.skip(1) =~= before);
                } else {
                    assert(self@[i] == before[i - 1]);
                    assert(before.contains(before[i - 1]));
                    assert(self@.skip(i + 1) =~= before.skip(i));
                }
            }
        }
    }

    /// Drop every block. The payload links are left behind.
    pub fn clear(&mut self)
        ensures
            final(self)@ == Seq::<usize>::empty(),
            forall|words: Map<usize, usize>| #[trigger] final(self).wf(words),
    {
        self.head = END;
        proof {
            self.chain@ = Seq::empty();
        }
    }

    /// Link `count` adjacent blocks of `stride` bytes, starting at `first`, in
    /// front of the current head.
    ///
    /// Pop order is `first`, then each following block, then the previous head.
    pub fn push_contiguous(&mut self, words: &mut Words, first: usize, count: usize, stride: usize)
        requires
            old(self).wf(old(words)@),
            first > 0,
            stride > 0,
            first + count * stride <= usize::MAX,
            forall|i: int|
                0 <= i < count ==> !old(self)@.contains(#[trigger] contiguous(first, stride, i)),
        ensures
            final(self).wf(final(words)@),
            final(self)@ == Seq::new(count as nat, |i: int| contiguous(first, stride, i)) + old(self)@,
    {
        let ghost before = self.chain@;
        let ghost from = words@;
        let head: usize = self.head;
        let mut left: usize = count;
        assert(Seq::new(0nat, |i: int| contiguous(first, stride, count + i)) + before =~= before);
        while left > 0
            invariant
                left <= count,
                first > 0,
                stride > 0,
                first + count * stride <= usize::MAX,
                self.wf(words@),
                self@ == Seq::new((count - left) as nat, |i: int| contiguous(first, stride, left + i))
                    + before,
                forall|i: int|
                    0 <= i < count ==> !before.contains(#[trigger] contiguous(first, stride, i)),
            decreases left,
        {
            let ghost listed = self@;
            left = left - 1;
            assert(first + left * stride <= first + count * stride && left * stride <= count
                * stride) by (nonlinear_arith)
                requires
                    left <= count,
                    stride > 0,
            ;
            let block: usize = first + left * stride;
            assert(block == contiguous(first, stride, left as int));
            assert(!listed.contains(block)) by {
                if listed.contains(block) {
                    let k = choose|k: int| 0 <= k < listed.len() && listed[k] == block;
                    if k < count - left - 1 {
                        assert(contiguous(first, stride, left + 1 + k) == block);
                        assert(left * stride < (left + 1 + k) * stride <= count * stride)
                            by (nonlinear_arith)
                            requires
                                stride > 0,
                                0 <= k < count - left - 1,
                        ;
                    } else {
                        assert(before[k - (count - left - 1)] == block);
                    }
                }
            }
            self.push(words, block);
            assert(self@ =~= Seq::new(
                (count - left) as nat,
                |i: int| contiguous(first, stride, left + i),
            ) + before);
        }
        assert(self@ =~= Seq::new(count as nat, |i: int| contiguous(first, stride, i)) + before);
    }

    /// Abort path for a checked free: `Ok` when `block` is not on this stack.
    ///
    /// The first word of a listed block is [`END`] or another block. Any other
    /// word means `block` is not listed, so the walk is skipped. A chain longer
    /// than `limit` is corrupt.
    pub fn ensure_absent(
        &self,
        words: &Words,
        block: usize,
        limit: usize,
        is_block: impl Fn(usize) -> bool,
    ) -> (absent: Result<(), FreelistError>)
        requires
            forall|addr: usize| #[trigger] is_block.requires((addr,)),
        ensures
            ({
                let next = word_at(words@, block);
                let found = walk(words@, self.head, block, limit as nat);
                if next == END {
                    absent == found
                } else {
                    (absent == found && is_block.ensures((next,), true)) || (absent == Ok::<
                        (),
                        FreelistError,
                    >(()) && is_block.ensures((next,), false))
                }
            }),
    {
        let next: usize = words.read(block);
        if next != END && !is_block(next) {
            return Ok(());
        }
        let mut raw: usize = self.head;
        let mut left: usize = limit;
        while left > 0
            invariant
                left <= limit,
                walk(words@, self.head, block, limit as nat) == walk(
                    words@,
                    raw,
                    block,
                    left as nat,
                ),
                ({
                    let next = word_at(words@, block);
                    next == END || is_block.ensures((next,), true)
                }),
            decreases left,
        {
            if raw == END {
                return Ok(());
            }
            if raw == block {
                return Err(FreelistError::Listed);
            }
            raw = words.read(raw);
            left = left - 1;
        }
        if raw == END {
            Ok(())
        } else {
            Err(FreelistError::Corrupt)
        }
    }
}

/// Address of block `i` in a span of adjacent blocks.
pub open spec fn contiguous(first: usize, stride: usize, i: int) -> usize {
    (first + i * stride) as usize
}

/// `block` is already linked, or the chain does not end within the block limit.
#[derive(Clone, Copy, Debug, PartialEq, Eq, Structural)]
pub enum FreelistError {
    Listed,
    Corrupt,
}

/// On a well-formed stack the walk finds exactly the listed blocks, as long as the
/// limit covers the stack.
pub proof fn law_walk_finds_listed_blocks(
    list: Freelist,
    words: Map<usize, usize>,
    block: usize,
    limit: nat,
)
    requires
        list.wf(words),
        list@.len() <= limit,
    ensures
        walk(words, list.head, block, limit) == if list@.contains(block) {
            Err::<(), FreelistError>(FreelistError::Listed)
        } else {
            Ok::<(), FreelistError>(())
        },
{
    assert(list@.skip(0) =~= list@);
    lemma_walk_suffix(list, words, block, limit, 0);
}

/// The walk from the block at `from` finds what is listed from there on.
proof fn lemma_walk_suffix(
    list: Freelist,
    words: Map<usize, usize>,
    block: usize,
    limit: nat,
    from: int,
)
    requires
        list.wf(words),
        0 <= from <= list@.len(),
        list@.len() - from <= limit,
    ensures
        walk(words, head_of(list@.skip(from)), block, limit) == if list@.skip(from).contains(
            block,
        ) {
            Err::<(), FreelistError>(FreelistError::Listed)
        } else {
            Ok::<(), FreelistError>(())
        },
    decreases list@.len() - from,
{
    let rest = list@.skip(from);
    if from < list@.len() {
        assert(rest[0] == list@[from]);
        if list@[from] == block {
            assert(rest.contains(block));
        } else {
            lemma_walk_suffix(list, words, block, (limit - 1) as nat, from + 1);
            let tail = list@.skip(from + 1);
            assert(rest.contains(block) == tail.contains(block)) by {
                if rest.contains(block) {
                    let k = choose|k: int| 0 <= k < rest.len() && rest[k] == block;
                    assert(tail[k - 1] == block);
                }
                if tail.contains(block) {
                    let k = choose|k: int| 0 <= k < tail.len() && tail[k] == block;
                    assert(rest[k + 1] == block);
                }
            }
        }
    }
}

} // verus!
