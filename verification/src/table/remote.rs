//! Blocks that other threads freed, linked newest first.

use vstd::prelude::*;

use crate::heap::list::List;

verus! {

/// Remotely freed blocks, viewed newest first.
pub struct RemoteBlocks {
    pub list: List<usize>,
}

impl View for RemoteBlocks {
    type V = Seq<usize>;

    open spec fn view(&self) -> Seq<usize> {
        self.list@
    }
}

impl RemoteBlocks {
    pub fn new() -> (blocks: Self)
        ensures
            blocks@ == Seq::<usize>::empty(),
    {
        Self { list: List::new() }
    }

    /// Link a block in front of the others.
    pub fn push(&mut self, ptr: usize)
        ensures
            final(self)@ == seq![ptr] + old(self)@,
    {
        self.list.push(ptr);
    }

    /// Detach all blocks, newest first. Nothing when there is none.
    pub fn take_all(&mut self) -> (blocks: Option<Vec<usize>>)
        ensures
            final(self)@ == Seq::<usize>::empty(),
            match blocks {
                Some(blocks) => blocks@ == old(self)@ && blocks@.len() > 0,
                None => old(self)@.len() == 0,
            },
    {
        if self.list.is_empty() {
            assert(self@ =~= Seq::<usize>::empty());
            None
        } else {
            Some(self.list.drain())
        }
    }
}

} // verus!
