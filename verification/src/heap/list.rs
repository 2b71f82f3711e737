//! Last-in, first-out list of node keys.
//!
//! Any holder may `push` onto the head. One consumer `drain`s the whole list and
//! walks it. Order is newest first. Coalesce-by-owner lives on
//! [`super::inbox::Inbox`].

use vstd::prelude::*;

verus! {

/// A list of nodes, viewed newest first.
pub struct List<T> {
    /// Oldest first.
    pub nodes: Vec<T>,
}

impl<T> View for List<T> {
    type V = Seq<T>;

    open spec fn view(&self) -> Seq<T> {
        self.nodes@.reverse()
    }
}

impl<T> List<T> {
    /// The list with `node` in front.
    pub open spec fn pushed(self, before: List<T>, node: T) -> bool {
        self@ == seq![node] + before@
    }

    /// `drained` are the nodes that `before` had, newest first, and the list is empty.
    pub open spec fn emptied(self, before: List<T>, drained: Seq<T>) -> bool {
        drained == before@ && self@ == Seq::<T>::empty()
    }

    pub fn new() -> (list: Self)
        ensures
            list@ == Seq::<T>::empty(),
    {
        Self { nodes: Vec::new() }
    }

    /// Link `node` in front of the head. `node` must not already be on a list.
    pub fn push(&mut self, node: T)
        ensures
            final(self).pushed(*old(self), node),
    {
        self.nodes.push(node);
        assert(self@ =~= seq![node] + old(self)@);
    }

    pub fn is_empty(&self) -> (empty: bool)
        ensures
            empty == (self@.len() == 0),
    {
        self.nodes.len() == 0
    }

    /// Detach every node, newest first.
    pub fn drain(&mut self) -> (drained: Vec<T>)
        ensures
            final(self).emptied(*old(self), drained@),
    {
        let mut drained: Vec<T> = Vec::new();
        let ghost before = self.nodes@;
        while self.nodes.len() > 0
            invariant
                drained@.len() + self.nodes@.len() == before.len(),
                self.nodes@ == before.take(self.nodes@.len() as int),
                forall|i: int|
                    0 <= i < drained@.len() ==> drained@[i] == before[before.len() - 1 - i],
            decreases self.nodes@.len(),
        {
            match self.nodes.pop() {
                Some(node) => {
                    drained.push(node);
                },
                None => {},
            }
        }
        assert(drained@ =~= before.reverse());
        drained
    }
}

/// Two pushes then a drain give the newer node first, and leave nothing behind.
pub proof fn law_drain_is_newest_first<T>(
    list: List<T>,
    once: List<T>,
    twice: List<T>,
    empty: List<T>,
    older: T,
    newer: T,
    drained: Seq<T>,
)
    requires
        once.pushed(list, older),
        twice.pushed(once, newer),
        empty.emptied(twice, drained),
    ensures
        drained == seq![newer, older] + list@,
        empty@.len() == 0,
{
    assert(drained =~= seq![newer, older] + list@);
}

} // verus!
