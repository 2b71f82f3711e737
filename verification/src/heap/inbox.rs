//! Owner inbox: a [`List`] that holds each run or extent at most once.
//!
//! [`Inbox::queue`] pushes a node only on its idle to queued transition, so many
//! remote frees against the same run collapse into one entry. The owner drains the
//! inbox and accepts claimed work in one pass.

use vstd::prelude::*;

use super::list::List;

verus! {

/// Inbox membership of one run or extent.
///
/// Idle means the entity is on no inbox and may be pushed again; queued means it
/// is on exactly one inbox.
#[derive(Clone, Copy, Debug, PartialEq, Eq, Structural)]
pub struct Link {
    pub queued: bool,
}

impl Link {
    pub fn new() -> (link: Self)
        ensures
            !link.queued,
    {
        Self { queued: false }
    }

    /// Whether this entity is currently queued on an inbox.
    pub fn is_queued(&self) -> (queued: bool)
        ensures
            queued == self.queued,
    {
        self.queued
    }

    /// Idle to queued. `true` when this call made the transition.
    pub fn try_queue(&mut self) -> (won: bool)
        ensures
            final(self).queued,
            won == !old(self).queued,
    {
        let before = self.queued;
        self.queued = true;
        !before
    }

    /// Queued to idle. Owner-only, before scanning claims on a just-dequeued node.
    pub fn clear_queued(&mut self)
        ensures
            !final(self).queued,
    {
        self.queued = false;
    }
}

/// Remote-free inbox of distinct runs or extents, by key. Newest first.
pub struct Inbox<T> {
    pub list: List<T>,
}

impl<T> View for Inbox<T> {
    type V = Seq<T>;

    open spec fn view(&self) -> Seq<T> {
        self.list@
    }
}

impl<T> Inbox<T> {
    pub fn new() -> (inbox: Self)
        ensures
            inbox@ == Seq::<T>::empty(),
    {
        Self { list: List::new() }
    }

    /// Push `node`, whose membership is `link`, unless it is already queued. `true`
    /// when this call pushed it.
    pub fn queue(&mut self, link: &mut Link, node: T) -> (pushed: bool)
        ensures
            final(link).queued,
            pushed == !old(link).queued,
            final(self)@ == if old(link).queued {
                old(self)@
            } else {
                seq![node] + old(self)@
            },
    {
        if !link.try_queue() {
            return false;
        }
        self.list.push(node);
        true
    }

    pub fn is_empty(&self) -> (empty: bool)
        ensures
            empty == (self@.len() == 0),
    {
        self.list.is_empty()
    }

    /// Take every queued node. The owner clears `queued` when it accepts each one.
    pub fn drain(&mut self) -> (drained: Vec<T>)
        ensures
            drained@ == old(self)@,
            final(self)@ == Seq::<T>::empty(),
    {
        self.list.drain()
    }
}

} // verus!
