//! Inbox that holds each entity at most once.
//!
//! Many frees against one run make one entry: only the transition from idle to queued
//! links the run. The owner takes the whole chain, newest first.

use vstd::prelude::*;

use crate::heap::list::List;
use crate::table::batch::RemoteList;

verus! {

/// Whether an entity is linked into an inbox.
pub struct Notify {
    pub queued: bool,
}

impl Notify {
    pub fn new() -> (notify: Self)
        ensures
            !notify.queued,
    {
        Self { queued: false }
    }

    /// Idle to queued. Whether this call made the transition and must link the entity.
    pub fn try_arm(&mut self) -> (won: bool)
        ensures
            final(self).queued,
            won == !old(self).queued,
    {
        let won = !self.queued;
        self.queued = true;
        won
    }

    /// Queued to idle.
    pub fn disarm(&mut self)
        ensures
            !final(self).queued,
    {
        self.queued = false;
    }
}

/// Entities that wait for their owner, viewed newest first.
pub struct Inbox<T> {
    pub list: List<T>,
}

impl<T> View for Inbox<T> {
    type V = Seq<T>;

    open spec fn view(&self) -> Seq<T> {
        self.list@
    }
}

impl<T> Inbox<T> {
    pub fn new() -> (inbox: Self)
        ensures
            inbox@ == Seq::<T>::empty(),
    {
        Self { list: List::new() }
    }

    /// Link an entity whose transition to queued the caller made.
    pub fn republish(&mut self, node: T)
        ensures
            final(self)@ == seq![node] + old(self)@,
    {
        self.list.push(node);
    }

    /// Link an entity unless it is linked. Whether it was linked now.
    pub fn push(&mut self, notify: &mut Notify, node: T) -> (pushed: bool)
        ensures
            final(notify).queued,
            pushed == !old(notify).queued,
            final(self)@ == if pushed {
                seq![node] + old(self)@
            } else {
                old(self)@
            },
    {
        if notify.try_arm() {
            self.republish(node);
            true
        } else {
            false
        }
    }

    pub fn is_empty(&self) -> (empty: bool)
        ensures
            empty == (self@.len() == 0),
    {
        self.list.is_empty()
    }

    /// Detach all entities, newest first. Nothing when there is none.
    pub fn drain(&mut self) -> (chain: Option<Vec<T>>)
        ensures
            final(self)@ == Seq::<T>::empty(),
            match chain {
                Some(chain) => chain@ == old(self)@ && chain@.len() > 0,
                None => old(self)@.len() == 0,
            },
    {
        if self.is_empty() {
            assert(self@ =~= Seq::<T>::empty());
            None
        } else {
            Some(self.list.drain())
        }
    }
}

impl Inbox<usize> {
    /// Link the blocks of a batch, in front of those that wait.
    pub fn push_batch(&mut self, list: &RemoteList)
        ensures
            final(self)@ == list.nodes@ + old(self)@,
    {
        let ghost before = self@;
        let mut i: usize = list.nodes.len();
        assert(list.nodes@.skip(list.nodes@.len() as int) + before =~= before);
        while i > 0
            invariant
                i <= list.nodes@.len(),
                self@ == list.nodes@.skip(i as int) + before,
            decreases i,
        {
            i = i - 1;
            self.list.push(list.nodes[i]);
            assert(self@ =~= list.nodes@.skip(i as int) + before);
        }
        assert(list.nodes@.skip(0) =~= list.nodes@);
    }
}

} // verus!
