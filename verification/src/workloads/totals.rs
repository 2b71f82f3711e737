//! Sums by key, in the order in which keys first occur.

use vstd::prelude::*;

use crate::workloads::text::equal_bytes;

verus! {

/// A key and what was added under it.
pub type Entry = (Seq<u8>, int);

/// Position of `key`, or the number of entries when it is new.
pub open spec fn position(totals: Seq<Entry>, key: Seq<u8>) -> int
    decreases totals.len(),
{
    if totals.len() == 0 {
        0
    } else {
        let earlier = position(totals.drop_last(), key);
        if earlier < totals.len() - 1 || totals.last().0 == key {
            earlier
        } else {
            totals.len() as int
        }
    }
}

/// `totals` with `amount` added under `key`.
pub open spec fn added_to(totals: Seq<Entry>, key: Seq<u8>, amount: int) -> Seq<Entry> {
    let at = position(totals, key);
    if at < totals.len() {
        totals.update(at, (key, totals[at].1 + amount))
    } else {
        totals.push((key, amount))
    }
}

/// What `entries` adds up to, key by key.
pub open spec fn summed(entries: Seq<Entry>) -> Seq<Entry>
    decreases entries.len(),
{
    if entries.len() == 0 {
        Seq::empty()
    } else {
        added_to(summed(entries.drop_last()), entries.last().0, entries.last().1)
    }
}

/// All amounts of `entries` together.
pub open spec fn amount_of(entries: Seq<Entry>) -> int
    decreases entries.len(),
{
    if entries.len() == 0 {
        0
    } else {
        amount_of(entries.drop_last()) + entries.last().1
    }
}

/// No amount is negative.
pub open spec fn no_debt(entries: Seq<Entry>) -> bool {
    forall|i: int| 0 <= i < entries.len() ==> 0 <= (#[trigger] entries[i]).1
}

/// The position is that of the first entry with the key.
pub proof fn lemma_position(totals: Seq<Entry>, key: Seq<u8>)
    ensures
        0 <= position(totals, key) <= totals.len(),
        forall|i: int| 0 <= i < position(totals, key) ==> (#[trigger] totals[i]).0 != key,
        position(totals, key) < totals.len() ==> totals[position(totals, key)].0 == key,
    decreases totals.len(),
{
    if totals.len() > 0 {
        lemma_position(totals.drop_last(), key);
        let earlier = position(totals.drop_last(), key);
        if earlier < totals.len() - 1 {
            assert(totals[earlier] == totals.drop_last()[earlier]);
        }
        assert forall|i: int| 0 <= i < position(totals, key) implies (#[trigger] totals[i]).0
            != key by {
            if i < totals.len() - 1 {
                assert(totals.drop_last()[i].0 != key);
            }
        }
    }
}

/// Adding one amount adds it to the whole.
proof fn lemma_amount_added(totals: Seq<Entry>, key: Seq<u8>, amount: int)
    ensures
        amount_of(added_to(totals, key, amount)) == amount_of(totals) + amount,
{
    lemma_position(totals, key);
    let at = position(totals, key);
    if at < totals.len() {
        lemma_amount_updated(totals, at, (key, totals[at].1 + amount));
    } else {
        assert(totals.push((key, amount)).drop_last() =~= totals);
    }
}

proof fn lemma_amount_updated(totals: Seq<Entry>, at: int, entry: Entry)
    requires
        0 <= at < totals.len(),
    ensures
        amount_of(totals.update(at, entry)) == amount_of(totals) - totals[at].1 + entry.1,
    decreases totals.len(),
{
    let changed = totals.update(at, entry);
    if at == totals.len() - 1 {
        assert(changed.drop_last() =~= totals.drop_last());
    } else {
        assert(changed.drop_last() =~= totals.drop_last().update(at, entry));
        lemma_amount_updated(totals.drop_last(), at, entry);
    }
}

/// Summing by key loses nothing, makes no debt, and keeps every sum within the whole.
pub proof fn law_summing_keeps_the_amount(entries: Seq<Entry>)
    requires
        no_debt(entries),
    ensures
        amount_of(summed(entries)) == amount_of(entries),
        no_debt(summed(entries)),
        0 <= amount_of(entries),
        forall|i: int|
            0 <= i < summed(entries).len() ==> (#[trigger] summed(entries)[i]).1 <= amount_of(
                entries,
            ),
        summed(entries).len() <= entries.len(),
    decreases entries.len(),
{
    if entries.len() > 0 {
        let front = entries.drop_last();
        assert(no_debt(front)) by {
            assert forall|i: int| 0 <= i < front.len() implies 0 <= (#[trigger] front[i]).1 by {
                assert(front[i] == entries[i]);
            }
        }
        law_summing_keeps_the_amount(front);
        let last = entries.last();
        assert(entries[entries.len() - 1].1 >= 0);
        lemma_amount_added(summed(front), last.0, last.1);
        lemma_position(summed(front), last.0);
    }
}

/// Sums by key.
pub struct Totals {
    pub entries: Vec<(Vec<u8>, u64)>,
}

impl View for Totals {
    type V = Seq<Entry>;

    open spec fn view(&self) -> Seq<Entry> {
        self.entries@.map_values(|entry: (Vec<u8>, u64)| (entry.0@, entry.1 as int))
    }
}

impl Totals {
    pub fn new() -> (totals: Self)
        ensures
            totals@ == Seq::<Entry>::empty(),
    {
        let totals = Self { entries: Vec::new() };
        assert(totals@ =~= Seq::<Entry>::empty());
        totals
    }

    pub fn len(&self) -> (len: usize)
        ensures
            len == self@.len(),
    {
        self.entries.len()
    }

    /// The sum at position `at`.
    pub fn amount(&self, at: usize) -> (amount: u64)
        requires
            at < self@.len(),
        ensures
            amount == self@[at as int].1,
    {
        self.entries[at].1
    }

    /// Add `amount` under `key`.
    pub fn add_to(&mut self, key: &[u8], amount: u64)
        requires
            position(old(self)@, key@) < old(self)@.len() ==> old(self)@[position(
                old(self)@,
                key@,
            )].1 + amount <= u64::MAX,
        ensures
            final(self)@ == added_to(old(self)@, key@, amount as int),
    {
        let ghost before = self@;
        proof {
            lemma_position(before, key@);
        }
        let mut at: usize = 0;
        while at < self.entries.len()
            invariant
                at <= self.entries@.len(),
                self@ == before,
                before.len() == self.entries@.len(),
                position(before, key@) < before.len() ==> before[position(before, key@)].1 + amount
                    <= u64::MAX,
                0 <= position(before, key@) <= before.len(),
                forall|i: int| 0 <= i < position(before, key@) ==> (#[trigger] before[i]).0 != key@,
                position(before, key@) < before.len() ==> before[position(before, key@)].0 == key@,
                at <= position(before, key@),
                before == old(self)@,
            decreases self.entries@.len() - at,
        {
            assert(before[at as int] == (self.entries@[at as int].0@, self.entries@[at as int].1 as int));
            if equal_bytes(self.entries[at].0.as_slice(), key) {
                assert(at == position(before, key@));
                let sum: u64 = self.entries[at].1 + amount;
                let name = copy_bytes(key);
                self.entries.set(at, (name, sum));
                assert(self@ =~= added_to(before, key@, amount as int));
                return;
            }
            at = at + 1;
        }
        let name = copy_bytes(key);
        self.entries.push((name, amount));
        assert(self@ =~= added_to(before, key@, amount as int));
    }
}

/// A copy of `bytes`.
pub fn copy_bytes(bytes: &[u8]) -> (copy: Vec<u8>)
    ensures
        copy@ == bytes@,
{
    let mut copy: Vec<u8> = Vec::new();
    crate::workloads::text::push_bytes(&mut copy, bytes);
    assert(copy@ =~= bytes@);
    copy
}

} // verus!
