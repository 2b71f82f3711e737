//! Workers build shards of counted keys; the aggregator merges the counts.

use vstd::prelude::*;
use vstd::string::*;

use crate::decimal::{digits_of, push_decimal};
use crate::workloads::text::{push_bytes, xor_seq};
use crate::workloads::totals::{
    amount_of,
    law_summing_keeps_the_amount,
    lemma_position,
    no_debt,
    summed,
    Entry,
    Totals,
};

verus! {

pub const THREADS: usize = 4;

pub const ROUNDS: usize = 4;

pub const KEYS: usize = 256;

pub const HITS: usize = 8;

pub const ELEMENTS: usize = 4_096;

/// Entry `key` of a worker's shard.
pub open spec fn shard_entry(round: int, worker: int, key: int) -> Entry {
    (
        "k".spec_bytes() + digits_of(round as nat) + "-".spec_bytes() + digits_of(key as nat),
        ((key + worker + round) % 17 + 1) * HITS,
    )
}

/// What a shard holds.
pub open spec fn shard_of(shard: Seq<(Vec<u8>, u64)>) -> Seq<Entry> {
    shard.map_values(|entry: (Vec<u8>, u64)| (entry.0@, entry.1 as int))
}

/// A worker's shard.
pub open spec fn shard_entries(round: int, worker: int) -> Seq<Entry> {
    Seq::new(KEYS as nat, |key: int| shard_entry(round, worker, key))
}

/// Build a worker's shard.
pub fn build_shard(round: usize, worker: usize) -> (shard: Vec<(Vec<u8>, u64)>)
    requires
        KEYS + worker + round <= usize::MAX,
    ensures
        shard_of(shard@) == shard_entries(round as int, worker as int),
{
    let mut shard: Vec<(Vec<u8>, u64)> = Vec::new();
    let mut key: usize = 0;
    while key < KEYS
        invariant
            key <= KEYS,
            KEYS + worker + round <= usize::MAX,
            shard_of(shard@) == Seq::new(
                key as nat,
                |key: int| shard_entry(round as int, worker as int, key),
            ),
        decreases KEYS - key,
    {
        let ghost before = shard@;
        let mut name: Vec<u8> = Vec::new();
        push_bytes(&mut name, "k".as_bytes());
        push_decimal(&mut name, round);
        push_bytes(&mut name, "-".as_bytes());
        push_decimal(&mut name, key);
        let count: u64 = ((key + worker + round) % 17 + 1) as u64 * HITS as u64;
        proof {
            assert(name@ =~= shard_entry(round as int, worker as int, key as int).0);
        }
        shard.push((name, count));
        proof {
            assert(shard_of(shard@) =~= shard_of(before).push((name@, count as int)));
        }
        key = key + 1;
        assert(shard_of(shard@) =~= Seq::new(
            key as nat,
            |key: int| shard_entry(round as int, worker as int, key),
        ));
    }
    assert(shard_of(shard@) =~= shard_entries(round as int, worker as int));
    shard
}

/// Merge a shard into the counts of `seen`.
fn merge(totals: &mut Totals, shard: &Vec<(Vec<u8>, u64)>, seen: Ghost<Seq<Entry>>)
    requires
        old(totals)@ == summed(seen@),
        no_debt(seen@),
        amount_of(seen@ + shard_of(shard@)) <= u64::MAX,
    ensures
        final(totals)@ == summed(seen@ + shard_of(shard@)),
{
    let ghost all = shard_of(shard@);
    let mut i: usize = 0;
    assert(seen@ + all.take(0) =~= seen@);
    while i < shard.len()
        invariant
            i <= shard@.len(),
            all == shard_of(shard@),
            no_debt(seen@),
            amount_of(seen@ + all) <= u64::MAX,
            totals@ == summed(seen@ + all.take(i as int)),
        decreases shard@.len() - i,
    {
        proof {
            let now = seen@ + all.take(i as int);
            let next = seen@ + all.take(i + 1);
            assert(all[i as int] == (shard@[i as int].0@, shard@[i as int].1 as int));
            assert(next.drop_last() =~= now);
            assert(next.last() == all[i as int]);
            assert(no_debt(seen@ + all)) by {
                assert forall|k: int| 0 <= k < (seen@ + all).len() implies 0 <= (#[trigger] (seen@
                    + all)[k]).1 by {
                    if k >= seen@.len() {
                        assert(all[k - seen@.len()].1 == shard@[k - seen@.len()].1 as int);
                    } else {
                        assert((seen@ + all)[k] == seen@[k]);
                    }
                }
            }
            assert((seen@ + all).take(seen@.len() + i + 1) =~= next);
            assert((seen@ + all).take(seen@.len() + i) =~= now);
            lemma_part(seen@ + all, seen@.len() + i + 1);
            lemma_part(seen@ + all, (seen@.len() + i) as int);
            law_summing_keeps_the_amount(now);
            lemma_position(summed(now), all[i as int].0);
        }
        totals.add_to(shard[i].0.as_slice(), shard[i].1);
        i = i + 1;
    }
    assert(all.take(all.len() as int) =~= all);
}

/// A part of the entries has no debt and does not add up to more than all.
proof fn lemma_part(entries: Seq<Entry>, count: int)
    requires
        no_debt(entries),
        0 <= count <= entries.len(),
    ensures
        no_debt(entries.take(count)),
        0 <= amount_of(entries.take(count)) <= amount_of(entries),
    decreases entries.len(),
{
    assert(no_debt(entries.take(count))) by {
        assert forall|i: int| 0 <= i < count implies 0 <= (#[trigger] entries.take(count)[i]).1 by {
            assert(entries.take(count)[i] == entries[i]);
        }
    }
    if count == entries.len() {
        assert(entries.take(count) =~= entries);
        law_summing_keeps_the_amount(entries);
    } else {
        let front = entries.drop_last();
        assert(no_debt(front)) by {
            assert forall|i: int| 0 <= i < front.len() implies 0 <= (#[trigger] front[i]).1 by {
                assert(front[i] == entries[i]);
            }
        }
        lemma_part(front, count);
        assert(front.take(count) =~= entries.take(count));
        assert(entries[entries.len() - 1].1 >= 0);
    }
}

/// What the first `workers` workers of a round post.
pub open spec fn posted(round: int, workers: nat) -> Seq<Entry>
    decreases workers,
{
    if workers == 0 {
        Seq::empty()
    } else {
        posted(round, (workers - 1) as nat) + shard_entries(round, workers - 1)
    }
}

/// The exclusive or of the counts, those that fit a machine size.
pub open spec fn xor_counts(totals: Seq<Entry>) -> usize
    decreases totals.len(),
{
    if totals.len() == 0 {
        0
    } else {
        xor_counts(totals.drop_last()) ^ if totals.last().1 <= usize::MAX {
            totals.last().1 as usize
        } else {
            0
        }
    }
}

/// The counts folded together.
pub fn fold_counts(totals: &Totals) -> (folded: usize)
    ensures
        folded == xor_counts(totals@),
{
    let mut folded: usize = 0;
    let mut i: usize = 0;
    assert(totals@.take(0) =~= Seq::<Entry>::empty());
    while i < totals.len()
        invariant
            i <= totals@.len(),
            folded == xor_counts(totals@.take(i as int)),
        decreases totals@.len() - i,
    {
        let amount: u64 = totals.amount(i);
        let size: usize = if amount <= usize::MAX as u64 {
            amount as usize
        } else {
            0
        };
        folded = folded ^ size;
        i = i + 1;
        assert(totals@.take(i as int).drop_last() =~= totals@.take(i - 1));
    }
    assert(totals@.take(totals@.len() as int) =~= totals@);
    folded
}

/// Posted counts are small.
proof fn lemma_posted(round: int, workers: nat)
    requires
        0 <= round,
    ensures
        no_debt(posted(round, workers)),
        amount_of(posted(round, workers)) <= 136 * KEYS * workers,
        posted(round, workers).len() == KEYS * workers,
    decreases workers,
{
    if workers > 0 {
        lemma_posted(round, (workers - 1) as nat);
        let earlier = posted(round, (workers - 1) as nat);
        let shard = shard_entries(round, workers - 1);
        lemma_shard_amount(earlier, round, workers - 1, KEYS as nat);
        assert(shard.take(KEYS as int) =~= shard);
    }
}

proof fn lemma_shard_amount(earlier: Seq<Entry>, round: int, worker: int, count: nat)
    requires
        count <= KEYS,
        no_debt(earlier),
        0 <= worker,
        0 <= round,
    ensures
        no_debt(earlier + shard_entries(round, worker).take(count as int)),
        amount_of(earlier + shard_entries(round, worker).take(count as int)) <= amount_of(earlier)
            + 136 * count,
    decreases count,
{
    let shard = shard_entries(round, worker);
    let now = earlier + shard.take(count as int);
    if count == 0 {
        assert(now =~= earlier);
    } else {
        lemma_shard_amount(earlier, round, worker, (count - 1) as nat);
        let before = earlier + shard.take(count - 1);
        assert(now.drop_last() =~= before);
        assert(now.last() == shard_entry(round, worker, count - 1));
        assert forall|k: int| 0 <= k < now.len() implies 0 <= (#[trigger] now[k]).1 by {
            if k < now.len() - 1 {
                assert(now[k] == before[k]);
            }
        }
    }
}

/// What a round adds to the checksum: the number of keys, and their counts.
pub open spec fn round_value(round: int) -> usize {
    let totals = summed(posted(round, THREADS as nat));
    totals.len() as usize ^ xor_counts(totals)
}

fn shard_round(round: usize) -> (value: usize)
    requires
        round < ROUNDS,
    ensures
        value == round_value(round as int),
{
    let mut totals = Totals::new();
    let mut worker: usize = 0;
    while worker < THREADS
        invariant
            worker <= THREADS,
            round < ROUNDS,
            totals@ == summed(posted(round as int, worker as nat)),
        decreases THREADS - worker,
    {
        let shard = build_shard(round, worker);
        proof {
            lemma_posted(round as int, worker as nat);
            lemma_posted(round as int, (worker + 1) as nat);
        }
        merge(&mut totals, &shard, Ghost(posted(round as int, worker as nat)));
        worker = worker + 1;
    }
    totals.len() ^ fold_counts(&totals)
}

/// `checksum` is one that the workload may return.
pub open spec fn is_checksum(checksum: usize) -> bool {
    checksum == xor_seq(Seq::new(ROUNDS as nat, |round: int| round_value(round)))
}

/// The checksum, with the shards merged worker by worker.
pub fn run() -> (checksum: usize)
    ensures
        is_checksum(checksum),
{
    let mut checksum: usize = 0;
    let mut round: usize = 0;
    let ghost value = |round: int| round_value(round);
    assert(Seq::new(0, value) =~= Seq::<usize>::empty());
    while round < ROUNDS
        invariant
            round <= ROUNDS,
            value == |round: int| round_value(round),
            checksum == xor_seq(Seq::new(round as nat, value)),
        decreases ROUNDS - round,
    {
        checksum = checksum ^ shard_round(round);
        round = round + 1;
        assert(Seq::new(round as nat, value).drop_last() =~= Seq::new((round - 1) as nat, value));
    }
    checksum
}

} // verus!
