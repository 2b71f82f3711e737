//! A stream of words with a skewed distribution, counted; then the most frequent.

use vstd::prelude::*;
use vstd::relations::{sorted_by, total_ordering};

use crate::rng::{draw, TraceRng};
use crate::workloads::text::xor_seq;

verus! {

pub const ROUNDS: usize = 4;

pub const WORDS: usize = 4_096;

pub const ELEMENTS: usize = 16_384;

pub const VOCAB: usize = 1_024;

pub const TOP: usize = 16;

/// The stream of a round.
pub open spec fn seed_of(round: usize) -> u64 {
    0x201d_c001u64 ^ round as u64
}

/// The rank that bounds word `k`: at least one.
pub open spec fn span_of(round: usize, k: nat) -> int {
    let drawn = draw(seed_of(round), 2 * k, VOCAB as int);
    if drawn < 1 {
        1
    } else {
        drawn
    }
}

/// Rank of word `k`.
pub open spec fn rank_of(round: usize, k: nat) -> int {
    draw(seed_of(round), 2 * k + 1, span_of(round, k))
}

/// How often a rank occurs among the first `words` words.
pub open spec fn occurrences(round: usize, words: nat, rank: int) -> nat
    decreases words,
{
    if words == 0 {
        0
    } else {
        occurrences(round, (words - 1) as nat, rank) + if rank_of(round, (words - 1) as nat)
            == rank {
            1nat
        } else {
            0nat
        }
    }
}

/// A rank occurs at most once per word.
proof fn lemma_occurrences(round: usize, words: nat, rank: int)
    ensures
        occurrences(round, words, rank) <= words,
    decreases words,
{
    if words > 0 {
        lemma_occurrences(round, (words - 1) as nat, rank);
    }
}

/// The counts of the first `ranks` ranks, those that occur.
pub open spec fn counts(round: usize, words: nat, ranks: nat) -> Seq<usize>
    decreases ranks,
{
    if ranks == 0 {
        Seq::empty()
    } else {
        let earlier = counts(round, words, (ranks - 1) as nat);
        let count = occurrences(round, words, ranks - 1);
        if count > 0 {
            earlier.push(count as usize)
        } else {
            earlier
        }
    }
}

/// Largest first.
pub open spec fn no_less(left: usize, right: usize) -> bool {
    left >= right
}

/// The sum of the first `most` values.
pub open spec fn sum_first(values: Seq<usize>, most: nat) -> int
    decreases most,
{
    if most == 0 || values.len() == 0 {
        0
    } else {
        sum_first(values.drop_first(), (most - 1) as nat) + values[0]
    }
}

/// The sum of the first values, taken one by one.
proof fn lemma_sum_first(values: Seq<usize>, most: nat)
    ensures
        most < values.len() ==> sum_first(values, most + 1) == sum_first(values, most)
            + values[most as int],
        most >= values.len() ==> sum_first(values, most + 1) == sum_first(values, most),
    decreases most,
{
    if most > 0 && values.len() > 0 {
        lemma_sum_first(values.drop_first(), (most - 1) as nat);
    } else if values.len() > 0 {
        assert(sum_first(values.drop_first(), 0) == 0);
    }
}

/// What a round adds to the checksum: the occurrences of the most frequent words, and the
/// number of words.
pub open spec fn round_value(round: usize, words: nat) -> usize {
    let all = counts(round, words, VOCAB as nat);
    let sorted = all.sort_by(|left: usize, right: usize| no_less(left, right));
    sum_first(sorted, TOP as nat) as usize ^ all.len() as usize
}

/// Count the words of a round by rank.
pub fn count_words(round: usize, words: usize) -> (tally: Vec<usize>)
    requires
        words <= usize::MAX / 4,
    ensures
        tally@.len() == VOCAB,
        forall|rank: int|
            0 <= rank < VOCAB ==> #[trigger] tally@[rank] == occurrences(
                round,
                words as nat,
                rank,
            ),
{
    let mut rng = TraceRng::new(0x201d_c001u64 ^ round as u64);
    let mut tally: Vec<usize> = vec![0usize; VOCAB];
    let mut k: usize = 0;
    while k < words
        invariant
            k <= words,
            tally@.len() == VOCAB,
            rng.at(seed_of(round), 2 * k as nat),
            forall|rank: int|
                0 <= rank < VOCAB ==> #[trigger] tally@[rank] == occurrences(
                    round,
                    k as nat,
                    rank,
                ),
        decreases words - k,
    {
        let drawn: usize = rng.next_usize(VOCAB);
        let span: usize = if drawn < 1 {
            1
        } else {
            drawn
        };
        assert(rng.at(seed_of(round), (2 * k as nat + 1) as nat));
        let rank: usize = rng.next_usize(span);
        proof {
            lemma_occurrences(round, k as nat, rank as int);
            assert(rank == rank_of(round, k as nat));
        }
        let count: usize = tally[rank];
        tally.set(rank, count + 1);
        k = k + 1;
        assert(rng.at(seed_of(round), 2 * k as nat));
    }
    tally
}

/// Sort, largest first.
pub fn sort_down(values: &Vec<usize>) -> (sorted: Vec<usize>)
    ensures
        sorted@ == values@.sort_by(|left: usize, right: usize| no_less(left, right)),
        sorted@.len() == values@.len(),
{
    let ghost order = |left: usize, right: usize| no_less(left, right);
    let mut sorted: Vec<usize> = Vec::new();
    let mut i: usize = 0;
    assert(values@.take(0) =~= Seq::<usize>::empty());
    while i < values.len()
        invariant
            i <= values@.len(),
            order == (|left: usize, right: usize| no_less(left, right)),
            sorted_by(sorted@, order),
            sorted@.to_multiset() == values@.take(i as int).to_multiset(),
        decreases values@.len() - i,
    {
        let value: usize = values[i];
        let ghost before = sorted@;
        let mut at: usize = 0;
        while at < sorted.len() && sorted[at] >= value
            invariant
                at <= sorted@.len(),
                sorted@ == before,
                forall|k: int| 0 <= k < at ==> #[trigger] sorted@[k] >= value,
            decreases sorted@.len() - at,
        {
            at = at + 1;
        }
        sorted.insert(at, value);
        proof {
            broadcast use vstd::seq_lib::group_to_multiset_ensures;

            assert(sorted_by(sorted@, order)) by {
                assert forall|a: int, b: int|
                    0 <= a < b < sorted@.len() implies #[trigger] order(
                    sorted@[a],
                    sorted@[b],
                ) by {
                    if a < at && b > at {
                        assert(order(before[a], before[b - 1]));
                    } else if b < at {
                        assert(order(before[a], before[b]));
                    } else if a > at {
                        assert(order(before[a - 1], before[b - 1]));
                    } else if a == at && at < before.len() {
                        if b - 1 > at {
                            assert(order(before[at as int], before[b - 1]));
                        }
                    }
                }
            }
            assert(values@.take(i + 1) =~= values@.take(i as int).push(value));
        }
        i = i + 1;
    }
    proof {
        assert(values@.take(values@.len() as int) =~= values@);
        assert(total_ordering(order));
        values@.lemma_sort_by_ensures(order);
        let target = values@.sort_by(order);
        vstd::seq_lib::lemma_sorted_unique(sorted@, target, order);
        assert(sorted@.len() == values@.len()) by {
            broadcast use vstd::seq_lib::group_to_multiset_ensures;

            assert(sorted@.to_multiset().len() == values@.to_multiset().len());
        }
    }
    sorted
}

/// The counts that are not zero.
fn nonzero(tally: &Vec<usize>, round: usize, words: usize) -> (all: Vec<usize>)
    requires
        tally@.len() == VOCAB,
        forall|rank: int|
            0 <= rank < VOCAB ==> #[trigger] tally@[rank] == occurrences(
                round,
                words as nat,
                rank,
            ),
    ensures
        all@ == counts(round, words as nat, VOCAB as nat),
        forall|i: int| 0 <= i < all@.len() ==> #[trigger] all@[i] <= words,
{
    let mut all: Vec<usize> = Vec::new();
    let mut rank: usize = 0;
    while rank < VOCAB
        invariant
            rank <= VOCAB,
            tally@.len() == VOCAB,
            forall|rank: int|
                0 <= rank < VOCAB ==> #[trigger] tally@[rank] == occurrences(
                    round,
                    words as nat,
                    rank,
                ),
            all@ == counts(round, words as nat, rank as nat),
            forall|i: int| 0 <= i < all@.len() ==> #[trigger] all@[i] <= words,
        decreases VOCAB - rank,
    {
        proof {
            lemma_occurrences(round, words as nat, rank as int);
        }
        let count: usize = tally[rank];
        if count > 0 {
            all.push(count);
        }
        rank = rank + 1;
    }
    all
}

/// Count the words of a round and fold the most frequent.
fn count_round(round: usize, words: usize) -> (value: usize)
    requires
        words <= usize::MAX / 16,
    ensures
        value == round_value(round, words as nat),
{
    let tally = count_words(round, words);
    let all = nonzero(&tally, round, words);
    let sorted = sort_down(&all);
    let mut sum: usize = 0;
    let mut i: usize = 0;
    proof {
        let order = |left: usize, right: usize| no_less(left, right);
        assert(total_ordering(order));
        all@.lemma_sort_by_ensures(order);
        assert forall|i: int| 0 <= i < sorted@.len() implies #[trigger] sorted@[i] <= words by {
            broadcast use vstd::seq_lib::group_to_multiset_ensures;

            assert(sorted@.contains(sorted@[i]));
            assert(all@.to_multiset().count(sorted@[i]) > 0);
            assert(all@.contains(sorted@[i]));
        }
    }
    while i < TOP && i < sorted.len()
        invariant
            i <= TOP,
            i <= sorted@.len(),
            words <= usize::MAX / 16,
            forall|i: int| 0 <= i < sorted@.len() ==> #[trigger] sorted@[i] <= words,
            sum == sum_first(sorted@, i as nat),
            sum <= i * words,
        decreases TOP - i,
    {
        proof {
            lemma_sum_first(sorted@, i as nat);
            assert(i * words + words <= 16 * words) by (nonlinear_arith)
                requires
                    i + 1 <= 16,
                    words >= 0,
            ;
            assert((i + 1) * words == i * words + words) by (nonlinear_arith);
        }
        sum = sum + sorted[i];
        i = i + 1;
    }
    proof {
        lemma_sum_rest(sorted@, i as nat, TOP as nat);
    }
    sum ^ all.len()
}

/// There is nothing to add behind the end.
proof fn lemma_sum_rest(values: Seq<usize>, fewer: nat, most: nat)
    requires
        fewer <= most,
        fewer == most || fewer >= values.len(),
    ensures
        sum_first(values, fewer) == sum_first(values, most),
    decreases most - fewer,
{
    if fewer < most {
        lemma_sum_first(values, fewer);
        lemma_sum_rest(values, fewer + 1, most);
    }
}

/// The words of every round.
pub fn word_count(rounds: usize, words: usize) -> (checksum: usize)
    requires
        words <= usize::MAX / 16,
    ensures
        checksum == xor_seq(
            Seq::new(rounds as nat, |round: int| round_value(round as usize, words as nat)),
        ),
{
    let mut checksum: usize = 0;
    let mut round: usize = 0;
    let ghost value = |round: int| round_value(round as usize, words as nat);
    assert(Seq::new(0, value) =~= Seq::<usize>::empty());
    while round < rounds
        invariant
            round <= rounds,
            words <= usize::MAX / 16,
            value == |round: int| round_value(round as usize, words as nat),
            checksum == xor_seq(Seq::new(round as nat, value)),
        decreases rounds - round,
    {
        checksum = checksum ^ count_round(round, words);
        round = round + 1;
        assert(Seq::new(round as nat, value).drop_last() =~= Seq::new((round - 1) as nat, value));
    }
    checksum
}

/// `checksum` is one that the workload may return.
pub open spec fn is_checksum(checksum: usize) -> bool {
    checksum == xor_seq(
        Seq::new(ROUNDS as nat, |round: int| round_value(round as usize, WORDS as nat)),
    )
}

pub fn run() -> (checksum: usize)
    ensures
        is_checksum(checksum),
{
    word_count(ROUNDS, WORDS)
}

} // verus!
