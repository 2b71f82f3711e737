//! A cache of texts that gives up the one that was used longest ago.

use std::collections::{HashMap, VecDeque};

use vstd::prelude::*;
use vstd::string::*;

use crate::decimal::{digits_of, lemma_digits_short, push_decimal};
use crate::rng::{draw, TraceRng};
use crate::workloads::text::{byte, lemma_literal, push_bytes, xor_seq};

verus! {

broadcast use vstd::std_specs::hash::group_hash_axioms;

pub const ROUNDS: usize = 8;

pub const ACCESSES: usize = 4_096;

pub const ELEMENTS: usize = 32_768;

pub const CAPACITY: usize = 256;

/// The text of a key.
pub open spec fn value_text(key: usize) -> Seq<u8> {
    "key=".spec_bytes() + digits_of(key as nat) + " ".spec_bytes() + Seq::new(
        (64 + key % 448) as nat,
        |k: int| 120u8,
    )
}

/// Keys from the one that was used longest ago to the latest, after `key` is used: a
/// known key moves to the end; a new one takes the place of the oldest when the cache is
/// full.
pub open spec fn used(recency: Seq<usize>, key: usize) -> Seq<usize> {
    if recency.contains(key) {
        recency.remove(recency.index_of(key)).push(key)
    } else if recency.len() >= CAPACITY {
        recency.drop_first().push(key)
    } else {
        recency.push(key)
    }
}

/// A cache: texts by key, and the keys in the order of their last use.
pub struct LruCache {
    pub entries: HashMap<usize, Vec<u8>>,
    pub recency: VecDeque<usize>,
}

impl LruCache {
    /// Every key in the order of use has its text, no key stands twice, no other key has a
    /// text, and there are no more keys than the cache has room for.
    pub open spec fn wf(self) -> bool {
        &&& self.recency@.no_duplicates()
        &&& self.recency@.len() <= CAPACITY
        &&& forall|key: usize| #[trigger]
            self.entries@.contains_key(key) <==> self.recency@.contains(key)
        &&& forall|key: usize| #[trigger]
            self.entries@.contains_key(key) ==> self.entries@[key]@ == value_text(key)
    }

    pub fn new() -> (cache: Self)
        ensures
            cache.wf(),
            cache.recency@ == Seq::<usize>::empty(),
    {
        Self { entries: HashMap::new(), recency: VecDeque::new() }
    }

    /// Where a key stands in the order of use.
    fn position(&self, key: usize) -> (found: Option<usize>)
        requires
            self.recency@.no_duplicates(),
        ensures
            match found {
                Some(at) => at < self.recency@.len() && self.recency@[at as int] == key
                    && self.recency@.contains(key) && self.recency@.index_of(key) == at,
                None => !self.recency@.contains(key),
            },
    {
        let mut at: usize = 0;
        while at < self.recency.len()
            invariant
                at <= self.recency@.len(),
                self.recency@.no_duplicates(),
                forall|k: int| 0 <= k < at ==> #[trigger] self.recency@[k] != key,
            decreases self.recency@.len() - at,
        {
            if self.recency[at] == key {
                assert(self.recency@.contains(key));
                return Some(at);
            }
            at = at + 1;
        }
        None
    }

    /// Use a key. Whether the cache knew it.
    pub fn access(&mut self, key: usize, i: usize) -> (hit: bool)
        requires
            old(self).wf(),
        ensures
            final(self).wf(),
            hit == old(self).recency@.contains(key),
            final(self).recency@ == used(old(self).recency@, key),
    {
        let ghost before = self.recency@;
        let ghost texts = self.entries@;
        let mut hit = false;
        match self.position(key) {
            Some(at) => {
                self.recency.remove(at);
                hit = true;
                proof {
                    assert(self.recency@ =~= before.remove(at as int));
                    lemma_removed(before, at as int);
                }
            },
            None => {
                if self.recency.len() >= CAPACITY {
                    match self.recency.pop_front() {
                        Some(victim) => {
                            self.entries.remove(&victim);
                            proof {
                                assert(self.recency@ =~= before.remove(0));
                                assert(self.recency@ =~= before.drop_first());
                                lemma_removed(before, 0);
                            }
                        },
                        None => {},
                    }
                }
            },
        }
        let ghost between = self.recency@;
        assert(!between.contains(key));
        let mut value = match self.entries.remove(&key) {
            Some(value) => value,
            None => build_value(key),
        };
        assert(value@ == value_text(key));
        value.push(97 + byte(i) % 26);
        let _last = value.pop();
        assert(value@ =~= value_text(key));
        self.entries.insert(key, value);
        self.recency.push_back(key);
        proof {
            let after = self.recency@;
            assert(after =~= between.push(key));
            assert forall|other: usize| after.contains(other) == (between.contains(other) || other
                == key) by {
                if between.contains(other) {
                    let at = between.index_of(other);
                    assert(after[at] == other);
                }
                if other == key {
                    assert(after[between.len() as int] == key);
                }
                if after.contains(other) && other != key {
                    let at = after.index_of(other);
                    assert(between[at] == other);
                }
            }
            assert(after.no_duplicates());
        }
        hit
    }

    /// Lengths of all texts together.
    pub fn stored_len(&self) -> (len: usize)
        requires
            self.wf(),
        ensures
            len == texts_len(self.recency@),
    {
        let mut len: usize = 0;
        let mut at: usize = 0;
        assert(self.recency@.take(0) =~= Seq::<usize>::empty());
        while at < self.recency.len()
            invariant
                at <= self.recency@.len(),
                self.wf(),
                len == texts_len(self.recency@.take(at as int)),
                len <= at * 1_024,
            decreases self.recency@.len() - at,
        {
            let key: usize = self.recency[at];
            proof {
                assert(self.recency@.take(at + 1).drop_last() =~= self.recency@.take(at as int));
                assert(self.recency@.contains(key));
                assert(self.entries@.contains_key(key));
                lemma_value_len(key);
            }
            match self.entries.get(&key) {
                Some(value) => {
                    len = len + value.len();
                },
                None => {},
            }
            at = at + 1;
        }
        assert(self.recency@.take(self.recency@.len() as int) =~= self.recency@);
        len
    }

    /// How many texts there are.
    pub fn len(&self) -> (len: usize)
        requires
            self.wf(),
        ensures
            len == self.recency@.len(),
    {
        proof {
            self.recency@.unique_seq_to_set();
            assert(self.entries@.dom() =~= self.recency@.to_set());
        }
        self.entries.len()
    }
}

/// Taking a value out leaves the others, once each.
proof fn lemma_removed(keys: Seq<usize>, at: int)
    requires
        0 <= at < keys.len(),
        keys.no_duplicates(),
    ensures
        keys.remove(at).no_duplicates(),
        forall|key: usize| #[trigger]
            keys.remove(at).contains(key) <==> keys.contains(key) && key != keys[at],
{
    let rest = keys.remove(at);
    assert forall|key: usize| #[trigger] rest.contains(key) implies keys.contains(key) && key
        != keys[at] by {
        let k = rest.index_of(key);
        if k < at {
            assert(keys[k] == key);
        } else {
            assert(keys[k + 1] == key);
        }
    }
    assert forall|key: usize| keys.contains(key) && key != keys[at] implies #[trigger] rest.contains(
        key,
    ) by {
        let k = keys.index_of(key);
        if k < at {
            assert(rest[k] == key);
        } else {
            assert(rest[k - 1] == key);
        }
    }
    assert forall|a: int, b: int| 0 <= a < rest.len() && 0 <= b < rest.len() && a != b implies rest[a]
        != rest[b] by {
        let left = if a < at {
            a
        } else {
            a + 1
        };
        let right = if b < at {
            b
        } else {
            b + 1
        };
        assert(keys[left] != keys[right]);
    }
}

/// Using a key keeps the bound, makes it the latest, and loses at most the oldest.
pub proof fn law_used(recency: Seq<usize>, key: usize)
    requires
        recency.no_duplicates(),
        recency.len() <= CAPACITY,
    ensures
        used(recency, key).len() <= CAPACITY,
        used(recency, key).last() == key,
        forall|other: usize|
            recency.contains(other) && other != recency[0] ==> #[trigger] used(
                recency,
                key,
            ).contains(other),
{
    let after = used(recency, key);
    assert forall|other: usize| recency.contains(other) && other != recency[0] implies #[trigger] after.contains(
        other,
    ) by {
        if other == key {
            assert(after[after.len() - 1] == key);
        } else {
            let k = recency.index_of(other);
            if recency.contains(key) {
                let at = recency.index_of(key);
                lemma_removed(recency, at);
                assert(recency.remove(at).contains(other));
                let place = recency.remove(at).index_of(other);
                assert(after[place] == other);
            } else if recency.len() >= CAPACITY {
                assert(after[k - 1] == other);
            } else {
                assert(after[k] == other);
            }
        }
    }
}

/// Lengths of the texts of `keys` together.
pub open spec fn texts_len(keys: Seq<usize>) -> nat
    decreases keys.len(),
{
    if keys.len() == 0 {
        0
    } else {
        texts_len(keys.drop_last()) + value_text(keys.last()).len()
    }
}

/// A text is short.
proof fn lemma_value_len(key: usize)
    ensures
        value_text(key).len() <= 1_024,
{
    reveal_strlit("key=");
    reveal_strlit(" ");
    lemma_literal("key=");
    lemma_literal(" ");
    lemma_digits_short(key as nat);
}

/// The text of a key.
fn build_value(key: usize) -> (value: Vec<u8>)
    ensures
        value@ == value_text(key),
{
    let mut value: Vec<u8> = Vec::new();
    push_bytes(&mut value, "key=".as_bytes());
    push_decimal(&mut value, key);
    push_bytes(&mut value, " ".as_bytes());
    let filler: Vec<u8> = vec![120u8; 64 + key % 448];
    push_bytes(&mut value, filler.as_slice());
    assert(value@ =~= value_text(key));
    value
}

/// The stream of a round.
pub open spec fn seed_of(round: usize) -> u64 {
    0x1c0c_ac4eu64 ^ round as u64
}

/// Keys are drawn below this.
pub open spec fn keyspace(accesses: usize) -> int {
    if accesses / 2 < 1_024 {
        1_024
    } else {
        accesses as int / 2
    }
}

/// The order of use after `count` accesses.
pub open spec fn recency_after(round: usize, accesses: usize, count: nat) -> Seq<usize>
    decreases count,
{
    if count == 0 {
        Seq::empty()
    } else {
        used(
            recency_after(round, accesses, (count - 1) as nat),
            draw(seed_of(round), (count - 1) as nat, keyspace(accesses)) as usize,
        )
    }
}

/// How many of the first `count` accesses find their key.
pub open spec fn hits_after(round: usize, accesses: usize, count: nat) -> nat
    decreases count,
{
    if count == 0 {
        0
    } else {
        hits_after(round, accesses, (count - 1) as nat) + if recency_after(
            round,
            accesses,
            (count - 1) as nat,
        ).contains(draw(seed_of(round), (count - 1) as nat, keyspace(accesses)) as usize) {
            1nat
        } else {
            0nat
        }
    }
}

/// What a round adds to the checksum: hits, cached texts, and their lengths.
pub open spec fn round_value(round: usize, accesses: usize) -> usize {
    let recency = recency_after(round, accesses, accesses as nat);
    (hits_after(round, accesses, accesses as nat) as usize ^ recency.len() as usize)
        ^ texts_len(recency) as usize
}

fn cache_round(round: usize, accesses: usize) -> (value: usize)
    ensures
        value == round_value(round, accesses),
{
    let mut rng = TraceRng::new(0x1c0c_ac4eu64 ^ round as u64);
    let bound: usize = if accesses / 2 < CAPACITY * 4 {
        CAPACITY * 4
    } else {
        accesses / 2
    };
    let mut cache = LruCache::new();
    let mut hits: usize = 0;
    let mut i: usize = 0;
    while i < accesses
        invariant
            i <= accesses,
            bound == keyspace(accesses),
            cache.wf(),
            rng.at(seed_of(round), i as nat),
            cache.recency@ == recency_after(round, accesses, i as nat),
            hits == hits_after(round, accesses, i as nat),
            hits <= i,
        decreases accesses - i,
    {
        let key: usize = rng.next_usize(bound);
        if cache.access(key, i) {
            hits = hits + 1;
        }
        i = i + 1;
    }
    (hits ^ cache.len()) ^ cache.stored_len()
}

/// A cache for each round.
pub fn lru_cache(rounds: usize, accesses: usize) -> (checksum: usize)
    ensures
        checksum == xor_seq(
            Seq::new(rounds as nat, |round: int| round_value(round as usize, accesses)),
        ),
{
    let mut checksum: usize = 0;
    let mut round: usize = 0;
    let ghost value = |round: int| round_value(round as usize, accesses);
    assert(Seq::new(0, value) =~= Seq::<usize>::empty());
    while round < rounds
        invariant
            round <= rounds,
            value == |round: int| round_value(round as usize, accesses),
            checksum == xor_seq(Seq::new(round as nat, value)),
        decreases rounds - round,
    {
        checksum = checksum ^ cache_round(round, accesses);
        round = round + 1;
        assert(Seq::new(round as nat, value).drop_last() =~= Seq::new((round - 1) as nat, value));
    }
    checksum
}

/// `checksum` is one that the workload may return.
pub open spec fn is_checksum(checksum: usize) -> bool {
    checksum == xor_seq(
        Seq::new(ROUNDS as nat, |round: int| round_value(round as usize, ACCESSES)),
    )
}

pub fn run() -> (checksum: usize)
    ensures
        is_checksum(checksum),
{
    lru_cache(ROUNDS, ACCESSES)
}

} // verus!
