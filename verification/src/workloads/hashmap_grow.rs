//! Session store: growth of a map without reserving, lookups, and removal of odd keys.

use std::collections::HashMap;

use vstd::prelude::*;
use vstd::string::*;
use vstd::wrapping::usize_specs::wrapping_add;

use crate::decimal::{digits_of, lemma_digits_short, push_decimal};
use crate::rng::{draw, TraceRng};
use crate::workloads::text::{lemma_literal, push_bytes};

verus! {

broadcast use vstd::std_specs::hash::group_hash_axioms;

pub const ROUNDS: usize = 8;

pub const KEYS: usize = 4_096;

pub const ELEMENTS: usize = 32_768;

/// The stream of a round.
pub open spec fn seed_of(round: usize) -> u64 {
    0x5e55_1047u64 ^ round as u64
}

/// The data of session `i`.
pub open spec fn session_text(round: usize, i: usize) -> Seq<u8> {
    "user=".spec_bytes() + digits_of((i % 1_024) as nat) + " ttl=".spec_bytes() + digits_of(
        ((i ^ round) % 8) as nat,
    )
}

/// A store holds exactly the sessions that `held` names, each under its number mixed with
/// the round.
pub open spec fn holds(
    sessions: Map<usize, Vec<u8>>,
    round: usize,
    held: spec_fn(usize) -> bool,
) -> bool {
    &&& forall|key: usize| #[trigger] sessions.contains_key(key) == held(key ^ round)
    &&& forall|key: usize| #[trigger]
        sessions.contains_key(key) ==> sessions[key]@ == session_text(round, key ^ round)
}

/// Mixing twice gives the number back.
proof fn lemma_mix(i: usize, round: usize)
    ensures
        (i ^ round) ^ round == i,
{
    assert((i ^ round) ^ round == i) by (bit_vector);
}

/// The data of session `i`.
fn build_session(round: usize, i: usize) -> (text: Vec<u8>)
    ensures
        text@ == session_text(round, i),
{
    let mut text: Vec<u8> = Vec::new();
    push_bytes(&mut text, "user=".as_bytes());
    push_decimal(&mut text, i % 1_024);
    push_bytes(&mut text, " ttl=".as_bytes());
    push_decimal(&mut text, (i ^ round) % 8);
    assert(text@ =~= session_text(round, i));
    text
}

/// Session data is short.
proof fn lemma_session_len(round: usize, i: usize)
    ensures
        session_text(round, i).len() <= 16,
{
    reveal_strlit("user=");
    reveal_strlit(" ttl=");
    lemma_literal("user=");
    lemma_literal(" ttl=");
    lemma_digits_short((i % 1_024) as nat);
    lemma_digits_short(((i ^ round) % 8) as nat);
}

/// Open sessions 0 to `keys`.
pub fn open_sessions(round: usize, keys: usize) -> (sessions: HashMap<usize, Vec<u8>>)
    ensures
        holds(sessions@, round, |i: usize| i < keys),
        sessions@.dom().finite(),
        sessions@.dom().len() == keys,
{
    let mut sessions: HashMap<usize, Vec<u8>> = HashMap::new();
    let mut i: usize = 0;
    while i < keys
        invariant
            i <= keys,
            holds(sessions@, round, |k: usize| k < i),
            sessions@.dom().finite(),
            sessions@.dom().len() == i,
        decreases keys - i,
    {
        let ghost before = sessions@;
        let text = build_session(round, i);
        sessions.insert(i ^ round, text);
        proof {
            lemma_mix(i, round);
            assert(!before.contains_key(i ^ round));
            assert(sessions@ == before.insert(i ^ round, text));
            assert forall|key: usize| #[trigger] sessions@.contains_key(key) == (key ^ round < i
                + 1) by {
                lemma_mix(key, round);
            }
            assert forall|key: usize| #[trigger] sessions@.contains_key(key) implies sessions@[key]@
                == session_text(round, key ^ round) by {
                if key != i ^ round {
                    assert(before.contains_key(key));
                }
            }
            assert(sessions@.dom() =~= before.dom().insert(i ^ round));
        }
        i = i + 1;
    }
    sessions
}

/// Probes among the first `count` that find a session.
pub open spec fn hit_count(round: usize, keys: usize, count: nat) -> nat
    decreases count,
{
    if count == 0 {
        0
    } else {
        hit_count(round, keys, (count - 1) as nat) + if draw(
            seed_of(round),
            (count - 1) as nat,
            probe_bound(keys),
        ) < keys {
            1nat
        } else {
            0nat
        }
    }
}

/// Probes are drawn below this.
pub open spec fn probe_bound(keys: usize) -> int {
    if keys == 0 {
        2
    } else {
        keys * 2
    }
}

/// Look up one drawn session for each key.
pub fn probe(sessions: &HashMap<usize, Vec<u8>>, round: usize, keys: usize) -> (hits: usize)
    requires
        keys * 2 <= usize::MAX,
        holds(sessions@, round, |i: usize| i < keys),
    ensures
        hits == hit_count(round, keys, keys as nat),
{
    let mut rng = TraceRng::new(0x5e55_1047u64 ^ round as u64);
    let bound: usize = if keys == 0 {
        2
    } else {
        keys * 2
    };
    let mut hits: usize = 0;
    let mut i: usize = 0;
    while i < keys
        invariant
            i <= keys,
            bound == probe_bound(keys),
            holds(sessions@, round, |i: usize| i < keys),
            rng.at(seed_of(round), i as nat),
            hits == hit_count(round, keys, i as nat),
            hits <= i,
        decreases keys - i,
    {
        let drawn: usize = rng.next_usize(bound);
        let key: usize = drawn ^ round;
        proof {
            lemma_mix(drawn, round);
        }
        if sessions.contains_key(&key) {
            hits = hits + 1;
        }
        i = i + 1;
    }
    hits
}

/// Close the sessions with odd numbers.
pub fn close_odd(sessions: &mut HashMap<usize, Vec<u8>>, round: usize, keys: usize)
    requires
        holds(old(sessions)@, round, |i: usize| i < keys),
        old(sessions)@.dom().finite(),
        old(sessions)@.dom().len() == keys,
    ensures
        holds(final(sessions)@, round, |i: usize| i < keys && i % 2 == 0),
        final(sessions)@.dom().len() == (keys + 1) / 2,
{
    let mut i: usize = 0;
    while i < keys
        invariant
            i <= keys,
            holds(sessions@, round, |k: usize| k < keys && (k % 2 == 0 || k >= i)),
            sessions@.dom().finite(),
            sessions@.dom().len() == keys - i / 2,
        decreases keys - i,
    {
        if i % 2 == 1 {
            let ghost before = sessions@;
            let key: usize = i ^ round;
            sessions.remove(&key);
            proof {
                lemma_mix(i, round);
                assert(before.contains_key(key));
                assert(sessions@ == before.remove(key));
                assert(sessions@.dom() =~= before.dom().remove(key));
                assert forall|other: usize| #[trigger] sessions@.contains_key(other) == (other
                    ^ round < keys && ((other ^ round) % 2 == 0 || other ^ round >= i + 1)) by {
                    lemma_mix(other, round);
                    if other ^ round == i {
                        assert(other == key);
                    }
                }
                assert forall|other: usize| #[trigger]
                    sessions@.contains_key(other) implies sessions@[other]@ == session_text(
                    round,
                    other ^ round,
                ) by {
                    assert(before.contains_key(other));
                }
            }
        }
        i = i + 1;
    }
}

/// Lengths of the sessions with even numbers below `below` together.
pub open spec fn even_len(round: usize, below: nat) -> nat
    decreases below,
{
    if below == 0 {
        0
    } else {
        even_len(round, (below - 1) as nat) + if (below - 1) % 2 == 0 {
            session_text(round, (below - 1) as usize).len()
        } else {
            0
        }
    }
}

/// Lengths of the sessions in the store together.
pub fn stored_len(sessions: &HashMap<usize, Vec<u8>>, round: usize, keys: usize) -> (len: usize)
    requires
        keys * 16 <= usize::MAX,
        holds(sessions@, round, |i: usize| i < keys && i % 2 == 0),
    ensures
        len == even_len(round, keys as nat),
{
    let mut len: usize = 0;
    let mut i: usize = 0;
    while i < keys
        invariant
            i <= keys,
            keys * 16 <= usize::MAX,
            holds(sessions@, round, |i: usize| i < keys && i % 2 == 0),
            len == even_len(round, i as nat),
            len <= i * 16,
        decreases keys - i,
    {
        let key: usize = i ^ round;
        proof {
            lemma_mix(i, round);
            lemma_session_len(round, i);
        }
        match sessions.get(&key) {
            Some(text) => {
                assert(sessions@.contains_key(key));
                len = len + text.len();
            },
            None => {},
        }
        i = i + 1;
    }
    len
}

/// The checksum of the first `rounds` rounds: hits, remaining sessions, and their data.
pub open spec fn session_checksum(rounds: nat, keys: usize) -> usize
    decreases rounds,
{
    if rounds == 0 {
        0
    } else {
        let round = (rounds - 1) as usize;
        wrapping_add(
            wrapping_add(
                wrapping_add(
                    session_checksum((rounds - 1) as nat, keys),
                    hit_count(round, keys, keys as nat) as usize,
                ),
                ((keys + 1) / 2) as usize,
            ),
            even_len(round, keys as nat) as usize,
        )
    }
}

/// A store for each round.
pub fn hashmap_grow(rounds: usize, keys: usize) -> (checksum: usize)
    requires
        keys * 16 <= usize::MAX,
    ensures
        checksum == session_checksum(rounds as nat, keys),
{
    let mut checksum: usize = 0;
    let mut round: usize = 0;
    while round < rounds
        invariant
            round <= rounds,
            keys * 16 <= usize::MAX,
            checksum == session_checksum(round as nat, keys),
        decreases rounds - round,
    {
        let mut sessions = open_sessions(round, keys);
        let hits: usize = probe(&sessions, round, keys);
        close_odd(&mut sessions, round, keys);
        checksum = checksum.wrapping_add(hits).wrapping_add(sessions.len()).wrapping_add(
            stored_len(&sessions, round, keys),
        );
        round = round + 1;
    }
    checksum
}

/// `checksum` is one that the workload may return.
pub open spec fn is_checksum(checksum: usize) -> bool {
    checksum == session_checksum(ROUNDS as nat, KEYS)
}

pub fn run() -> (checksum: usize)
    ensures
        is_checksum(checksum),
{
    hashmap_grow(ROUNDS, KEYS)
}

} // verus!
