//! A publisher sends each message to every subscriber.

use vstd::prelude::*;
use vstd::string::*;

use crate::decimal::{digits_of, push_decimal};
use crate::workloads::text::{lemma_literal, push_bytes, xor_seq};

verus! {

pub const THREADS: usize = 4;

pub const ROUNDS: usize = 4;

pub const MESSAGES: usize = 256;

pub const PAYLOAD: usize = 64;

pub const ELEMENTS: usize = 1_024;

/// How a message starts.
pub open spec fn message_start(round: usize, i: usize) -> Seq<u8> {
    "msg-".spec_bytes() + digits_of(round as nat) + "-".spec_bytes() + digits_of(i as nat)
}

/// A message: its start, filled up with one letter to the payload size.
pub open spec fn message_text(round: usize, i: usize) -> Seq<u8> {
    let start = message_start(round, i);
    let missing = if start.len() < PAYLOAD {
        (PAYLOAD - start.len()) as nat
    } else {
        0
    };
    start + Seq::new(missing, |k: int| (97 + (i + round) % 26) as u8)
}

/// Build a message.
pub fn message(round: usize, i: usize) -> (body: Vec<u8>)
    requires
        i + round <= usize::MAX,
    ensures
        body@ == message_text(round, i),
{
    let mut body: Vec<u8> = Vec::new();
    push_bytes(&mut body, "msg-".as_bytes());
    push_decimal(&mut body, round);
    push_bytes(&mut body, "-".as_bytes());
    push_decimal(&mut body, i);
    let ghost start = message_start(round, i);
    assert(body@ =~= start);
    let letter: u8 = 97 + ((i + round) % 26) as u8;
    let ghost filler = |k: int| (97 + (i + round) % 26) as u8;
    assert(Seq::new(0, filler) =~= Seq::<u8>::empty());
    while body.len() < PAYLOAD
        invariant
            filler == |k: int| (97 + (i + round) % 26) as u8,
            letter == (97 + (i + round) % 26) as u8,
            start.len() <= body@.len(),
            body@.len() <= PAYLOAD || body@.len() == start.len(),
            body@ == start + Seq::new((body@.len() - start.len()) as nat, filler),
        decreases PAYLOAD - body@.len(),
    {
        let ghost before = body@;
        body.push(letter);
        assert(body@ =~= start + Seq::new((body@.len() - start.len()) as nat, filler));
    }
    assert(body@ =~= message_text(round, i));
    body
}

/// What a subscriber makes of a message.
pub fn receive(payload: &Vec<u8>, worker: usize) -> (value: usize)
    requires
        payload@.len() > 0,
    ensures
        value == (payload@.len() as usize ^ worker) ^ payload@[0] as usize,
{
    (payload.len() ^ worker) ^ payload[0] as usize
}

/// A message of small numbers has the payload size.
pub proof fn law_messages_have_payload_size(round: usize, i: usize)
    requires
        round < 1_000_000,
        i < 1_000_000,
    ensures
        message_text(round, i).len() == PAYLOAD,
{
    reveal_strlit("msg-");
    reveal_strlit("-");
    lemma_literal("msg-");
    lemma_literal("-");
    crate::decimal::lemma_digits_short(round as nat);
    crate::decimal::lemma_digits_short(i as nat);
}

/// What a round adds to the checksum.
pub open spec fn round_value(round: usize) -> usize {
    xor_seq(Seq::new(MESSAGES as nat, |i: int| message_text(round, i as usize).len() as usize))
}

fn broadcast_round(round: usize) -> (folded: usize)
    requires
        round < ROUNDS,
    ensures
        folded == round_value(round),
{
    let mut folded: usize = 0;
    let mut i: usize = 0;
    let ghost value = |i: int| message_text(round, i as usize).len() as usize;
    assert(Seq::new(0, value) =~= Seq::<usize>::empty());
    while i < MESSAGES
        invariant
            i <= MESSAGES,
            round < ROUNDS,
            value == |i: int| message_text(round, i as usize).len() as usize,
            folded == xor_seq(Seq::new(i as nat, value)),
        decreases MESSAGES - i,
    {
        let payload = message(round, i);
        folded = folded ^ payload.len();
        i = i + 1;
        assert(Seq::new(i as nat, value).drop_last() =~= Seq::new((i - 1) as nat, value));
    }
    folded
}

/// `checksum` is one that the workload may return.
pub open spec fn is_checksum(checksum: usize) -> bool {
    checksum == xor_seq(Seq::new(ROUNDS as nat, |round: int| round_value(round as usize)))
}

/// The checksum of all messages.
pub fn run() -> (checksum: usize)
    ensures
        is_checksum(checksum),
{
    let mut checksum: usize = 0;
    let mut round: usize = 0;
    let ghost value = |round: int| round_value(round as usize);
    assert(Seq::new(0, value) =~= Seq::<usize>::empty());
    while round < ROUNDS
        invariant
            round <= ROUNDS,
            value == |round: int| round_value(round as usize),
            checksum == xor_seq(Seq::new(round as nat, value)),
        decreases ROUNDS - round,
    {
        checksum = checksum ^ broadcast_round(round);
        round = round + 1;
        assert(Seq::new(round as nat, value).drop_last() =~= Seq::new((round - 1) as nat, value));
    }
    checksum
}

} // verus!
