//! Bounded event queue: producers push payloads, the consumer drains in order.

use std::collections::VecDeque;

use vstd::prelude::*;
use vstd::wrapping::usize_specs::wrapping_add;

use crate::rng::{biased, TraceRng};
use crate::workloads::text::{byte, xor_seq};

verus! {

pub const ROUNDS: usize = 8;

pub const EVENTS: usize = 4_096;

pub const ELEMENTS: usize = 32_768;

/// Events that may wait.
pub const WINDOW: usize = 512;

/// The stream of a round.
pub open spec fn seed_of(round: usize) -> u64 {
    0xe7e0_51d2u64 ^ round as u64
}

/// Size of the payload of event `seq`.
pub open spec fn payload_len(round: usize, seq: nat) -> int {
    biased(seed_of(round), 2 * seq, 256)
}

/// The byte that the payload of event `seq` is made of.
pub open spec fn payload_byte(round: usize, seq: nat) -> int {
    (seq as usize ^ round) as int % 256
}

/// What event `seq` adds when it is delivered.
pub open spec fn event_value(round: usize, seq: nat) -> usize {
    (seq as usize ^ payload_len(round, seq) as usize) ^ payload_byte(round, seq) as usize
}

/// What the first `count` events add, in order.
pub open spec fn digest(round: usize, count: nat) -> usize
    decreases count,
{
    if count == 0 {
        0
    } else {
        wrapping_add(digest(round, (count - 1) as nat), event_value(round, (count - 1) as nat))
    }
}

/// `event` is event `seq` of a round.
pub open spec fn is_event(event: (usize, Vec<u8>), round: usize, seq: nat) -> bool {
    &&& event.0 == seq
    &&& event.1@.len() == payload_len(round, seq)
    &&& 1 <= event.1@.len()
    &&& forall|k: int|
        0 <= k < event.1@.len() ==> #[trigger] event.1@[k] == payload_byte(round, seq)
}

/// The queue holds the events from `from` on, in order.
pub open spec fn waiting(queue: Seq<(usize, Vec<u8>)>, round: usize, from: nat) -> bool {
    forall|k: int| 0 <= k < queue.len() ==> is_event(#[trigger] queue[k], round, (from + k) as nat)
}

/// What an event adds.
pub open spec fn delivered(event: (usize, Vec<u8>)) -> usize {
    (event.0 ^ event.1@.len() as usize) ^ if event.1@.len() > 0 {
        event.1@[0] as usize
    } else {
        0
    }
}

/// Deliver the event that waits longest. Nothing when none does.
pub fn deliver(queue: &mut VecDeque<(usize, Vec<u8>)>) -> (value: usize)
    ensures
        old(queue)@.len() == 0 ==> value == 0 && final(queue)@ == old(queue)@,
        old(queue)@.len() > 0 ==> value == delivered(old(queue)@[0]) && final(queue)@
            == old(queue)@.drop_first(),
{
    let ghost before = queue@;
    match queue.pop_front() {
        Some((seq, payload)) => {
            assert(queue@ =~= before.drop_first());
            let first: usize = if payload.len() > 0 {
                payload[0] as usize
            } else {
                0
            };
            (seq ^ payload.len()) ^ first
        },
        None => 0,
    }
}

/// Deliver the front of a queue of this round's events.
fn deliver_next(
    queue: &mut VecDeque<(usize, Vec<u8>)>,
    digested: usize,
    round: usize,
    from: Ghost<nat>,
) -> (next: usize)
    requires
        old(queue)@.len() > 0,
        waiting(old(queue)@, round, from@),
        digested == digest(round, from@),
    ensures
        final(queue)@ == old(queue)@.drop_first(),
        waiting(final(queue)@, round, from@ + 1),
        next == digest(round, from@ + 1),
{
    let ghost before = queue@;
    let value: usize = deliver(queue);
    proof {
        assert(is_event(before[0], round, from@));
        assert(value == event_value(round, from@));
        assert forall|k: int| 0 <= k < queue@.len() implies is_event(
            #[trigger] queue@[k],
            round,
            (from@ + 1 + k) as nat,
        ) by {
            assert(queue@[k] == before[k + 1]);
        }
    }
    digested.wrapping_add(value)
}

/// `vec![byte; len]`.
fn payload(value: u8, len: usize) -> (bytes: Vec<u8>)
    ensures
        bytes@.len() == len,
        forall|k: int| 0 <= k < len ==> #[trigger] bytes@[k] == value,
{
    vec![value; len]
}

/// Run the events of a round: what they add, and the queue, which is empty at the end and
/// never holds more than the window.
pub fn run_events(round: usize, events: usize) -> (result: (usize, VecDeque<(usize, Vec<u8>)>))
    ensures
        result.0 == digest(round, events as nat),
        result.1@.len() == 0,
{
    let mut rng = TraceRng::new(0xe7e0_51d2u64 ^ round as u64);
    let mut queue: VecDeque<(usize, Vec<u8>)> = VecDeque::new();
    let mut digested: usize = 0;
    let mut seq: usize = 0;
    let ghost mut gone: nat = 0;
    while seq < events
        invariant
            seq <= events,
            rng.at(seed_of(round), 2 * seq as nat),
            gone + queue@.len() == seq,
            queue@.len() <= WINDOW,
            waiting(queue@, round, gone),
            digested == digest(round, gone),
        decreases events - seq,
    {
        let len: usize = rng.biased_size(256);
        let bytes = payload(byte(seq ^ round), len);
        queue.push_back((seq, bytes));
        assert(waiting(queue@, round, gone)) by {
            assert(is_event((seq, bytes), round, seq as nat));
        }
        while queue.len() > WINDOW
            invariant
                gone + queue@.len() == seq + 1,
                waiting(queue@, round, gone),
                digested == digest(round, gone),
            decreases queue@.len(),
        {
            digested = deliver_next(&mut queue, digested, round, Ghost(gone));
            proof {
                gone = gone + 1;
            }
        }
        seq = seq + 1;
    }
    while queue.len() > 0
        invariant
            gone + queue@.len() == events,
            waiting(queue@, round, gone),
            digested == digest(round, gone),
        decreases queue@.len(),
    {
        digested = deliver_next(&mut queue, digested, round, Ghost(gone));
        proof {
            gone = gone + 1;
        }
    }
    (digested, queue)
}

/// `VecDeque::capacity`: room without another allocation, at least what is held. How
/// much more is up to the allocator.
#[verifier::external_body]
fn capacity(queue: &VecDeque<(usize, Vec<u8>)>) -> (room: usize)
    ensures
        room >= queue@.len(),
{
    queue.capacity()
}

/// What a round adds to the checksum, with a queue that ended with room for `room` events.
pub fn round_value(digested: usize, room: usize) -> (value: usize)
    ensures
        value == digested ^ room,
{
    digested ^ room
}

/// Some capacity of each round explains the checksum.
pub open spec fn explained(checksum: usize, rounds: nat, events: nat, rooms: Seq<usize>) -> bool {
    &&& rooms.len() == rounds
    &&& checksum == xor_seq(
        Seq::new(rounds, |round: int| digest(round as usize, events) ^ rooms[round]),
    )
}

/// The events of every round.
pub fn vecdeque_events(rounds: usize, events: usize) -> (checksum: usize)
    ensures
        exists|rooms: Seq<usize>| #[trigger]
            explained(checksum, rounds as nat, events as nat, rooms),
{
    let mut checksum: usize = 0;
    let mut round: usize = 0;
    let ghost mut rooms: Seq<usize> = Seq::empty();
    assert(Seq::new(
        0,
        |round: int| digest(round as usize, events as nat) ^ rooms[round],
    ) =~= Seq::<usize>::empty());
    while round < rounds
        invariant
            round <= rounds,
            explained(checksum, round as nat, events as nat, rooms),
        decreases rounds - round,
    {
        let (digested, queue) = run_events(round, events);
        let room: usize = capacity(&queue);
        checksum = checksum ^ round_value(digested, room);
        proof {
            let before = rooms;
            rooms = rooms.push(room);
            let now = Seq::new(
                (round + 1) as nat,
                |round: int| digest(round as usize, events as nat) ^ rooms[round],
            );
            assert(now.drop_last() =~= Seq::new(
                round as nat,
                |round: int| digest(round as usize, events as nat) ^ before[round],
            ));
            assert(now.last() == digested ^ room);
        }
        round = round + 1;
    }
    checksum
}

/// `checksum` is one that the workload may return.
pub open spec fn is_checksum(checksum: usize) -> bool {
    exists|rooms: Seq<usize>| #[trigger]
        explained(checksum, ROUNDS as nat, EVENTS as nat, rooms)
}

pub fn run() -> (checksum: usize)
    ensures
        is_checksum(checksum),
{
    vecdeque_events(ROUNDS, EVENTS)
}

} // verus!
