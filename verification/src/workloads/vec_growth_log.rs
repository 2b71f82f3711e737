//! Append-only log: grow a list of lines without reserving, then keep the errors.

use vstd::prelude::*;
use vstd::string::*;

use crate::decimal::{digits_of, lemma_digits_short, push_decimal};
use crate::rng::{draw, TraceRng};
use crate::workloads::text::{lemma_literal, push_bytes, xor_seq};

verus! {

pub const ROUNDS: usize = 16;

pub const LINES: usize = 1_024;

pub const ELEMENTS: usize = 16_384;

/// The stream of a round.
pub open spec fn seed_of(round: usize) -> u64 {
    0x10c1_9a11u64 ^ round as u64
}

/// The level with a number.
pub open spec fn level_text(level: int) -> Seq<u8> {
    if level == 0 {
        "DEBUG".spec_bytes()
    } else if level == 1 {
        "INFO".spec_bytes()
    } else if level == 2 {
        "WARN".spec_bytes()
    } else {
        "ERROR".spec_bytes()
    }
}

/// Line `i` of a round.
pub open spec fn line_text(round: usize, lines: usize, i: usize) -> Seq<u8> {
    "t=".spec_bytes() + digits_of((round * lines + i) as nat) + " lvl=".spec_bytes() + level_text(
        draw(seed_of(round), i as nat, 4),
    ) + " req=".spec_bytes() + digits_of((i ^ round) as nat) + " shard=".spec_bytes() + digits_of(
        (i % 37) as nat,
    )
}

/// The first `count` lines of a round.
pub open spec fn log_lines(round: usize, lines: usize, count: nat) -> Seq<Seq<u8>> {
    Seq::new(count, |i: int| line_text(round, lines, i as usize))
}

/// The texts of a log.
pub open spec fn texts_of(log: Seq<Vec<u8>>) -> Seq<Seq<u8>> {
    log.map_values(|line: Vec<u8>| line@)
}

/// `needle` stands at `at`.
pub open spec fn stands_at(text: Seq<u8>, needle: Seq<u8>, at: int) -> bool {
    0 <= at && at + needle.len() <= text.len() && text.subrange(at, at + needle.len()) == needle
}

/// `needle` stands somewhere in `text`.
pub open spec fn is_in(text: Seq<u8>, needle: Seq<u8>) -> bool {
    exists|at: int| #[trigger] stands_at(text, needle, at)
}

/// The lines that report an error.
pub open spec fn errors(lines: Seq<Seq<u8>>) -> Seq<Seq<u8>>
    decreases lines.len(),
{
    if lines.len() == 0 {
        Seq::empty()
    } else if is_in(lines.last(), "ERROR".spec_bytes()) {
        errors(lines.drop_last()).push(lines.last())
    } else {
        errors(lines.drop_last())
    }
}

/// Lengths of all lines together.
pub open spec fn total_len(lines: Seq<Seq<u8>>) -> nat
    decreases lines.len(),
{
    if lines.len() == 0 {
        0
    } else {
        total_len(lines.drop_last()) + lines.last().len()
    }
}

/// Whether `needle` stands somewhere in `text`.
pub fn contains(text: &[u8], needle: &[u8]) -> (found: bool)
    ensures
        found == is_in(text@, needle@),
{
    if needle.len() > text.len() {
        return false;
    }
    let total: usize = text.len();
    let last: usize = total - needle.len();
    let mut at: usize = 0;
    while at <= last
        invariant
            total == text@.len(),
            last + needle@.len() == total,
            at <= last + 1,
            forall|k: int| 0 <= k < at ==> !#[trigger] stands_at(text@, needle@, k),
        decreases last + 1 - at,
    {
        let mut k: usize = 0;
        while k < needle.len() && text[at + k] == needle[k]
            invariant
                k <= needle@.len(),
                total == text@.len(),
                at + needle@.len() <= total,
                forall|j: int| 0 <= j < k ==> text@[at + j] == #[trigger] needle@[j],
            decreases needle@.len() - k,
        {
            k = k + 1;
        }
        if k == needle.len() {
            assert(text@.subrange(at as int, at + needle@.len()) =~= needle@);
            assert(stands_at(text@, needle@, at as int));
            return true;
        }
        proof {
            if stands_at(text@, needle@, at as int) {
                assert(text@.subrange(at as int, at + needle@.len())[k as int] == text@[at + k]);
            }
        }
        if at == last {
            return false;
        }
        at = at + 1;
    }
    false
}

/// `Vec::shrink_to_fit`: gives room back and keeps the contents.
#[verifier::external_body]
fn shrink(log: &mut Vec<Vec<u8>>)
    ensures
        final(log)@ == old(log)@,
{
    log.shrink_to_fit();
}

/// `Vec::capacity`: room without another allocation, at least what is held. How much more
/// is up to the allocator.
#[verifier::external_body]
fn capacity(log: &Vec<Vec<u8>>) -> (room: usize)
    ensures
        room >= log@.len(),
{
    log.capacity()
}

/// Line `i` of a round.
fn build_line(round: usize, lines: usize, i: usize, level: usize) -> (line: Vec<u8>)
    requires
        round * lines + i <= usize::MAX,
        level == draw(seed_of(round), i as nat, 4),
    ensures
        line@ == line_text(round, lines, i),
        line@.len() <= 128,
{
    let mut line: Vec<u8> = Vec::new();
    push_bytes(&mut line, "t=".as_bytes());
    assert(round * lines >= 0) by (nonlinear_arith);
    push_decimal(&mut line, round * lines + i);
    push_bytes(&mut line, " lvl=".as_bytes());
    if level == 0 {
        push_bytes(&mut line, "DEBUG".as_bytes());
    } else if level == 1 {
        push_bytes(&mut line, "INFO".as_bytes());
    } else if level == 2 {
        push_bytes(&mut line, "WARN".as_bytes());
    } else {
        push_bytes(&mut line, "ERROR".as_bytes());
    }
    push_bytes(&mut line, " req=".as_bytes());
    push_decimal(&mut line, i ^ round);
    push_bytes(&mut line, " shard=".as_bytes());
    push_decimal(&mut line, i % 37);
    proof {
        assert(line@ =~= line_text(round, lines, i));
        reveal_strlit("t=");
        reveal_strlit(" lvl=");
        reveal_strlit("DEBUG");
        reveal_strlit("INFO");
        reveal_strlit("WARN");
        reveal_strlit("ERROR");
        reveal_strlit(" req=");
        reveal_strlit(" shard=");
        lemma_literal("t=");
        lemma_literal(" lvl=");
        lemma_literal("DEBUG");
        lemma_literal("INFO");
        lemma_literal("WARN");
        lemma_literal("ERROR");
        lemma_literal(" req=");
        lemma_literal(" shard=");
        lemma_digits_short((round * lines + i) as nat);
        lemma_digits_short((i ^ round) as nat);
        lemma_digits_short((i % 37) as nat);
    }
    line
}

/// Build the log of a round: its lines, and how long they are together.
pub fn build_log(round: usize, lines: usize) -> (built: (Vec<Vec<u8>>, usize))
    requires
        round * lines + lines <= usize::MAX,
        lines * 128 <= usize::MAX,
    ensures
        texts_of(built.0@) == log_lines(round, lines, lines as nat),
        built.1 == total_len(log_lines(round, lines, lines as nat)),
{
    let mut rng = TraceRng::new(0x10c1_9a11u64 ^ round as u64);
    let mut log: Vec<Vec<u8>> = Vec::new();
    let mut bytes: usize = 0;
    let mut i: usize = 0;
    assert(texts_of(log@) =~= log_lines(round, lines, 0));
    while i < lines
        invariant
            i <= lines,
            round * lines + lines <= usize::MAX,
            lines * 128 <= usize::MAX,
            rng.at(seed_of(round), i as nat),
            texts_of(log@) == log_lines(round, lines, i as nat),
            bytes == total_len(log_lines(round, lines, i as nat)),
            bytes <= i * 128,
        decreases lines - i,
    {
        let ghost before = log@;
        let level: usize = rng.next_usize(4);
        let line = build_line(round, lines, i, level);
        bytes = bytes + line.len();
        log.push(line);
        proof {
            let now = log_lines(round, lines, (i + 1) as nat);
            assert(texts_of(log@) =~= texts_of(before).push(line@));
            assert(now =~= log_lines(round, lines, i as nat).push(line@));
            assert(now.drop_last() =~= log_lines(round, lines, i as nat));
        }
        if i != 0 && i % 256 == 0 {
            shrink(&mut log);
        }
        i = i + 1;
    }
    (log, bytes)
}

/// Keep the lines that report an error. The log stays where it is: kept lines move down
/// over the others.
pub fn keep_errors(log: Vec<Vec<u8>>) -> (kept: Vec<Vec<u8>>)
    ensures
        texts_of(kept@) == errors(texts_of(log@)),
{
    let ghost all = texts_of(log@);
    let mut kept = log;
    let count: usize = kept.len();
    let mut to: usize = 0;
    let mut i: usize = 0;
    assert(texts_of(kept@.take(0)) =~= errors(all.take(0)));
    while i < count
        invariant
            to <= i <= count,
            kept@.len() == count,
            all.len() == count,
            texts_of(kept@.take(to as int)) == errors(all.take(i as int)),
            forall|k: int| i <= k < count ==> (#[trigger] kept@[k])@ == all[k],
        decreases count - i,
    {
        let ghost before = kept@;
        proof {
            assert(all.take(i + 1).drop_last() =~= all.take(i as int));
            assert(all.take(i + 1).last() == kept@[i as int]@);
        }
        if contains(kept[i].as_slice(), "ERROR".as_bytes()) {
            let mut line: Vec<u8> = Vec::new();
            std::mem::swap(&mut kept[i], &mut line);
            kept[to] = line;
            to = to + 1;
            proof {
                assert(kept@.take(to as int) =~= before.take(to - 1).push(line));
                assert(texts_of(kept@.take(to as int)) =~= texts_of(before.take(to - 1)).push(
                    line@,
                ));
                assert forall|k: int| i + 1 <= k < count implies (#[trigger] kept@[k])@
                    == all[k] by {
                    assert(kept@[k] == before[k]);
                }
            }
        }
        i = i + 1;
    }
    kept.truncate(to);
    assert(all.take(all.len() as int) =~= all);
    kept
}

/// What a round adds to the checksum, with a log that ended with room for `room` lines.
pub open spec fn log_value(round: usize, lines: usize, room: usize) -> usize {
    let all = log_lines(round, lines, lines as nat);
    (total_len(all) as usize ^ errors(all).len() as usize) ^ room
}

/// What a round with `bytes` of lines, of which `kept` stayed, adds to the checksum when its
/// log ended with room for `room` lines.
pub fn round_value(bytes: usize, kept: usize, room: usize) -> (value: usize)
    ensures
        value == (bytes ^ kept) ^ room,
{
    (bytes ^ kept) ^ room
}

/// Some capacity of each round, no smaller than the kept lines, explains the checksum.
pub open spec fn explained(checksum: usize, rounds: nat, lines: usize, rooms: Seq<usize>) -> bool {
    &&& rooms.len() == rounds
    &&& forall|round: int|
        0 <= round < rounds ==> #[trigger] rooms[round] >= errors(
            log_lines(round as usize, lines, lines as nat),
        ).len()
    &&& checksum == xor_seq(
        Seq::new(rounds, |round: int| log_value(round as usize, lines, rooms[round])),
    )
}

/// The log of every round.
pub fn vec_growth_log(rounds: usize, lines: usize) -> (checksum: usize)
    requires
        rounds * lines <= usize::MAX,
        lines * 128 <= usize::MAX,
    ensures
        exists|rooms: Seq<usize>| #[trigger] explained(checksum, rounds as nat, lines, rooms),
{
    let mut checksum: usize = 0;
    let mut round: usize = 0;
    let ghost mut rooms: Seq<usize> = Seq::empty();
    assert(Seq::new(0, |round: int| log_value(round as usize, lines, rooms[round])) =~= Seq::<
        usize,
    >::empty());
    while round < rounds
        invariant
            round <= rounds,
            rounds * lines <= usize::MAX,
            lines * 128 <= usize::MAX,
            explained(checksum, round as nat, lines, rooms),
        decreases rounds - round,
    {
        assert(round * lines + lines <= rounds * lines) by (nonlinear_arith)
            requires
                round + 1 <= rounds,
                lines >= 0,
        ;
        let (log, bytes) = build_log(round, lines);
        let kept = keep_errors(log);
        let room: usize = capacity(&kept);
        assert(kept@.len() == texts_of(kept@).len());
        checksum = checksum ^ round_value(bytes, kept.len(), room);
        proof {
            let before = rooms;
            rooms = rooms.push(room);
            let now = Seq::new(
                (round + 1) as nat,
                |round: int| log_value(round as usize, lines, rooms[round]),
            );
            assert(now.drop_last() =~= Seq::new(
                round as nat,
                |round: int| log_value(round as usize, lines, before[round]),
            ));
            assert(now.last() == (bytes ^ kept@.len() as usize) ^ room);
            assert forall|r: int| 0 <= r < round + 1 implies #[trigger] rooms[r] >= errors(
                log_lines(r as usize, lines, lines as nat),
            ).len() by {
                if r < round {
                    assert(rooms[r] == before[r]);
                }
            }
        }
        round = round + 1;
    }
    checksum
}

/// `checksum` is one that the workload may return.
pub open spec fn is_checksum(checksum: usize) -> bool {
    exists|rooms: Seq<usize>| #[trigger] explained(checksum, ROUNDS as nat, LINES, rooms)
}

pub fn run() -> (checksum: usize)
    ensures
        is_checksum(checksum),
{
    vec_growth_log(ROUNDS, LINES)
}

} // verus!
