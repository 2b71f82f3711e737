//! Log scan: compile a pattern and search generated lines.

use vstd::prelude::*;
use vstd::string::*;

use crate::decimal::{digits_of, push_decimal};
use crate::workloads::pattern::{compile, is_pattern, pattern_of};
use crate::workloads::text::{
    ascii,
    lemma_ascii_is_text,
    lemma_digits_ascii,
    lemma_literal,
    push_bytes,
    utf8_text,
    xor_seq,
};

verus! {

pub const ROUNDS: usize = 8;

pub const LINES: usize = 1_024;

pub const ELEMENTS: usize = 8_192;

/// How many times a pattern occurs in a text, one occurrence behind the other.
pub uninterp spec fn match_count(pattern: Seq<char>, text: Seq<u8>) -> nat;

/// `regex::Regex::find_iter`, counted: how many occurrences do not overlap.
#[verifier::external_body]
fn count_matches(pattern: &regex::Regex, text: &str) -> (count: usize)
    ensures
        count == match_count(pattern_of(*pattern), text.spec_bytes()),
{
    pattern.find_iter(text).count()
}

/// The pattern that is searched for.
pub open spec fn searched() -> Seq<char> {
    "(?i)\\b(error|warn|user_\\d+)\\b"@
}

/// How line `i` starts.
pub open spec fn line_start(round: usize, i: usize) -> Seq<u8> {
    let kind = (i ^ round) as int % 5;
    if kind == 0 {
        "ERROR user_".spec_bytes()
    } else if kind == 1 {
        "WARN cache miss user_".spec_bytes()
    } else if kind == 2 {
        "INFO accepted user_".spec_bytes()
    } else {
        "DEBUG skip user_".spec_bytes()
    }
}

/// The first `count` lines.
pub open spec fn lines_text(round: usize, count: nat) -> Seq<u8>
    decreases count,
{
    if count == 0 {
        Seq::empty()
    } else {
        let i = (count - 1) as usize;
        lines_text(round, (count - 1) as nat) + line_start(round, i) + digits_of((i % 97) as nat)
            + seq![10u8]
    }
}

proof fn lemma_starts(round: usize, i: usize)
    ensures
        ascii(line_start(round, i)),
{
    reveal_strlit("ERROR user_");
    reveal_strlit("WARN cache miss user_");
    reveal_strlit("INFO accepted user_");
    reveal_strlit("DEBUG skip user_");
    lemma_literal("ERROR user_");
    lemma_literal("WARN cache miss user_");
    lemma_literal("INFO accepted user_");
    lemma_literal("DEBUG skip user_");
}

/// The lines of a round.
fn build_lines(round: usize, lines: usize) -> (text: String)
    ensures
        vstd::utf8::encode_utf8(text@) == lines_text(round, lines as nat),
{
    let mut bytes: Vec<u8> = Vec::new();
    let mut i: usize = 0;
    while i < lines
        invariant
            i <= lines,
            bytes@ == lines_text(round, i as nat),
            ascii(bytes@),
        decreases lines - i,
    {
        let ghost before = bytes@;
        let kind: usize = (i ^ round) % 5;
        if kind == 0 {
            push_bytes(&mut bytes, "ERROR user_".as_bytes());
        } else if kind == 1 {
            push_bytes(&mut bytes, "WARN cache miss user_".as_bytes());
        } else if kind == 2 {
            push_bytes(&mut bytes, "INFO accepted user_".as_bytes());
        } else {
            push_bytes(&mut bytes, "DEBUG skip user_".as_bytes());
        }
        push_decimal(&mut bytes, i % 97);
        bytes.push(10);
        proof {
            lemma_starts(round, i);
            lemma_digits_ascii((i % 97) as nat);
            assert(bytes@ =~= before + line_start(round, i) + digits_of((i % 97) as nat)
                + seq![10u8]);
        }
        i = i + 1;
    }
    proof {
        lemma_ascii_is_text(bytes@);
    }
    utf8_text(bytes)
}

/// The checksum of all rounds: how often the pattern occurs in each.
pub open spec fn search_checksum(rounds: nat, lines: nat) -> usize {
    if is_pattern(searched()) {
        xor_seq(
            Seq::new(
                rounds,
                |round: int| match_count(searched(), lines_text(round as usize, lines)) as usize,
            ),
        )
    } else {
        0
    }
}

/// Search the lines of every round.
pub fn regex_search(rounds: usize, lines: usize) -> (checksum: usize)
    ensures
        checksum == search_checksum(rounds as nat, lines as nat),
{
    let pattern = match compile("(?i)\\b(error|warn|user_\\d+)\\b") {
        Some(pattern) => pattern,
        None => return 0,
    };
    let mut checksum: usize = 0;
    let mut round: usize = 0;
    let ghost value = |round: int|
        match_count(searched(), lines_text(round as usize, lines as nat)) as usize;
    assert(Seq::new(0, value) =~= Seq::<usize>::empty());
    while round < rounds
        invariant
            round <= rounds,
            pattern_of(pattern) == searched(),
            value == |round: int|
                match_count(searched(), lines_text(round as usize, lines as nat)) as usize,
            checksum == xor_seq(Seq::new(round as nat, value)),
        decreases rounds - round,
    {
        let text = build_lines(round, lines);
        checksum = checksum ^ count_matches(&pattern, text.as_str());
        round = round + 1;
        assert(Seq::new(round as nat, value).drop_last() =~= Seq::new((round - 1) as nat, value));
    }
    checksum
}

/// `checksum` is one that the workload may return.
pub open spec fn is_checksum(checksum: usize) -> bool {
    checksum == search_checksum(ROUNDS as nat, LINES as nat)
}

pub fn run() -> (checksum: usize)
    ensures
        is_checksum(checksum),
{
    regex_search(ROUNDS, LINES)
}

} // verus!
