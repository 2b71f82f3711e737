//! Log ingest: producers format lines, a parser takes fields out of them, and an
//! aggregator adds them up.

use vstd::prelude::*;
use vstd::string::*;

use crate::decimal::{
    digits_of,
    is_number,
    law_parse_inverts_digits,
    lemma_digits_of,
    parse_usize,
    parsed,
    push_decimal,
};
use crate::workloads::pattern::{compile, is_pattern, pattern_of};
use crate::workloads::text::{
    ascii,
    lemma_ascii_is_text,
    lemma_digits_ascii,
    lemma_literal,
    push_bytes,
    utf8_text,
    xor_seq,
};
use crate::workloads::totals::{
    amount_of,
    law_summing_keeps_the_amount,
    lemma_position,
    no_debt,
    summed,
    Entry,
    Totals,
};

verus! {

pub const THREADS: usize = 4;

pub const ROUNDS: usize = 4;

pub const LINES: usize = 1_024;

pub const ELEMENTS: usize = 4_096;

pub const SERVICES: usize = 8;

/// The pattern of a line.
pub open spec fn line_pattern() -> Seq<char> {
    "^(\\w+) svc=([a-z]+-\\d+) user_(\\d+) latency=(\\d+)ms$"@
}

/// What a pattern and its groups match in a text: the whole first, then each group.
pub uninterp spec fn captured(pattern: Seq<char>, text: Seq<u8>) -> Option<
    Seq<Option<Seq<u8>>>,
>;

/// The texts of groups.
pub open spec fn groups_of(groups: Seq<Option<Vec<u8>>>) -> Seq<Option<Seq<u8>>> {
    groups.map_values(
        |group: Option<Vec<u8>>|
            match group {
                Some(text) => Some(text@),
                None => None,
            },
    )
}

/// Every byte is a letter from `first` to `last`, and there is at least one.
pub open spec fn letters(text: Seq<u8>, first: u8, last: u8) -> bool {
    text.len() > 0 && forall|i: int| 0 <= i < text.len() ==> first <= #[trigger] text[i] <= last
}

/// A service and its number.
pub open spec fn service_text(service: Seq<u8>, number: Seq<u8>) -> Seq<u8> {
    service + "-".spec_bytes() + number
}

/// A log line.
pub open spec fn logged(
    level: Seq<u8>,
    service: Seq<u8>,
    number: Seq<u8>,
    user: Seq<u8>,
    millis: Seq<u8>,
) -> Seq<u8> {
    level + " svc=".spec_bytes() + service_text(service, number) + " user_".spec_bytes() + user
        + " latency=".spec_bytes() + millis + "ms".spec_bytes()
}

/// What was found.
pub open spec fn found_of(found: Option<Vec<Option<Vec<u8>>>>) -> Option<Seq<Option<Seq<u8>>>> {
    match found {
        Some(groups) => Some(groups_of(groups@)),
        None => None,
    }
}

/// A line of an upper-case level, a lower-case service and decimal numbers gives these
/// back under the pattern of a line.
pub open spec fn reads_back(
    pattern: Seq<char>,
    text: Seq<u8>,
    found: Option<Seq<Option<Seq<u8>>>>,
) -> bool {
    forall|level: Seq<u8>, service: Seq<u8>, number: Seq<u8>, user: Seq<u8>, millis: Seq<u8>|
        text == #[trigger] logged(level, service, number, user, millis) && pattern
            == line_pattern() && letters(level, 65, 90) && letters(service, 97, 122) && is_number(
            number,
        ) && is_number(user) && is_number(millis) ==> found == Some(
            seq![
                Some(text),
                Some(level),
                Some(service_text(service, number)),
                Some(user),
                Some(millis),
            ],
        )
}

/// `regex::Regex::captures`: what the pattern and its groups match first. On the pattern
/// of a line, a line that is made of an upper-case level, a lower-case service and decimal
/// numbers gives these back. What other patterns and texts give is named, not stated.
#[verifier::external_body]
fn captures(pattern: &regex::Regex, text: &str) -> (found: Option<Vec<Option<Vec<u8>>>>)
    ensures
        found_of(found) == captured(pattern_of(*pattern), text.spec_bytes()),
        reads_back(pattern_of(*pattern), text.spec_bytes(), found_of(found)),
{
    pattern.captures(text).map(
        |found| found.iter().map(|group| group.map(|part| part.as_str().as_bytes().to_vec())).collect(),
    )
}

/// What a line adds: its latency under its level and service.
pub open spec fn record_of(groups: Seq<Option<Seq<u8>>>) -> Option<Entry> {
    if groups.len() > 4 {
        match (groups[1], groups[2], groups[4]) {
            (Some(level), Some(service), Some(latency)) => Some(
                (
                    level + "/".spec_bytes() + service,
                    match parsed(latency, usize::MAX as nat) {
                        Some(millis) => millis as int,
                        None => 0,
                    },
                ),
            ),
            _ => None,
        }
    } else {
        None
    }
}

/// What the groups of a line add.
pub fn record(groups: &Vec<Option<Vec<u8>>>) -> (entry: Option<(Vec<u8>, usize)>)
    ensures
        match record_of(groups_of(groups@)) {
            Some(record) => entry matches Some((key, millis)) && key@ == record.0 && millis
                == record.1,
            None => entry is None,
        },
{
    let ghost all = groups_of(groups@);
    if groups.len() <= 4 {
        return None;
    }
    assert(all[1] == match groups@[1] {
        Some(text) => Some(text@),
        None => None,
    });
    assert(all[2] == match groups@[2] {
        Some(text) => Some(text@),
        None => None,
    });
    assert(all[4] == match groups@[4] {
        Some(text) => Some(text@),
        None => None,
    });
    match (&groups[1], &groups[2], &groups[4]) {
        (Some(level), Some(service), Some(latency)) => {
            let mut key: Vec<u8> = Vec::new();
            push_bytes(&mut key, level.as_slice());
            push_bytes(&mut key, "/".as_bytes());
            push_bytes(&mut key, service.as_slice());
            assert(key@ =~= level@ + "/".spec_bytes() + service@);
            let millis: usize = match parse_usize(latency.as_slice()) {
                Some(millis) => millis,
                None => 0,
            };
            Some((key, millis))
        },
        _ => None,
    }
}

/// The level of line `i` of a producer.
pub open spec fn level_of(producer: int, i: int) -> Seq<u8> {
    let kind = (i + producer) % 4;
    if kind == 0 {
        "INFO".spec_bytes()
    } else if kind == 1 {
        "WARN".spec_bytes()
    } else if kind == 2 {
        "ERROR".spec_bytes()
    } else {
        "DEBUG".spec_bytes()
    }
}

/// Line `i` of a producer.
pub open spec fn line_text(round: int, producer: int, i: int) -> Seq<u8> {
    logged(
        level_of(producer, i),
        "api".spec_bytes(),
        digits_of(((i + round) % SERVICES as int) as nat),
        digits_of(((i * 7 + producer) % 997) as nat),
        digits_of((i % 250 + 1) as nat),
    )
}

/// What line `i` of a producer adds.
pub open spec fn line_entry(round: int, producer: int, i: int) -> Entry {
    (
        level_of(producer, i) + "/".spec_bytes() + service_text(
            "api".spec_bytes(),
            digits_of(((i + round) % SERVICES as int) as nat),
        ),
        i % 250 + 1,
    )
}

proof fn lemma_pieces(producer: int, i: int)
    ensures
        letters(level_of(producer, i), 65, 90),
        letters("api".spec_bytes(), 97, 122),
        ascii(" svc=".spec_bytes()),
        ascii("-".spec_bytes()),
        ascii(" user_".spec_bytes()),
        ascii(" latency=".spec_bytes()),
        ascii("ms".spec_bytes()),
{
    broadcast use is_ascii_spec_bytes;

    reveal_strlit("INFO");
    reveal_strlit("WARN");
    reveal_strlit("ERROR");
    reveal_strlit("DEBUG");
    reveal_strlit("api");
    reveal_strlit(" svc=");
    reveal_strlit("-");
    reveal_strlit(" user_");
    reveal_strlit(" latency=");
    reveal_strlit("ms");
    assert(is_ascii("INFO"));
    assert(is_ascii("WARN"));
    assert(is_ascii("ERROR"));
    assert(is_ascii("DEBUG"));
    assert(is_ascii("api"));
    lemma_literal(" svc=");
    lemma_literal("-");
    lemma_literal(" user_");
    lemma_literal(" latency=");
    lemma_literal("ms");
}

/// Format line `i` of a producer.
pub fn produce(round: usize, producer: usize, i: usize) -> (line: String)
    requires
        i * 7 + producer <= usize::MAX,
        i + round <= usize::MAX,
    ensures
        vstd::utf8::encode_utf8(line@) == line_text(round as int, producer as int, i as int),
{
    let mut bytes: Vec<u8> = Vec::new();
    let kind: usize = (i + producer) % 4;
    if kind == 0 {
        push_bytes(&mut bytes, "INFO".as_bytes());
    } else if kind == 1 {
        push_bytes(&mut bytes, "WARN".as_bytes());
    } else if kind == 2 {
        push_bytes(&mut bytes, "ERROR".as_bytes());
    } else {
        push_bytes(&mut bytes, "DEBUG".as_bytes());
    }
    push_bytes(&mut bytes, " svc=".as_bytes());
    push_bytes(&mut bytes, "api".as_bytes());
    push_bytes(&mut bytes, "-".as_bytes());
    push_decimal(&mut bytes, (i + round) % SERVICES);
    push_bytes(&mut bytes, " user_".as_bytes());
    push_decimal(&mut bytes, (i * 7 + producer) % 997);
    push_bytes(&mut bytes, " latency=".as_bytes());
    push_decimal(&mut bytes, i % 250 + 1);
    push_bytes(&mut bytes, "ms".as_bytes());
    proof {
        assert(bytes@ =~= line_text(round as int, producer as int, i as int));
        lemma_pieces(producer as int, i as int);
        lemma_digits_ascii(((i + round) % SERVICES as int) as nat);
        lemma_digits_ascii(((i * 7 + producer) % 997) as nat);
        lemma_digits_ascii((i % 250 + 1) as nat);
        assert(ascii(bytes@));
        lemma_ascii_is_text(bytes@);
    }
    utf8_text(bytes)
}

/// What a line that was sent adds, as far as it has the pattern.
pub fn parse(pattern: &regex::Regex, line: &str) -> (entry: Option<(Vec<u8>, usize)>)
    ensures
        match captured(pattern_of(*pattern), line.spec_bytes()) {
            Some(groups) => match record_of(groups) {
                Some(record) => entry matches Some((key, millis)) && key@ == record.0 && millis
                    == record.1,
                None => entry is None,
            },
            None => entry is None,
        },
        forall|round: int, producer: int, i: int|
            line.spec_bytes() == #[trigger] line_text(round, producer, i) && pattern_of(*pattern)
                == line_pattern() && 0 <= round && 0 <= producer && 0 <= i ==> (entry matches Some(
                (key, millis),
            ) && (key@, millis as int) == line_entry(round, producer, i)),
{
    let found = captures(pattern, line);
    proof {
        assert forall|round: int, producer: int, i: int|
            line.spec_bytes() == #[trigger] line_text(round, producer, i) && pattern_of(*pattern)
                == line_pattern() && 0 <= round && 0 <= producer && 0 <= i implies (
        found matches Some(groups) && record_of(groups_of(groups@)) == Some(
            line_entry(round, producer, i),
        )) by {
            lemma_pieces(producer, i);
            let number = ((i + round) % SERVICES as int) as nat;
            let user = ((i * 7 + producer) % 997) as nat;
            let millis = (i % 250 + 1) as nat;
            lemma_digits_of(number);
            lemma_digits_of(user);
            lemma_digits_of(millis);
            law_parse_inverts_digits(millis, usize::MAX as nat);
            assert(line.spec_bytes() == logged(
                level_of(producer, i),
                "api".spec_bytes(),
                digits_of(number),
                digits_of(user),
                digits_of(millis),
            ));
        }
    }
    match found {
        Some(groups) => record(&groups),
        None => None,
    }
}

/// What the first `count` lines of a round add, producer by producer.
pub open spec fn round_entries(round: int, lines: int, count: nat) -> Seq<Entry> {
    Seq::new(count, |k: int| line_entry(round, k / lines, k % lines))
}

/// What a round adds to the checksum: the number of keys, and all latencies.
pub open spec fn round_value(round: int) -> usize {
    let entries = round_entries(round, LINES as int, (THREADS * LINES) as nat);
    summed(entries).len() as usize ^ amount_of(entries) as usize
}

/// Latencies are not negative, and at most 250 each.
proof fn lemma_entries(round: int, lines: int, count: nat)
    requires
        lines > 0,
    ensures
        no_debt(round_entries(round, lines, count)),
        amount_of(round_entries(round, lines, count)) <= 250 * count,
    decreases count,
{
    let entries = round_entries(round, lines, count);
    if count > 0 {
        lemma_entries(round, lines, (count - 1) as nat);
        assert(entries.drop_last() =~= round_entries(round, lines, (count - 1) as nat));
    }
}

/// All sums together, `None` when they do not fit a `usize`.
pub fn all_amounts(totals: &Totals) -> (amount: Option<usize>)
    ensures
        amount == if amount_of(totals@) <= usize::MAX {
            Some(amount_of(totals@) as usize)
        } else {
            None
        },
{
    let mut amount: usize = 0;
    let mut i: usize = 0;
    assert(totals@.take(0) =~= Seq::<Entry>::empty());
    assert(no_debt(totals@));
    while i < totals.len()
        invariant
            i <= totals@.len(),
            no_debt(totals@),
            amount == amount_of(totals@.take(i as int)),
        decreases totals@.len() - i,
    {
        proof {
            lemma_amount_prefix(totals@, i + 1);
            assert(totals@.take(i + 1).drop_last() =~= totals@.take(i as int));
        }
        let next: u64 = totals.amount(i);
        if next > (usize::MAX - amount) as u64 {
            return None;
        }
        amount = amount + next as usize;
        i = i + 1;
    }
    assert(totals@.take(totals@.len() as int) =~= totals@);
    proof {
        lemma_amount_prefix(totals@, totals@.len() as int);
    }
    Some(amount)
}

/// A part of the entries does not add up to more than all.
proof fn lemma_amount_prefix(entries: Seq<Entry>, count: int)
    requires
        no_debt(entries),
        0 <= count <= entries.len(),
    ensures
        0 <= amount_of(entries.take(count)) <= amount_of(entries),
    decreases entries.len(),
{
    if count == entries.len() {
        assert(entries.take(count) =~= entries);
        law_summing_keeps_the_amount(entries);
    } else {
        let front = entries.drop_last();
        assert(no_debt(front)) by {
            assert forall|i: int| 0 <= i < front.len() implies 0 <= (#[trigger] front[i]).1 by {
                assert(front[i] == entries[i]);
            }
        }
        lemma_amount_prefix(front, count);
        assert(front.take(count) =~= entries.take(count));
        assert(entries[entries.len() - 1].1 >= 0);
    }
}

/// The lines of one round, producer by producer.
fn log_round(pattern: &regex::Regex, round: usize) -> (value: usize)
    requires
        pattern_of(*pattern) == line_pattern(),
        round < ROUNDS,
    ensures
        value == round_value(round as int),
{
    let mut totals = Totals::new();
    let mut k: usize = 0;
    assert(round_entries(round as int, LINES as int, 0) =~= Seq::<Entry>::empty());
    while k < THREADS * LINES
        invariant
            k <= THREADS * LINES,
            round < ROUNDS,
            pattern_of(*pattern) == line_pattern(),
            totals@ == summed(round_entries(round as int, LINES as int, k as nat)),
        decreases THREADS * LINES - k,
    {
        let producer: usize = k / LINES;
        let i: usize = k % LINES;
        let line = produce(round, producer, i);
        assert(line_text(round as int, producer as int, i as int)
            == vstd::utf8::encode_utf8(line@));
        match parse(pattern, line.as_str()) {
            Some((key, millis)) => {
                proof {
                    let before = round_entries(round as int, LINES as int, k as nat);
                    let now = round_entries(round as int, LINES as int, (k + 1) as nat);
                    assert(now.drop_last() =~= before);
                    assert(now.last() == (key@, millis as int));
                    lemma_entries(round as int, LINES as int, k as nat);
                    law_summing_keeps_the_amount(before);
                    lemma_position(summed(before), key@);
                }
                totals.add_to(key.as_slice(), millis as u64);
            },
            None => {
                assert(false);
            },
        }
        k = k + 1;
    }
    proof {
        let entries = round_entries(round as int, LINES as int, (THREADS * LINES) as nat);
        lemma_entries(round as int, LINES as int, (THREADS * LINES) as nat);
        law_summing_keeps_the_amount(entries);
    }
    match all_amounts(&totals) {
        Some(amount) => totals.len() ^ amount,
        None => {
            assert(false);
            0
        },
    }
}

/// The checksum of all rounds.
pub open spec fn log_checksum() -> usize {
    if is_pattern(line_pattern()) {
        xor_seq(Seq::new(ROUNDS as nat, |round: int| round_value(round)))
    } else {
        0
    }
}

/// `checksum` is one that the workload may return.
pub open spec fn is_checksum(checksum: usize) -> bool {
    checksum == log_checksum()
}

/// The checksum, with the producers' lines one after the other.
pub fn run() -> (checksum: usize)
    ensures
        is_checksum(checksum),
{
    let pattern = match compile("^(\\w+) svc=([a-z]+-\\d+) user_(\\d+) latency=(\\d+)ms$") {
        Some(pattern) => pattern,
        None => return 0,
    };
    let mut checksum: usize = 0;
    let mut round: usize = 0;
    let ghost value = |round: int| round_value(round);
    assert(Seq::new(0, value) =~= Seq::<usize>::empty());
    while round < ROUNDS
        invariant
            round <= ROUNDS,
            pattern_of(pattern) == line_pattern(),
            value == |round: int| round_value(round),
            checksum == xor_seq(Seq::new(round as nat, value)),
        decreases ROUNDS - round,
    {
        checksum = checksum ^ log_round(&pattern, round);
        round = round + 1;
        assert(Seq::new(round as nat, value).drop_last() =~= Seq::new((round - 1) as nat, value));
    }
    checksum
}

} // verus!
