//! Nested TOML: generate, parse, and write again.

use vstd::prelude::*;
use vstd::string::*;
use vstd::utf8::encode_utf8;

use crate::decimal::{digits_of, lemma_digits_of};
use crate::workloads::text::{is_word, lemma_word, numbered, xor_seq};

verus! {

pub const ROUNDS: usize = 16;

pub const ENTRIES: usize = 128;

pub const ELEMENTS: usize = 2_048;

/// What a TOML value holds. Texts and keys are their UTF-8 encodings.
pub enum Toml {
    Text(Seq<u8>),
    Integer(i64),
    Flag(bool),
    Table(Map<Seq<u8>, Toml>),
    /// A float, a date or an array, by how it is written.
    Other(Seq<u8>),
}

/// The value type of `toml`.
#[verifier::external_type_specification]
#[verifier::external_body]
pub struct ExTomlValue(toml::Value);

/// The table type of `toml`.
#[verifier::external_type_specification]
#[verifier::external_body]
#[verifier::reject_recursive_types(K)]
#[verifier::reject_recursive_types(V)]
pub struct ExTomlMap<K, V>(toml::map::Map<K, V>);

/// What a value holds.
pub uninterp spec fn toml_of(value: toml::Value) -> Toml;

/// What a table holds.
pub uninterp spec fn entries_of(table: toml::map::Map<String, toml::Value>) -> Map<Seq<u8>, Toml>;

/// The text that a value is written as.
pub uninterp spec fn toml_text(value: Toml) -> Option<Seq<char>>;

/// The value that a text is read as.
pub uninterp spec fn toml_parsed(text: Seq<char>) -> Option<Toml>;

/// An empty table.
pub open spec fn no_entries() -> Map<Seq<u8>, Toml> {
    Map::empty()
}

/// A value of flags, integers and words, nested at most `depth` times.
pub open spec fn plain(value: Toml, depth: nat) -> bool
    decreases depth,
{
    match value {
        Toml::Text(text) => is_word(text),
        Toml::Integer(_) => true,
        Toml::Flag(_) => true,
        Toml::Table(entries) => depth > 0 && forall|key: Seq<u8>| #[trigger]
            entries.contains_key(key) ==> is_word(key) && plain(entries[key], (depth - 1) as nat),
        Toml::Other(_) => false,
    }
}

/// A table of plain values: what a document is made of.
pub open spec fn plain_document(value: Toml) -> bool {
    value is Table && plain(value, 8)
}

/// `toml::map::Map::new`: a table without entries.
#[verifier::external_body]
fn new_table() -> (table: toml::map::Map<String, toml::Value>)
    ensures
        entries_of(table) == no_entries(),
{
    toml::map::Map::new()
}

/// `toml::map::Map::insert`: puts a value under a key, in place of an earlier one.
#[verifier::external_body]
fn insert(table: &mut toml::map::Map<String, toml::Value>, key: &str, value: toml::Value)
    ensures
        entries_of(*final(table)) == entries_of(*old(table)).insert(
            key.spec_bytes(),
            toml_of(value),
        ),
{
    table.insert(key.to_owned(), value);
}

/// `toml::map::Map::len`: how many keys there are.
#[verifier::external_body]
fn table_len(table: &toml::map::Map<String, toml::Value>) -> (count: usize)
    ensures
        count == entries_of(*table).dom().len(),
{
    table.len()
}

/// `toml::Value::String`.
#[verifier::external_body]
fn text_value(text: String) -> (value: toml::Value)
    ensures
        toml_of(value) == Toml::Text(encode_utf8(text@)),
{
    toml::Value::String(text)
}

/// `toml::Value::Integer`.
#[verifier::external_body]
fn integer_value(number: i64) -> (value: toml::Value)
    ensures
        toml_of(value) == Toml::Integer(number),
{
    toml::Value::Integer(number)
}

/// `toml::Value::Boolean`.
#[verifier::external_body]
fn flag_value(flag: bool) -> (value: toml::Value)
    ensures
        toml_of(value) == Toml::Flag(flag),
{
    toml::Value::Boolean(flag)
}

/// `toml::Value::Table`.
#[verifier::external_body]
fn table_value(table: toml::map::Map<String, toml::Value>) -> (value: toml::Value)
    ensures
        toml_of(value) == Toml::Table(entries_of(table)),
{
    toml::Value::Table(table)
}

/// `toml::to_string` of a value: its text, or nothing when it cannot be written. A table of
/// plain values can be written. What the text looks like is not stated.
#[verifier::external_body]
fn write_toml(value: &toml::Value) -> (text: Option<String>)
    ensures
        match text {
            Some(text) => toml_text(toml_of(*value)) == Some(text@),
            None => toml_text(toml_of(*value)) is None,
        },
        plain_document(toml_of(*value)) ==> text is Some,
{
    toml::to_string(value).ok()
}

/// `toml::from_str` to a value: what the text is read as, or nothing when it is no TOML. The
/// text of a table of plain values is read as that table. That other texts read back too is
/// not stated.
#[verifier::external_body]
fn read_toml(text: &str) -> (value: Option<toml::Value>)
    ensures
        match value {
            Some(value) => toml_parsed(text@) == Some(toml_of(value)),
            None => toml_parsed(text@) is None,
        },
        forall|written: Toml| #[trigger]
            toml_text(written) == Some(text@) && plain_document(written) ==> (
            value matches Some(value) && toml_of(value) == written),
{
    toml::from_str::<toml::Value>(text).ok()
}

/// `toml::Value::get` with a key: the value under the key of a table.
#[verifier::external_body]
fn value_at<'a>(value: &'a toml::Value, key: &str) -> (found: Option<&'a toml::Value>)
    ensures
        match found {
            Some(found) => toml_of(*value) matches Toml::Table(entries) && entries.contains_key(
                key.spec_bytes(),
            ) && toml_of(*found) == entries[key.spec_bytes()],
            None => toml_of(*value) matches Toml::Table(entries) ==> !entries.contains_key(
                key.spec_bytes(),
            ),
        },
{
    value.get(key)
}

/// `toml::Value::as_table`: the table that a value is.
#[verifier::external_body]
fn as_table(value: &toml::Value) -> (table: Option<&toml::map::Map<String, toml::Value>>)
    ensures
        match table {
            Some(table) => toml_of(*value) == Toml::Table(entries_of(*table)),
            None => !(toml_of(*value) is Table),
        },
{
    value.as_table()
}

/// `number` as a TOML integer, zero when it does not fit.
pub open spec fn integer(number: int) -> Toml {
    Toml::Integer(
        if 0 <= number <= i64::MAX {
            number as i64
        } else {
            0
        },
    )
}

fn size_value(number: usize) -> (value: toml::Value)
    ensures
        toml_of(value) == integer(number as int),
{
    integer_value(
        if number as u64 <= i64::MAX as u64 {
            number as i64
        } else {
            0
        },
    )
}

/// The limits of the application.
pub open spec fn limits() -> Toml {
    Toml::Table(
        Map::empty().insert("max_conns".spec_bytes(), Toml::Integer(1_024)).insert(
            "idle_ms".spec_bytes(),
            Toml::Integer(30_000),
        ),
    )
}

/// The application table of a round.
pub open spec fn app(round: usize, entries: usize) -> Toml {
    Toml::Table(
        Map::empty().insert(
            "name".spec_bytes(),
            Toml::Text("svc-".spec_bytes() + digits_of(round as nat)),
        ).insert("workers".spec_bytes(), integer(entries as int)).insert(
            "round".spec_bytes(),
            integer(round as int),
        ).insert("limits".spec_bytes(), limits()),
    )
}

/// Pool `i` of a round.
pub open spec fn pool(round: usize, i: usize) -> Toml {
    Toml::Table(
        Map::empty().insert("size".spec_bytes(), integer(i as int % 32 + 1)).insert(
            "timeout_ms".spec_bytes(),
            integer((i ^ round) as int % 5_000 + 50),
        ).insert("primary".spec_bytes(), Toml::Flag(i as int % 3 == 0)),
    )
}

/// The first `count` pools by name.
pub open spec fn pools(round: usize, count: nat) -> Map<Seq<u8>, Toml>
    decreases count,
{
    if count == 0 {
        Map::empty()
    } else {
        pools(round, (count - 1) as nat).insert(
            "pool-".spec_bytes() + digits_of((count - 1) as nat),
            pool(round, (count - 1) as usize),
        )
    }
}

/// The document of a round.
pub open spec fn document(round: usize, entries: usize) -> Toml {
    Toml::Table(
        Map::empty().insert("app".spec_bytes(), app(round, entries)).insert(
            "pools".spec_bytes(),
            Toml::Table(pools(round, entries as nat)),
        ),
    )
}

fn build_app(round: usize, entries: usize) -> (value: toml::Value)
    ensures
        toml_of(value) == app(round, entries),
{
    proof {
        reveal_strlit("svc-");
    }
    let mut table = new_table();
    insert(&mut table, "name", text_value(numbered("svc-", round)));
    insert(&mut table, "workers", size_value(entries));
    insert(&mut table, "round", size_value(round));
    let mut inner = new_table();
    insert(&mut inner, "max_conns", integer_value(1_024));
    insert(&mut inner, "idle_ms", integer_value(30_000));
    insert(&mut table, "limits", table_value(inner));
    table_value(table)
}

fn build_pool(round: usize, i: usize) -> (value: toml::Value)
    ensures
        toml_of(value) == pool(round, i),
{
    let mut table = new_table();
    insert(&mut table, "size", size_value(i % 32 + 1));
    insert(&mut table, "timeout_ms", size_value((i ^ round) % 5_000 + 50));
    insert(&mut table, "primary", flag_value(i % 3 == 0));
    table_value(table)
}

/// The document of a round.
fn build_document(round: usize, entries: usize) -> (value: toml::Value)
    ensures
        toml_of(value) == document(round, entries),
{
    let mut root = new_table();
    insert(&mut root, "app", build_app(round, entries));
    let mut table = new_table();
    let mut i: usize = 0;
    proof {
        reveal_strlit("pool-");
    }
    while i < entries
        invariant
            i <= entries,
            is_ascii("pool-"),
            entries_of(table) == pools(round, i as nat),
        decreases entries - i,
    {
        let key = numbered("pool-", i);
        insert(&mut table, key.as_str(), build_pool(round, i));
        i = i + 1;
    }
    insert(&mut root, "pools", table_value(table));
    table_value(root)
}

/// How many pools a document has.
pub open spec fn pool_count(value: Toml) -> nat {
    match value {
        Toml::Table(entries) if entries.contains_key("pools".spec_bytes()) => match entries["pools".spec_bytes()] {
            Toml::Table(pools) => pools.dom().len(),
            _ => 0,
        },
        _ => 0,
    }
}

/// How many pools a document has.
pub fn count_pools(value: &toml::Value) -> (count: usize)
    ensures
        count == pool_count(toml_of(*value)),
{
    match value_at(value, "pools") {
        Some(found) => match as_table(found) {
            Some(table) => table_len(table),
            None => 0,
        },
        None => 0,
    }
}

/// Length of a text in bytes.
pub open spec fn text_len(text: Seq<char>) -> usize {
    encode_utf8(text).len() as usize
}

/// What writing, reading and writing a value again adds to the checksum.
pub open spec fn rewritten(value: Toml) -> usize {
    match toml_text(value) {
        Some(text) => match toml_parsed(text) {
            Some(parsed) => match toml_text(parsed) {
                Some(again) => (text_len(text) ^ text_len(again)) ^ pool_count(parsed) as usize,
                None => text_len(text),
            },
            None => text_len(text),
        },
        None => 0,
    }
}

/// Write, read and write again. Of a plain document the second text is the first, so that
/// the pools are left.
pub fn rewrite(value: &toml::Value) -> (folded: usize)
    ensures
        folded == rewritten(toml_of(*value)),
        plain_document(toml_of(*value)) ==> folded == pool_count(toml_of(*value)) as usize,
{
    match write_toml(value) {
        Some(text) => {
            let len: usize = text.as_str().len();
            assert((len ^ len) == 0 && (0usize ^ (pool_count(toml_of(*value)) as usize))
                == pool_count(toml_of(*value)) as usize) by {
                lemma_cancel(len, pool_count(toml_of(*value)) as usize);
            }
            match read_toml(text.as_str()) {
                Some(parsed) => match write_toml(&parsed) {
                    Some(again) => (len ^ again.as_str().len()) ^ count_pools(&parsed),
                    None => len,
                },
                None => len,
            }
        },
        None => 0,
    }
}

/// Equal lengths cancel out.
proof fn lemma_cancel(len: usize, rest: usize)
    ensures
        (len ^ len) == 0,
        (0usize ^ rest) == rest,
{
    assert((len ^ len) == 0) by (bit_vector);
    assert((0usize ^ rest) == rest) by (bit_vector);
}

/// The application table is plain.
proof fn lemma_app(round: usize, entries: usize)
    ensures
        plain(app(round, entries), 6),
{
    reveal_with_fuel(plain, 4);
    reveal_strlit("name");
    reveal_strlit("workers");
    reveal_strlit("round");
    reveal_strlit("limits");
    reveal_strlit("max_conns");
    reveal_strlit("idle_ms");
    reveal_strlit("svc-");
    lemma_word("name", 0);
    lemma_word("workers", 0);
    lemma_word("round", 0);
    lemma_word("limits", 0);
    lemma_word("max_conns", 0);
    lemma_word("idle_ms", 0);
    lemma_word("svc-", round as nat);
}

/// Pools are plain.
proof fn lemma_pool(round: usize, i: usize)
    ensures
        plain(pool(round, i), 4),
{
    reveal_with_fuel(plain, 3);
    reveal_strlit("size");
    reveal_strlit("timeout_ms");
    reveal_strlit("primary");
    lemma_word("size", 0);
    lemma_word("timeout_ms", 0);
    lemma_word("primary", 0);
}

/// Pools have names of their own.
proof fn lemma_pools(round: usize, count: nat)
    ensures
        pools(round, count).dom().finite(),
        pools(round, count).dom().len() == count,
        forall|key: Seq<u8>| #[trigger]
            pools(round, count).contains_key(key) ==> is_word(key) && plain(
                pools(round, count)[key],
                4,
            ),
        forall|n: nat|
            n >= count ==> !#[trigger] pools(round, count).contains_key(
                "pool-".spec_bytes() + digits_of(n),
            ),
    decreases count,
{
    if count > 0 {
        let last = (count - 1) as nat;
        lemma_pools(round, last);
        lemma_pool(round, last as usize);
        reveal_strlit("pool-");
        lemma_word("pool-", last);
        assert forall|n: nat| n >= count implies !#[trigger] pools(round, count).contains_key(
            "pool-".spec_bytes() + digits_of(n),
        ) by {
            let start = "pool-".spec_bytes();
            lemma_digits_of(n);
            lemma_digits_of(last);
            if start + digits_of(n) == start + digits_of(last) {
                assert((start + digits_of(n)).skip(start.len() as int) =~= digits_of(n));
                assert((start + digits_of(last)).skip(start.len() as int) =~= digits_of(last));
            }
        }
    }
}

/// The document of a round is plain, and has every pool.
pub proof fn law_document_has_every_pool(round: usize, entries: usize)
    ensures
        plain_document(document(round, entries)),
        pool_count(document(round, entries)) == entries,
{
    reveal_with_fuel(plain, 3);
    reveal_strlit("app");
    reveal_strlit("pools");
    lemma_word("app", 0);
    lemma_word("pools", 0);
    lemma_app(round, entries);
    lemma_pools(round, entries as nat);
    lemma_deeper(app(round, entries), 6, 7);
    assert forall|key: Seq<u8>| #[trigger]
        pools(round, entries as nat).contains_key(key) implies plain(
        pools(round, entries as nat)[key],
        6,
    ) by {
        lemma_deeper(pools(round, entries as nat)[key], 4, 6);
    }
}

/// What is plain stays plain under a laxer bound.
proof fn lemma_deeper(value: Toml, depth: nat, more: nat)
    requires
        plain(value, depth),
        depth <= more,
    ensures
        plain(value, more),
    decreases depth,
{
    if let Toml::Table(entries) = value {
        assert forall|key: Seq<u8>| #[trigger] entries.contains_key(key) implies is_word(key)
            && plain(entries[key], (more - 1) as nat) by {
            lemma_deeper(entries[key], (depth - 1) as nat, (more - 1) as nat);
        }
    }
}

/// A document for each round. Each adds its pools.
pub fn toml_config(rounds: usize, entries: usize) -> (checksum: usize)
    ensures
        checksum == xor_seq(Seq::new(rounds as nat, |round: int| entries)),
{
    let mut checksum: usize = 0;
    let mut round: usize = 0;
    let ghost value = |round: int| entries;
    assert(Seq::new(0, value) =~= Seq::<usize>::empty());
    while round < rounds
        invariant
            round <= rounds,
            value == |round: int| entries,
            checksum == xor_seq(Seq::new(round as nat, value)),
        decreases rounds - round,
    {
        let built = build_document(round, entries);
        proof {
            law_document_has_every_pool(round, entries);
        }
        checksum = checksum ^ rewrite(&built);
        round = round + 1;
        assert(Seq::new(round as nat, value).drop_last() =~= Seq::new((round - 1) as nat, value));
    }
    checksum
}

/// `checksum` is one that the workload may return.
pub open spec fn is_checksum(checksum: usize) -> bool {
    checksum == xor_seq(Seq::new(ROUNDS as nat, |round: int| ENTRIES))
}

pub fn run() -> (checksum: usize)
    ensures
        is_checksum(checksum),
{
    toml_config(ROUNDS, ENTRIES)
}

} // verus!
