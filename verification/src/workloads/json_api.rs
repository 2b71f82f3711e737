//! JSON API traffic: build a document, write it, read it, and walk it.

use vstd::prelude::*;
use vstd::string::*;
use vstd::utf8::encode_utf8;

use crate::decimal::digits_of;
use crate::workloads::text::{is_word, lemma_word, numbered, xor_seq};

verus! {

pub const ROUNDS: usize = 8;

pub const USERS: usize = 128;

pub const ELEMENTS: usize = 1_024;

/// What a JSON value holds. Texts and keys are their UTF-8 encodings.
pub enum Json {
    Null,
    Flag(bool),
    Number(nat),
    Text(Seq<u8>),
    List(Seq<Json>),
    Object(Map<Seq<u8>, Json>),
    /// A number that is no natural number, by how it is written.
    Other(Seq<u8>),
}

/// The value type of `serde_json`.
#[verifier::external_type_specification]
#[verifier::external_body]
pub struct ExJsonValue(serde_json::Value);

/// The object type of `serde_json`.
#[verifier::external_type_specification]
#[verifier::external_body]
#[verifier::reject_recursive_types(K)]
#[verifier::reject_recursive_types(V)]
pub struct ExJsonMap<K, V>(serde_json::Map<K, V>);

/// What a value holds.
pub uninterp spec fn json_of(value: serde_json::Value) -> Json;

/// What an object holds.
pub uninterp spec fn members_of(object: serde_json::Map<String, serde_json::Value>) -> Map<
    Seq<u8>,
    Json,
>;

/// The text that a value is written as.
pub uninterp spec fn json_text(value: Json) -> Option<Seq<char>>;

/// The value that a text is read as.
pub uninterp spec fn json_parsed(text: Seq<char>) -> Option<Json>;

/// A value of flags, natural numbers and words, nested at most `depth` times.
pub open spec fn plain(value: Json, depth: nat) -> bool
    decreases depth,
{
    match value {
        Json::Null => true,
        Json::Flag(_) => true,
        Json::Number(number) => number <= u64::MAX,
        Json::Text(text) => is_word(text),
        Json::List(items) => depth > 0 && forall|i: int|
            0 <= i < items.len() ==> plain(#[trigger] items[i], (depth - 1) as nat),
        Json::Object(members) => depth > 0 && forall|key: Seq<u8>| #[trigger]
            members.contains_key(key) ==> is_word(key) && plain(members[key], (depth - 1) as nat),
        Json::Other(_) => false,
    }
}

/// What the elements of a list hold.
pub open spec fn elements_of(items: Seq<serde_json::Value>) -> Seq<Json> {
    items.map_values(|item: serde_json::Value| json_of(item))
}

/// An object without members.
pub open spec fn no_members() -> Map<Seq<u8>, Json> {
    Map::empty()
}

/// `serde_json::Map::new`: an object without members.
#[verifier::external_body]
fn new_object() -> (object: serde_json::Map<String, serde_json::Value>)
    ensures
        members_of(object) == no_members(),
{
    serde_json::Map::new()
}

/// `serde_json::Map::insert`: puts a value under a key, in place of an earlier one.
#[verifier::external_body]
fn insert(
    object: &mut serde_json::Map<String, serde_json::Value>,
    key: &str,
    value: serde_json::Value,
)
    ensures
        members_of(*final(object)) == members_of(*old(object)).insert(
            key.spec_bytes(),
            json_of(value),
        ),
{
    object.insert(key.to_owned(), value);
}

/// `serde_json::Value::Bool`.
#[verifier::external_body]
fn flag_value(flag: bool) -> (value: serde_json::Value)
    ensures
        json_of(value) == Json::Flag(flag),
{
    serde_json::Value::Bool(flag)
}

/// `serde_json::Value::from` on a machine size.
#[verifier::external_body]
fn number_value(number: usize) -> (value: serde_json::Value)
    ensures
        json_of(value) == Json::Number(number as nat),
{
    serde_json::Value::from(number)
}

/// `serde_json::Value::String`.
#[verifier::external_body]
fn text_value(text: String) -> (value: serde_json::Value)
    ensures
        json_of(value) == Json::Text(encode_utf8(text@)),
{
    serde_json::Value::String(text)
}

/// `serde_json::Value::Array`.
#[verifier::external_body]
fn list_value(items: Vec<serde_json::Value>) -> (value: serde_json::Value)
    ensures
        json_of(value) == Json::List(elements_of(items@)),
{
    serde_json::Value::Array(items)
}

/// `serde_json::Value::Object`.
#[verifier::external_body]
fn object_value(object: serde_json::Map<String, serde_json::Value>) -> (value: serde_json::Value)
    ensures
        json_of(value) == Json::Object(members_of(object)),
{
    serde_json::Value::Object(object)
}

/// `serde_json::to_string` of a value: its text, or nothing when it cannot be written. A
/// plain value can be written. What the text looks like is not stated.
#[verifier::external_body]
fn write_json(value: &serde_json::Value) -> (text: Option<String>)
    ensures
        match text {
            Some(text) => json_text(json_of(*value)) == Some(text@),
            None => json_text(json_of(*value)) is None,
        },
        plain(json_of(*value), 8) ==> text is Some,
{
    serde_json::to_string(value).ok()
}

/// `serde_json::from_str` to a value: what the text is read as, or nothing when it is no
/// JSON. The text of a plain value is read as that value. That other texts read back too is
/// not stated.
#[verifier::external_body]
fn read_json(text: &str) -> (value: Option<serde_json::Value>)
    ensures
        match value {
            Some(value) => json_parsed(text@) == Some(json_of(value)),
            None => json_parsed(text@) is None,
        },
        forall|written: Json| #[trigger]
            json_text(written) == Some(text@) && plain(written, 8) ==> (value matches Some(value)
                && json_of(value) == written),
{
    serde_json::from_str::<serde_json::Value>(text).ok()
}

/// Indexing a `serde_json::Value` with a key: the member of an object, null where there
/// is none.
#[verifier::external_body]
fn member<'a>(value: &'a serde_json::Value, key: &str) -> (found: &'a serde_json::Value)
    ensures
        json_of(*found) == member_of(json_of(*value), key.spec_bytes()),
{
    &value[key]
}

/// `serde_json::Value::as_array`: the elements of a list.
#[verifier::external_body]
fn as_list(value: &serde_json::Value) -> (items: Option<&Vec<serde_json::Value>>)
    ensures
        match items {
            Some(items) => json_of(*value) == Json::List(elements_of(items@)),
            None => !(json_of(*value) is List),
        },
{
    value.as_array()
}

/// The member of an object, null where there is none.
pub open spec fn member_of(value: Json, key: Seq<u8>) -> Json {
    match value {
        Json::Object(members) if members.contains_key(key) => members[key],
        _ => Json::Null,
    }
}

/// User `i` of a round.
pub open spec fn user(round: usize, i: usize) -> Json {
    Json::Object(
        Map::empty().insert("id".spec_bytes(), Json::Number((i ^ round) as nat)).insert(
            "name".spec_bytes(),
            Json::Text("user-".spec_bytes() + digits_of(i as nat)),
        ).insert(
            "tags".spec_bytes(),
            Json::List(
                seq![
                    Json::Number((round & 3) as nat),
                    Json::Number((i % 7) as nat),
                    Json::Text("active".spec_bytes()),
                ],
            ),
        ).insert(
            "meta".spec_bytes(),
            Json::Object(
                Map::empty().insert("n".spec_bytes(), Json::Number(i as nat)).insert(
                    "round".spec_bytes(),
                    Json::Number(round as nat),
                ),
            ),
        ),
    )
}

/// The document of a round.
pub open spec fn document(round: usize, users: nat) -> Json {
    Json::Object(
        Map::empty().insert("ok".spec_bytes(), Json::Flag(true)).insert(
            "items".spec_bytes(),
            Json::List(Seq::new(users, |i: int| user(round, i as usize))),
        ),
    )
}

fn build_user(round: usize, i: usize) -> (value: serde_json::Value)
    ensures
        json_of(value) == user(round, i),
{
    proof {
        reveal_strlit("user-");
    }
    let mut object = new_object();
    insert(&mut object, "id", number_value(i ^ round));
    insert(&mut object, "name", text_value(numbered("user-", i)));
    let mut tags: Vec<serde_json::Value> = Vec::new();
    tags.push(number_value(round & 3));
    tags.push(number_value(i % 7));
    tags.push(text_value("active".to_owned()));
    assert(elements_of(tags@) =~= seq![
        Json::Number((round & 3) as nat),
        Json::Number((i % 7) as nat),
        Json::Text("active".spec_bytes()),
    ]);
    insert(&mut object, "tags", list_value(tags));
    let mut meta = new_object();
    insert(&mut meta, "n", number_value(i));
    insert(&mut meta, "round", number_value(round));
    insert(&mut object, "meta", object_value(meta));
    object_value(object)
}

/// The document of a round.
fn build_document(round: usize, users: usize) -> (value: serde_json::Value)
    ensures
        json_of(value) == document(round, users as nat),
{
    let mut items: Vec<serde_json::Value> = Vec::new();
    let mut i: usize = 0;
    let ghost value = |i: int| user(round, i as usize);
    while i < users
        invariant
            i <= users,
            value == |i: int| user(round, i as usize),
            elements_of(items@) == Seq::new(i as nat, value),
        decreases users - i,
    {
        let ghost before = items@;
        let built = build_user(round, i);
        items.push(built);
        i = i + 1;
        assert(elements_of(items@) =~= elements_of(before).push(json_of(built)));
        assert(Seq::new(i as nat, value) =~= Seq::new((i - 1) as nat, value).push(
            user(round, (i - 1) as usize),
        ));
    }
    let mut object = new_object();
    insert(&mut object, "ok", flag_value(true));
    insert(&mut object, "items", list_value(items));
    object_value(object)
}

/// How many items a document lists.
pub open spec fn item_count(value: Json) -> nat {
    match member_of(value, "items".spec_bytes()) {
        Json::List(items) => items.len(),
        _ => 0,
    }
}

/// How many items a document lists.
pub fn count_items(value: &serde_json::Value) -> (count: usize)
    ensures
        count == item_count(json_of(*value)),
{
    match as_list(member(value, "items")) {
        Some(items) => items.len(),
        None => 0,
    }
}

/// Length of a text in bytes.
pub open spec fn text_len(text: Seq<char>) -> usize {
    encode_utf8(text).len() as usize
}

/// What writing and reading a value adds to the checksum.
pub open spec fn walked(value: Json) -> usize {
    match json_text(value) {
        Some(text) => match json_parsed(text) {
            Some(parsed) => text_len(text) ^ item_count(parsed) as usize,
            None => text_len(text),
        },
        None => 0,
    }
}

/// Length of the text that a value is written as, zero where it cannot be written.
pub open spec fn written_len(value: Json) -> usize {
    match json_text(value) {
        Some(text) => text_len(text),
        None => 0,
    }
}

/// Write and read a value. A plain value comes back with all its items.
pub fn walk(value: &serde_json::Value) -> (folded: usize)
    ensures
        folded == walked(json_of(*value)),
        plain(json_of(*value), 8) ==> json_text(json_of(*value)) is Some && folded == written_len(
            json_of(*value),
        ) ^ item_count(json_of(*value)) as usize,
{
    match write_json(value) {
        Some(text) => {
            let len: usize = text.as_str().len();
            match read_json(text.as_str()) {
                Some(parsed) => len ^ count_items(&parsed),
                None => len,
            }
        },
        None => 0,
    }
}

/// Users are plain.
proof fn lemma_user(round: usize, i: usize)
    ensures
        plain(user(round, i), 6),
{
    reveal_with_fuel(plain, 4);
    reveal_strlit("id");
    reveal_strlit("name");
    reveal_strlit("tags");
    reveal_strlit("meta");
    reveal_strlit("n");
    reveal_strlit("round");
    reveal_strlit("user-");
    reveal_strlit("active");
    lemma_word("id", 0);
    lemma_word("name", 0);
    lemma_word("tags", 0);
    lemma_word("meta", 0);
    lemma_word("n", 0);
    lemma_word("round", 0);
    lemma_word("user-", i as nat);
    lemma_word("active", 0);
}

/// The document of a round is plain, and lists every user.
pub proof fn law_document_lists_every_user(round: usize, users: nat)
    ensures
        plain(document(round, users), 8),
        item_count(document(round, users)) == users,
{
    reveal_with_fuel(plain, 3);
    reveal_strlit("ok");
    reveal_strlit("items");
    lemma_word("ok", 0);
    lemma_word("items", 0);
    let items = Seq::new(users, |i: int| user(round, i as usize));
    assert forall|i: int| 0 <= i < items.len() implies plain(#[trigger] items[i], 6) by {
        lemma_user(round, i as usize);
    }
}

/// A document for each round. Each adds its length and its users.
pub fn json_api(rounds: usize, users: usize) -> (checksum: usize)
    ensures
        checksum == xor_seq(
            Seq::new(
                rounds as nat,
                |round: int| written_len(document(round as usize, users as nat)) ^ users,
            ),
        ),
{
    let mut checksum: usize = 0;
    let mut round: usize = 0;
    let ghost value = |round: int| written_len(document(round as usize, users as nat)) ^ users;
    assert(Seq::new(0, value) =~= Seq::<usize>::empty());
    while round < rounds
        invariant
            round <= rounds,
            value == |round: int| written_len(document(round as usize, users as nat)) ^ users,
            checksum == xor_seq(Seq::new(round as nat, value)),
        decreases rounds - round,
    {
        let built = build_document(round, users);
        proof {
            law_document_lists_every_user(round, users as nat);
        }
        checksum = checksum ^ walk(&built);
        round = round + 1;
        assert(Seq::new(round as nat, value).drop_last() =~= Seq::new((round - 1) as nat, value));
    }
    checksum
}

/// `checksum` is one that the workload may return.
pub open spec fn is_checksum(checksum: usize) -> bool {
    checksum == xor_seq(
        Seq::new(
            ROUNDS as nat,
            |round: int| written_len(document(round as usize, USERS as nat)) ^ USERS,
        ),
    )
}

pub fn run() -> (checksum: usize)
    ensures
        is_checksum(checksum),
{
    json_api(ROUNDS, USERS)
}

} // verus!
