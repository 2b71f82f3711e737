//! HTTP request parse, header map, and response body.

use vstd::prelude::*;
use vstd::string::*;

use crate::decimal::{decimal, digits_of, lemma_digits_short, push_decimal};
use crate::workloads::http::{
    bytes_of,
    collect_headers,
    contents,
    header_map,
    http_parsed,
    lemma_header_count,
    new_buffer,
    parse_request,
    put_slice,
    HttpRequest,
    RequestHead,
};
use crate::workloads::text::{push_bytes, xor_seq};

verus! {

pub const ROUNDS: usize = 16;

pub const REQUESTS: usize = 256;

pub const ELEMENTS: usize = 4_096;

/// Room for headers.
pub const HEADERS: usize = 16;

/// The request of item `i`.
pub open spec fn request_text(i: usize, round: usize) -> Seq<u8> {
    "GET /api/items/".spec_bytes() + digits_of((i % 10_000) as nat) + "?round=".spec_bytes()
        + digits_of(round as nat)
        + " HTTP/1.1\r\nHost: bench.local\r\nAccept: application/json\r\n".spec_bytes()
        + "X-Request-Id: ".spec_bytes() + digits_of((i ^ round) as nat)
        + "\r\nUser-Agent: runic-bench\r\n\r\n".spec_bytes()
}

/// The body that answers a request for `path` with `headers` readable headers.
pub open spec fn body_text(i: usize, round: usize, path: Seq<u8>, headers: nat) -> Seq<u8> {
    "{\"id\":".spec_bytes() + digits_of(i as nat) + ",\"round\":".spec_bytes() + digits_of(
        round as nat,
    ) + ",\"path\":\"".spec_bytes() + path + "\",\"headers\":".spec_bytes() + digits_of(headers)
        + "}".spec_bytes()
}

/// The response with `body`.
pub open spec fn response_text(body: Seq<u8>) -> Seq<u8> {
    "HTTP/1.1 200 OK\r\nContent-Type: application/json\r\nContent-Length: ".spec_bytes()
        + digits_of(body.len()) + "\r\n\r\n".spec_bytes() + body
}

/// The path of a request, empty when it has none.
pub open spec fn path_of(request: RequestHead) -> Seq<u8> {
    match request.path {
        Some(path) => path,
        None => Seq::empty(),
    }
}

/// The response to a request.
pub open spec fn answer_text(request: RequestHead, i: usize, round: usize) -> Seq<u8> {
    let headers = header_map(request.headers, request.headers.len());
    response_text(body_text(i, round, path_of(request), headers.dom().len()))
}

/// What an answered request adds to the checksum: the lengths of path, response and
/// request id, and the number of readable headers.
pub open spec fn answered(request: RequestHead, i: usize, round: usize) -> usize {
    let headers = header_map(request.headers, request.headers.len());
    let path = path_of(request);
    let value = (path.len() as usize ^ headers.dom().len() as usize) ^ answer_text(
        request,
        i,
        round,
    ).len() as usize;
    let id = "x-request-id".spec_bytes();
    if headers.contains_key(id) {
        value ^ headers[id].len() as usize
    } else {
        value
    }
}

/// What item `i` adds to the checksum. A request that cannot be read adds nothing.
pub open spec fn item_value(i: usize, round: usize) -> usize {
    match http_parsed(request_text(i, round), HEADERS as nat) {
        Some(request) => answered(request, i, round),
        None => 0,
    }
}

/// How long the fixed pieces are.
proof fn lemma_pieces()
    ensures
        "GET /api/items/".spec_bytes().len() == 15,
        "?round=".spec_bytes().len() == 7,
        " HTTP/1.1\r\nHost: bench.local\r\nAccept: application/json\r\n".spec_bytes().len() == 56,
        "X-Request-Id: ".spec_bytes().len() == 14,
        "\r\nUser-Agent: runic-bench\r\n\r\n".spec_bytes().len() == 29,
        "HTTP/1.1 200 OK\r\nContent-Type: application/json\r\nContent-Length: ".spec_bytes().len()
            == 65,
        "\r\n\r\n".spec_bytes().len() == 4,
{
    broadcast use vstd::string::is_ascii_spec_bytes;

    reveal_strlit("GET /api/items/");
    reveal_strlit("?round=");
    reveal_strlit(" HTTP/1.1\r\nHost: bench.local\r\nAccept: application/json\r\n");
    reveal_strlit("X-Request-Id: ");
    reveal_strlit("\r\nUser-Agent: runic-bench\r\n\r\n");
    reveal_strlit("HTTP/1.1 200 OK\r\nContent-Type: application/json\r\nContent-Length: ");
    reveal_strlit("\r\n\r\n");
    assert(vstd::string::is_ascii("GET /api/items/"));
    assert(vstd::string::is_ascii("?round="));
    assert(vstd::string::is_ascii(
        " HTTP/1.1\r\nHost: bench.local\r\nAccept: application/json\r\n",
    ));
    assert(vstd::string::is_ascii("X-Request-Id: "));
    assert(vstd::string::is_ascii("\r\nUser-Agent: runic-bench\r\n\r\n"));
    assert(vstd::string::is_ascii(
        "HTTP/1.1 200 OK\r\nContent-Type: application/json\r\nContent-Length: ",
    ));
    assert(vstd::string::is_ascii("\r\n\r\n"));
}

/// The request of item `i`.
fn build_request(i: usize, round: usize) -> (raw: bytes::BytesMut)
    ensures
        bytes_of(raw) == request_text(i, round),
        bytes_of(raw).len() <= 192,
{
    proof {
        lemma_pieces();
        lemma_digits_short((i % 10_000) as nat);
        lemma_digits_short(round as nat);
        lemma_digits_short((i ^ round) as nat);
    }
    let mut raw = new_buffer(192);
    put_slice(&mut raw, "GET /api/items/".as_bytes());
    put_slice(&mut raw, decimal(i % 10_000).as_slice());
    put_slice(&mut raw, "?round=".as_bytes());
    put_slice(&mut raw, decimal(round).as_slice());
    put_slice(
        &mut raw,
        " HTTP/1.1\r\nHost: bench.local\r\nAccept: application/json\r\n".as_bytes(),
    );
    put_slice(&mut raw, "X-Request-Id: ".as_bytes());
    put_slice(&mut raw, decimal(i ^ round).as_slice());
    put_slice(&mut raw, "\r\nUser-Agent: runic-bench\r\n\r\n".as_bytes());
    assert(bytes_of(raw) =~= request_text(i, round));
    raw
}

/// The body that answers a request.
fn build_body(i: usize, round: usize, path: &[u8], headers: usize) -> (body: Vec<u8>)
    ensures
        body@ == body_text(i, round, path@, headers as nat),
{
    let mut body: Vec<u8> = Vec::new();
    push_bytes(&mut body, "{\"id\":".as_bytes());
    push_decimal(&mut body, i);
    push_bytes(&mut body, ",\"round\":".as_bytes());
    push_decimal(&mut body, round);
    push_bytes(&mut body, ",\"path\":\"".as_bytes());
    push_bytes(&mut body, path);
    push_bytes(&mut body, "\",\"headers\":".as_bytes());
    push_decimal(&mut body, headers);
    push_bytes(&mut body, "}".as_bytes());
    assert(body@ =~= body_text(i, round, path@, headers as nat));
    body
}

/// Answer a request that was read. The response fits in a buffer.
pub fn answer(request: &HttpRequest, i: usize, round: usize) -> (value: usize)
    requires
        answer_text(request@, i, round).len() <= isize::MAX,
    ensures
        value == answered(request@, i, round),
{
    let map = collect_headers(request);
    let none: Vec<u8> = Vec::new();
    let path: &Vec<u8> = match &request.path {
        Some(path) => path,
        None => &none,
    };
    assert(path@ =~= path_of(request@));
    let headers: usize = map.len();
    let body = build_body(i, round, path.as_slice(), headers);
    proof {
        lemma_pieces();
        assert(response_text(body@) == answer_text(request@, i, round));
    }
    let mut response = new_buffer(64 + body.len());
    put_slice(
        &mut response,
        "HTTP/1.1 200 OK\r\nContent-Type: application/json\r\nContent-Length: ".as_bytes(),
    );
    put_slice(&mut response, decimal(body.len()).as_slice());
    put_slice(&mut response, "\r\n\r\n".as_bytes());
    put_slice(&mut response, body.as_slice());
    assert(bytes_of(response) =~= response_text(body@));
    let value: usize = (path.len() ^ headers) ^ contents(&response).len();
    match map.get("x-request-id".as_bytes()) {
        Some(id) => value ^ id.len(),
        None => value,
    }
}

/// A body is not much longer than its path.
proof fn lemma_body_len(i: usize, round: usize, path: Seq<u8>, headers: nat)
    requires
        headers <= usize::MAX,
    ensures
        body_text(i, round, path, headers).len() <= path.len() + 128,
{
    broadcast use vstd::string::is_ascii_spec_bytes;

    reveal_strlit("{\"id\":");
    reveal_strlit(",\"round\":");
    reveal_strlit(",\"path\":\"");
    reveal_strlit("\",\"headers\":");
    reveal_strlit("}");
    assert(vstd::string::is_ascii("{\"id\":"));
    assert(vstd::string::is_ascii(",\"round\":"));
    assert(vstd::string::is_ascii(",\"path\":\""));
    assert(vstd::string::is_ascii("\",\"headers\":"));
    assert(vstd::string::is_ascii("}"));
    lemma_digits_short(i as nat);
    lemma_digits_short(round as nat);
    lemma_digits_short(headers);
}

/// Build, read and answer the request of item `i`.
fn item(i: usize, round: usize) -> (value: usize)
    ensures
        value == item_value(i, round),
{
    let raw = build_request(i, round);
    match parse_request(contents(&raw), HEADERS) {
        Some(request) => {
            proof {
                let head = request@;
                let count = header_map(head.headers, head.headers.len()).dom().len();
                lemma_pieces();
                assert(head.headers.len() == request.headers.len());
                lemma_header_count(head.headers, head.headers.len());
                lemma_body_len(i, round, path_of(head), count);
                lemma_digits_short(body_text(i, round, path_of(head), count).len());
            }
            answer(&request, i, round)
        },
        None => 0,
    }
}

/// What one round adds to the checksum.
pub open spec fn round_value(round: usize, requests: nat) -> usize {
    xor_seq(Seq::new(requests, |i: int| item_value(i as usize, round)))
}

fn http_round(round: usize, requests: usize) -> (value: usize)
    ensures
        value == round_value(round, requests as nat),
{
    let mut folded: usize = 0;
    let mut i: usize = 0;
    let ghost value = |i: int| item_value(i as usize, round);
    assert(Seq::new(0, value) =~= Seq::<usize>::empty());
    while i < requests
        invariant
            i <= requests,
            value == |i: int| item_value(i as usize, round),
            folded == xor_seq(Seq::new(i as nat, value)),
        decreases requests - i,
    {
        folded = folded ^ item(i, round);
        i = i + 1;
        assert(Seq::new(i as nat, value).drop_last() =~= Seq::new((i - 1) as nat, value));
    }
    folded
}

/// Requests of every round.
pub fn http_parse(rounds: usize, requests: usize) -> (checksum: usize)
    ensures
        checksum == xor_seq(
            Seq::new(rounds as nat, |round: int| round_value(round as usize, requests as nat)),
        ),
{
    let mut checksum: usize = 0;
    let mut round: usize = 0;
    let ghost value = |round: int| round_value(round as usize, requests as nat);
    assert(Seq::new(0, value) =~= Seq::<usize>::empty());
    while round < rounds
        invariant
            round <= rounds,
            value == |round: int| round_value(round as usize, requests as nat),
            checksum == xor_seq(Seq::new(round as nat, value)),
        decreases rounds - round,
    {
        checksum = checksum ^ http_round(round, requests);
        round = round + 1;
        assert(Seq::new(round as nat, value).drop_last() =~= Seq::new((round - 1) as nat, value));
    }
    checksum
}

/// `checksum` is one that the workload may return.
pub open spec fn is_checksum(checksum: usize) -> bool {
    checksum == xor_seq(
        Seq::new(ROUNDS as nat, |round: int| round_value(round as usize, REQUESTS as nat)),
    )
}

pub fn run() -> (checksum: usize)
    ensures
        is_checksum(checksum),
{
    http_parse(ROUNDS, REQUESTS)
}

} // verus!
