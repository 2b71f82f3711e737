//! An HTTP service: connections format requests, read them, and answer. A collector
//! folds the answers in the order in which they arrive.

use vstd::prelude::*;
use vstd::string::*;

use crate::decimal::{digits_of, push_decimal};
use crate::workloads::http::{
    http_parsed,
    is_utf8,
    lower,
    parse_request,
    to_lower,
    HttpRequest,
    RequestHead,
};
use crate::workloads::text::{equal_bytes, push_bytes, xor_seq};

verus! {

pub const THREADS: usize = 4;

pub const ROUNDS: usize = 4;

pub const REQUESTS: usize = 256;

pub const ELEMENTS: usize = 1_024;

/// Room for headers.
pub const MAX_HEADERS: usize = 8;

/// Answers that may wait for the collector.
pub const QUEUE: usize = 64;

/// Request `i` of a connection.
pub open spec fn request_text(conn: usize, i: usize, round: usize) -> Seq<u8> {
    "GET /item/".spec_bytes() + digits_of(i as nat) + "?conn=".spec_bytes() + digits_of(
        conn as nat,
    ) + " HTTP/1.1\r\nhost: bench.local\r\nuser-agent: runic/".spec_bytes() + digits_of(
        round as nat,
    ) + "\r\naccept: */*\r\n\r\n".spec_bytes()
}

/// The value of the first host header at or behind `from`, as far as it is readable.
pub open spec fn host_value(headers: Seq<(Seq<u8>, Seq<u8>)>, from: int) -> Option<Seq<u8>>
    decreases headers.len() - from,
{
    if from >= headers.len() {
        None
    } else if lower(headers[from].0) == "host".spec_bytes() {
        if vstd::utf8::valid_utf8(headers[from].1) {
            Some(headers[from].1)
        } else {
            None
        }
    } else {
        host_value(headers, from + 1)
    }
}

/// The host that a request names.
pub open spec fn host_of(request: RequestHead) -> Seq<u8> {
    match host_value(request.headers, 0) {
        Some(host) => host,
        None => "bench.local".spec_bytes(),
    }
}

/// The path that a request names.
pub open spec fn path_of(request: RequestHead) -> Seq<u8> {
    match request.path {
        Some(path) => path,
        None => "/".spec_bytes(),
    }
}

/// The body that answers request `i`.
pub open spec fn body_text(request: RequestHead, i: usize) -> Seq<u8> {
    "{\"host\":\"".spec_bytes() + host_of(request) + "\",\"path\":\"".spec_bytes() + path_of(
        request,
    ) + "\",\"seq\":".spec_bytes() + digits_of(i as nat) + "}".spec_bytes()
}

/// The response to request `i`.
pub open spec fn response_text(request: RequestHead, i: usize) -> Seq<u8> {
    "HTTP/1.1 200 OK\r\ncontent-type: application/json\r\ncontent-length: ".spec_bytes()
        + digits_of(body_text(request, i).len()) + "\r\n\r\n".spec_bytes() + body_text(request, i)
}

/// What request `i` of a connection reads as.
pub open spec fn request_of(conn: usize, i: usize, round: usize) -> Option<RequestHead> {
    http_parsed(request_text(conn, i, round), MAX_HEADERS as nat)
}

/// Request `i` of a connection.
fn build_request(conn: usize, i: usize, round: usize) -> (raw: Vec<u8>)
    ensures
        raw@ == request_text(conn, i, round),
{
    let mut raw: Vec<u8> = Vec::new();
    push_bytes(&mut raw, "GET /item/".as_bytes());
    push_decimal(&mut raw, i);
    push_bytes(&mut raw, "?conn=".as_bytes());
    push_decimal(&mut raw, conn);
    push_bytes(&mut raw, " HTTP/1.1\r\nhost: bench.local\r\nuser-agent: runic/".as_bytes());
    push_decimal(&mut raw, round);
    push_bytes(&mut raw, "\r\naccept: */*\r\n\r\n".as_bytes());
    assert(raw@ =~= request_text(conn, i, round));
    raw
}

/// Append the host that a request names.
fn push_host(out: &mut Vec<u8>, request: &HttpRequest)
    ensures
        final(out)@ == old(out)@ + host_of(request@),
{
    let ghost headers = request@.headers;
    let mut at: usize = 0;
    while at < request.headers.len()
        invariant
            headers == request@.headers,
            at <= headers.len() == request.headers@.len(),
            host_value(headers, 0) == host_value(headers, at as int),
            out@ == old(out)@,
        decreases headers.len() - at,
    {
        let header = &request.headers[at];
        assert(headers[at as int] == (header.0@, header.1@));
        if equal_bytes(to_lower(header.0.as_slice()).as_slice(), "host".as_bytes()) {
            if is_utf8(header.1.as_slice()) {
                push_bytes(out, header.1.as_slice());
            } else {
                push_bytes(out, "bench.local".as_bytes());
            }
            return;
        }
        at = at + 1;
    }
    push_bytes(out, "bench.local".as_bytes());
}

/// The response to request `i` that was read.
pub fn respond(request: &HttpRequest, i: usize) -> (response: Vec<u8>)
    ensures
        response@ == response_text(request@, i),
{
    let mut body: Vec<u8> = Vec::new();
    push_bytes(&mut body, "{\"host\":\"".as_bytes());
    push_host(&mut body, request);
    push_bytes(&mut body, "\",\"path\":\"".as_bytes());
    match &request.path {
        Some(path) => push_bytes(&mut body, path.as_slice()),
        None => push_bytes(&mut body, "/".as_bytes()),
    }
    push_bytes(&mut body, "\",\"seq\":".as_bytes());
    push_decimal(&mut body, i);
    push_bytes(&mut body, "}".as_bytes());
    assert(body@ =~= body_text(request@, i));
    let mut response: Vec<u8> = Vec::new();
    push_bytes(
        &mut response,
        "HTTP/1.1 200 OK\r\ncontent-type: application/json\r\ncontent-length: ".as_bytes(),
    );
    push_decimal(&mut response, body.len());
    push_bytes(&mut response, "\r\n\r\n".as_bytes());
    push_bytes(&mut response, body.as_slice());
    assert(response@ =~= response_text(request@, i));
    response
}

/// Serve request `i` of a connection: the length of its head and the response, or
/// nothing for a request that cannot be read.
pub fn serve(conn: usize, i: usize, round: usize) -> (served: Option<(usize, Vec<u8>)>)
    ensures
        match request_of(conn, i, round) {
            Some(request) => served matches Some((head, response)) && head == request.head
                && response@ == response_text(request, i),
            None => served is None,
        },
{
    let raw = build_request(conn, i, round);
    match parse_request(raw.as_slice(), MAX_HEADERS) {
        Some(request) => Some((request.head, respond(&request, i))),
        None => None,
    }
}

/// What an answer adds to the checksum.
pub fn collected(head: usize, response: &Vec<u8>) -> (value: usize)
    ensures
        value == head ^ response@.len() as usize,
{
    head ^ response.len()
}

/// What the answer to request `i` adds to the checksum.
pub open spec fn answer_value(conn: usize, i: usize, round: usize) -> usize {
    match request_of(conn, i, round) {
        Some(request) => request.head ^ response_text(request, i).len() as usize,
        None => 0,
    }
}

/// How many of the first `requests` requests of a connection are served.
pub open spec fn served_count(conn: usize, round: usize, requests: nat) -> nat
    decreases requests,
{
    if requests == 0 {
        0
    } else {
        served_count(conn, round, (requests - 1) as nat) + if request_of(
            conn,
            (requests - 1) as usize,
            round,
        ) is Some {
            1nat
        } else {
            0nat
        }
    }
}

/// What a connection adds to the checksum.
pub open spec fn connection_value(conn: usize, round: usize) -> usize {
    xor_seq(Seq::new(REQUESTS as nat, |i: int| answer_value(conn, i as usize, round)))
        ^ served_count(conn, round, REQUESTS as nat) as usize
}

/// All requests of one connection.
fn connection(conn: usize, round: usize) -> (value: usize)
    ensures
        value == connection_value(conn, round),
{
    let mut folded: usize = 0;
    let mut served: usize = 0;
    let mut i: usize = 0;
    let ghost value = |i: int| answer_value(conn, i as usize, round);
    assert(Seq::new(0, value) =~= Seq::<usize>::empty());
    while i < REQUESTS
        invariant
            i <= REQUESTS,
            value == |i: int| answer_value(conn, i as usize, round),
            folded == xor_seq(Seq::new(i as nat, value)),
            served == served_count(conn, round, i as nat),
            served <= i,
        decreases REQUESTS - i,
    {
        match serve(conn, i, round) {
            Some((head, response)) => {
                folded = folded ^ collected(head, &response);
                served = served + 1;
            },
            None => {
                folded = folded ^ 0;
            },
        }
        i = i + 1;
        assert(Seq::new(i as nat, value).drop_last() =~= Seq::new((i - 1) as nat, value));
    }
    folded ^ served
}

/// What a round adds to the checksum.
pub open spec fn round_value(round: usize) -> usize {
    xor_seq(Seq::new(THREADS as nat, |conn: int| connection_value(conn as usize, round)))
}

fn server_round(round: usize) -> (folded: usize)
    ensures
        folded == round_value(round),
{
    let mut folded: usize = 0;
    let mut conn: usize = 0;
    let ghost value = |conn: int| connection_value(conn as usize, round);
    assert(Seq::new(0, value) =~= Seq::<usize>::empty());
    while conn < THREADS
        invariant
            conn <= THREADS,
            value == |conn: int| connection_value(conn as usize, round),
            folded == xor_seq(Seq::new(conn as nat, value)),
        decreases THREADS - conn,
    {
        folded = folded ^ connection(conn, round);
        conn = conn + 1;
        assert(Seq::new(conn as nat, value).drop_last() =~= Seq::new((conn - 1) as nat, value));
    }
    folded
}

/// `checksum` is one that the workload may return.
pub open spec fn is_checksum(checksum: usize) -> bool {
    checksum == xor_seq(Seq::new(ROUNDS as nat, |round: int| round_value(round as usize)))
}

/// The checksum, with the connections served one after the other.
pub fn run() -> (checksum: usize)
    ensures
        is_checksum(checksum),
{
    let mut checksum: usize = 0;
    let mut round: usize = 0;
    let ghost value = |round: int| round_value(round as usize);
    assert(Seq::new(0, value) =~= Seq::<usize>::empty());
    while round < ROUNDS
        invariant
            round <= ROUNDS,
            value == |round: int| round_value(round as usize),
            checksum == xor_seq(Seq::new(round as nat, value)),
        decreases ROUNDS - round,
    {
        checksum = checksum ^ server_round(round);
        round = round + 1;
        assert(Seq::new(round as nat, value).drop_last() =~= Seq::new((round - 1) as nat, value));
    }
    checksum
}

} // verus!
