//! Gzip compression and decompression of a deterministic text.

use vstd::prelude::*;
use vstd::string::*;

use crate::decimal::{digits_of, lemma_digits_len, push_decimal};
use crate::workloads::text::{push_bytes, xor_seq};

verus! {

pub const ROUNDS: usize = 8;

pub const KIB: usize = 256;

pub const ELEMENTS: usize = 2_097_152;

/// The gzip stream of a payload.
pub uninterp spec fn gzipped(payload: Seq<u8>) -> Option<Seq<u8>>;

/// The payload of a gzip stream.
pub uninterp spec fn gunzipped(stream: Seq<u8>) -> Option<Seq<u8>>;

/// `flate2::write::GzEncoder` at the default level, written to a vector and finished.
/// What the stream looks like is not stated, nor that there is one: the encoder has an
/// error of its own beside those of the writer.
#[verifier::external_body]
fn gzip(payload: &[u8]) -> (stream: Option<Vec<u8>>)
    ensures
        match stream {
            Some(stream) => gzipped(payload@) == Some(stream@),
            None => gzipped(payload@) is None,
        },
{
    let level = flate2::Compression::default();
    let mut encoder = flate2::write::GzEncoder::new(Vec::new(), level);
    match std::io::Write::write_all(&mut encoder, payload) {
        Ok(()) => encoder.finish().ok(),
        Err(_) => None,
    }
}

/// `flate2::read::GzDecoder` read to its end. The stream of a payload gives the payload
/// back.
#[verifier::external_body]
fn gunzip(stream: &[u8]) -> (payload: Option<Vec<u8>>)
    ensures
        match payload {
            Some(payload) => gunzipped(stream@) == Some(payload@),
            None => gunzipped(stream@) is None,
        },
        forall|original: Seq<u8>|
            #[trigger] gzipped(original) == Some(stream@) ==> (payload matches Some(payload)
                && payload@ == original),
{
    let mut decoder = flate2::read::GzDecoder::new(stream);
    let mut payload = Vec::new();
    match std::io::Read::read_to_end(&mut decoder, &mut payload) {
        Ok(_) => Some(payload),
        Err(_) => None,
    }
}

/// A line of the payload.
pub open spec fn line_text(line: nat, round: usize) -> Seq<u8> {
    "line=".spec_bytes() + digits_of(line) + " round=".spec_bytes() + digits_of(round as nat)
        + " The quick brown fox jumps over the lazy dog.\n".spec_bytes()
}

/// The first `count` lines.
pub open spec fn lines_text(round: usize, count: nat) -> Seq<u8>
    decreases count,
{
    if count == 0 {
        Seq::empty()
    } else {
        lines_text(round, (count - 1) as nat) + line_text((count - 1) as nat, round)
    }
}

/// `count` lines are at least `count` bytes.
pub proof fn lemma_lines_len(round: usize, count: nat)
    ensures
        lines_text(round, count).len() >= count,
    decreases count,
{
    if count > 0 {
        lemma_lines_len(round, (count - 1) as nat);
        lemma_digits_len((count - 1) as nat);
    }
}

/// More lines start with fewer lines.
proof fn lemma_lines_prefix(round: usize, fewer: nat, more: nat)
    requires
        fewer <= more,
    ensures
        lines_text(round, fewer).len() <= lines_text(round, more).len(),
        lines_text(round, more).take(lines_text(round, fewer).len() as int) == lines_text(
            round,
            fewer,
        ),
    decreases more - fewer,
{
    let short = lines_text(round, fewer);
    if fewer < more {
        lemma_lines_prefix(round, fewer, (more - 1) as nat);
        let middle = lines_text(round, (more - 1) as nat);
        assert(lines_text(round, more).take(short.len() as int) =~= middle.take(
            short.len() as int,
        ));
    } else {
        assert(short.take(short.len() as int) =~= short);
    }
}

/// The first `len` bytes of the lines.
pub open spec fn payload_text(round: usize, len: nat) -> Seq<u8> {
    lines_text(round, len).take(len as int)
}

/// The first `len` bytes of the lines.
fn build_payload(round: usize, len: usize) -> (payload: Vec<u8>)
    ensures
        payload@ == payload_text(round, len as nat),
        payload@.len() == len,
{
    let mut payload: Vec<u8> = Vec::new();
    let mut line: usize = 0;
    while payload.len() < len
        invariant
            payload@ == lines_text(round, line as nat),
            line <= len,
        decreases len - line,
    {
        proof {
            lemma_lines_len(round, line as nat);
        }
        push_bytes(&mut payload, "line=".as_bytes());
        push_decimal(&mut payload, line);
        push_bytes(&mut payload, " round=".as_bytes());
        push_decimal(&mut payload, round);
        push_bytes(&mut payload, " The quick brown fox jumps over the lazy dog.\n".as_bytes());
        assert(payload@ =~= lines_text(round, line as nat) + line_text(line as nat, round));
        line = line + 1;
    }
    proof {
        lemma_lines_len(round, len as nat);
        lemma_lines_prefix(round, line as nat, len as nat);
        let whole = lines_text(round, len as nat);
        assert(whole.take(payload@.len() as int).take(len as int) =~= whole.take(len as int));
    }
    payload.truncate(len);
    assert(payload@ =~= payload_text(round, len as nat));
    payload
}

/// What compressing and restoring a payload adds to the checksum: the lengths of payload,
/// stream and output, and the first and last byte of the output.
pub open spec fn restored(payload: Seq<u8>) -> usize {
    match gzipped(payload) {
        Some(stream) => if payload.len() == 0 {
            (0 ^ stream.len() as usize) ^ 0
        } else {
            ((payload.len() as usize ^ stream.len() as usize) ^ payload.len() as usize) ^ (
            payload[0] as usize ^ payload.last() as usize)
        },
        None => 0,
    }
}

/// What compressing a payload, and restoring it to `output`, adds to the checksum.
pub fn fold_output(
    payload: &Vec<u8>,
    stream: &Vec<u8>,
    output: &Vec<u8>,
) -> (folded: usize)
    ensures
        folded == if output@.len() == 0 {
            (payload@.len() as usize ^ stream@.len() as usize) ^ 0
        } else {
            ((payload@.len() as usize ^ stream@.len() as usize) ^ output@.len() as usize) ^ (
            output@[0] as usize ^ output@.last() as usize)
        },
{
    let folded: usize = (payload.len() ^ stream.len()) ^ output.len();
    if output.len() > 0 {
        folded ^ (output[0] as usize ^ output[output.len() - 1] as usize)
    } else {
        folded
    }
}

/// Compress a payload and restore it.
pub fn roundtrip(payload: &Vec<u8>) -> (folded: usize)
    ensures
        folded == restored(payload@),
{
    match gzip(payload.as_slice()) {
        Some(stream) => match gunzip(stream.as_slice()) {
            Some(output) => {
                assert(gzipped(payload@) == Some(stream@));
                assert(output@ == payload@);
                fold_output(payload, &stream, &output)
            },
            None => payload.len() ^ stream.len(),
        },
        None => 0,
    }
}

/// A payload of `kib` KiB for each round.
pub fn compress_roundtrip(rounds: usize, kib: usize) -> (checksum: usize)
    requires
        kib * 1_024 <= isize::MAX,
    ensures
        checksum == xor_seq(
            Seq::new(
                rounds as nat,
                |round: int| restored(payload_text(round as usize, (kib * 1_024) as nat)),
            ),
        ),
{
    let len: usize = kib * 1_024;
    let mut checksum: usize = 0;
    let mut round: usize = 0;
    let ghost value = |round: int| restored(payload_text(round as usize, (kib * 1_024) as nat));
    assert(Seq::new(0, value) =~= Seq::<usize>::empty());
    while round < rounds
        invariant
            round <= rounds,
            len == kib * 1_024,
            value == |round: int| restored(payload_text(round as usize, (kib * 1_024) as nat)),
            checksum == xor_seq(Seq::new(round as nat, value)),
        decreases rounds - round,
    {
        let payload = build_payload(round, len);
        checksum = checksum ^ roundtrip(&payload);
        round = round + 1;
        assert(Seq::new(round as nat, value).drop_last() =~= Seq::new((round - 1) as nat, value));
    }
    checksum
}

/// `checksum` is one that the workload may return.
pub open spec fn is_checksum(checksum: usize) -> bool {
    checksum == xor_seq(
        Seq::new(
            ROUNDS as nat,
            |round: int| restored(payload_text(round as usize, (KIB * 1_024) as nat)),
        ),
    )
}

pub fn run() -> (checksum: usize)
    ensures
        is_checksum(checksum),
{
    compress_roundtrip(ROUNDS, KIB)
}

} // verus!
