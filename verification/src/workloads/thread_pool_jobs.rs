//! Jobs of a worker pool: each builds a list of texts.

use vstd::prelude::*;
use vstd::string::*;

use crate::decimal::{digits_of, lemma_digits_short, push_decimal};
use crate::workloads::text::{lemma_literal, push_bytes, xor_seq};

verus! {

pub const THREADS: usize = 4;

pub const ROUNDS: usize = 4;

pub const JOBS: usize = 256;

pub const FIELDS: usize = 8;

pub const ELEMENTS: usize = 1_024;

/// A field of a job.
pub open spec fn field_text(round: usize, index: usize, field: nat) -> Seq<u8> {
    "r".spec_bytes() + digits_of(round as nat) + "-j".spec_bytes() + digits_of(index as nat)
        + "-f".spec_bytes() + digits_of(field)
}

/// Lengths of the first `fields` fields together.
pub open spec fn fields_len(round: usize, index: usize, fields: nat) -> nat
    decreases fields,
{
    if fields == 0 {
        0
    } else {
        fields_len(round, index, (fields - 1) as nat) + field_text(
            round,
            index,
            (fields - 1) as nat,
        ).len()
    }
}

/// What a job adds to the checksum.
pub open spec fn job_value(round: usize, index: usize) -> usize {
    (round ^ index) ^ fields_len(round, index, FIELDS as nat) as usize
}

/// Run one job: what it adds to the checksum, and its fields.
pub fn job(round: usize, index: usize) -> (result: (usize, Vec<Vec<u8>>))
    ensures
        result.0 == job_value(round, index),
        result.1@.map_values(|field: Vec<u8>| field@) == Seq::new(
            FIELDS as nat,
            |field: int| field_text(round, index, field as nat),
        ),
{
    proof {
        reveal_strlit("r");
        reveal_strlit("-j");
        reveal_strlit("-f");
        lemma_literal("r");
        lemma_literal("-j");
        lemma_literal("-f");
        lemma_digits_short(round as nat);
        lemma_digits_short(index as nat);
    }
    let ghost text = |field: int| field_text(round, index, field as nat);
    let mut fields: Vec<Vec<u8>> = Vec::new();
    let mut len: usize = 0;
    let mut field: usize = 0;
    while field < FIELDS
        invariant
            field <= FIELDS,
            text == |field: int| field_text(round, index, field as nat),
            fields@.map_values(|field: Vec<u8>| field@) == Seq::new(field as nat, text),
            len == fields_len(round, index, field as nat),
            len <= field * 65,
            "r".spec_bytes().len() == 1,
            "-j".spec_bytes().len() == 2,
            "-f".spec_bytes().len() == 2,
            digits_of(round as nat).len() <= 20,
            digits_of(index as nat).len() <= 20,
        decreases FIELDS - field,
    {
        let ghost before = fields@;
        let mut one: Vec<u8> = Vec::new();
        push_bytes(&mut one, "r".as_bytes());
        push_decimal(&mut one, round);
        push_bytes(&mut one, "-j".as_bytes());
        push_decimal(&mut one, index);
        push_bytes(&mut one, "-f".as_bytes());
        push_decimal(&mut one, field);
        proof {
            lemma_digits_short(field as nat);
            assert(one@ =~= field_text(round, index, field as nat));
        }
        len = len + one.len();
        fields.push(one);
        field = field + 1;
        proof {
            assert(fields@.map_values(|field: Vec<u8>| field@) =~= before.map_values(
                |field: Vec<u8>| field@,
            ).push(one@));
            assert(Seq::new(field as nat, text) =~= Seq::new((field - 1) as nat, text).push(
                text(field - 1),
            ));
        }
    }
    ((round ^ index) ^ len, fields)
}

/// What a round adds to the checksum.
pub open spec fn round_value(round: usize) -> usize {
    xor_seq(Seq::new(JOBS as nat, |index: int| job_value(round, index as usize)))
}

fn pool_round(round: usize) -> (folded: usize)
    ensures
        folded == round_value(round),
{
    let mut folded: usize = 0;
    let mut index: usize = 0;
    let ghost value = |index: int| job_value(round, index as usize);
    assert(Seq::new(0, value) =~= Seq::<usize>::empty());
    while index < JOBS
        invariant
            index <= JOBS,
            value == |index: int| job_value(round, index as usize),
            folded == xor_seq(Seq::new(index as nat, value)),
        decreases JOBS - index,
    {
        let (local, _fields) = job(round, index);
        folded = folded ^ local;
        index = index + 1;
        assert(Seq::new(index as nat, value).drop_last() =~= Seq::new((index - 1) as nat, value));
    }
    folded
}

/// `checksum` is one that the workload may return.
pub open spec fn is_checksum(checksum: usize) -> bool {
    checksum == xor_seq(Seq::new(ROUNDS as nat, |round: int| round_value(round as usize)))
}

/// The checksum, with the jobs run one after the other.
pub fn run() -> (checksum: usize)
    ensures
        is_checksum(checksum),
{
    let mut checksum: usize = 0;
    let mut round: usize = 0;
    let ghost value = |round: int| round_value(round as usize);
    assert(Seq::new(0, value) =~= Seq::<usize>::empty());
    while round < ROUNDS
        invariant
            round <= ROUNDS,
            value == |round: int| round_value(round as usize),
            checksum == xor_seq(Seq::new(round as nat, value)),
        decreases ROUNDS - round,
    {
        checksum = checksum ^ pool_round(round);
        round = round + 1;
        assert(Seq::new(round as nat, value).drop_last() =~= Seq::new((round - 1) as nat, value));
    }
    checksum
}

} // verus!
