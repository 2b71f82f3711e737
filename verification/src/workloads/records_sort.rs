//! Report: one record per id, ranked by score, then grouped by region.

use vstd::prelude::*;
use vstd::string::*;

use crate::decimal::{decimal, digits_of, lemma_digits_short, push_decimal};
use crate::rng::{draw, TraceRng};
use crate::workloads::text::{lemma_literal, push_bytes, xor_seq};

verus! {

pub const ROUNDS: usize = 8;

pub const RECORDS: usize = 2_048;

pub const ELEMENTS: usize = 16_384;

pub const TOP: usize = 16;

pub const REGIONS: usize = 8;

/// A record.
pub struct Record {
    pub id: usize,
    pub name: Vec<u8>,
    pub tags: Vec<Vec<u8>>,
    pub region: u8,
    pub score: usize,
}

/// What a record says.
#[verifier::ext_equal]
pub struct Row {
    pub id: usize,
    pub name: Seq<u8>,
    pub tags: Seq<Seq<u8>>,
    pub region: u8,
    pub score: usize,
}

impl View for Record {
    type V = Row;

    open spec fn view(&self) -> Row {
        Row {
            id: self.id,
            name: self.name@,
            tags: self.tags@.map_values(|tag: Vec<u8>| tag@),
            region: self.region,
            score: self.score,
        }
    }
}

/// The stream of a round.
pub open spec fn seed_of(round: usize) -> u64 {
    0x5eca_2d51u64 ^ round as u64
}

/// Ids are drawn below this.
pub open spec fn id_bound(records: usize) -> int {
    if records == 0 {
        2
    } else {
        records * 2
    }
}

/// `n` with at least six digits.
pub open spec fn six_digits(n: nat) -> Seq<u8> {
    let digits = digits_of(n);
    if digits.len() < 6 {
        Seq::new((6 - digits.len()) as nat, |k: int| 48u8) + digits
    } else {
        digits
    }
}

/// Tag `tag` of record `i`.
pub open spec fn tag_text(round: usize, i: usize, tag: int) -> Seq<u8> {
    "tag-".spec_bytes() + digits_of(((tag + i + round) % 31) as nat)
}

/// Record `i` of a round.
pub open spec fn row_of(round: usize, records: usize, i: usize) -> Row {
    let id = draw(seed_of(round), 2 * i as nat, id_bound(records)) as usize;
    Row {
        id,
        name: "acct-".spec_bytes() + six_digits(id as nat) + "-".spec_bytes() + digits_of(
            (i ^ round) as nat,
        ),
        tags: Seq::new((2 + id % 3) as nat, |tag: int| tag_text(round, i, tag)),
        region: (id % 8) as u8,
        score: draw(seed_of(round), (2 * i + 1) as nat, 10_000) as usize,
    }
}

/// The records of a round.
pub open spec fn rows_of(round: usize, records: usize, count: nat) -> Seq<Row> {
    Seq::new(count, |i: int| row_of(round, records, i as usize))
}

/// What a list of records says.
pub open spec fn said(rows: Seq<Record>) -> Seq<Row> {
    rows.map_values(|record: Record| record@)
}

/// Write `n` with at least six digits.
fn push_six(out: &mut Vec<u8>, n: usize)
    ensures
        final(out)@ == old(out)@ + six_digits(n as nat),
{
    let ghost before = out@;
    let digits = decimal(n);
    let mut len: usize = digits.len();
    while len < 6
        invariant
            digits@.len() <= len,
            len <= 6 || len == digits@.len(),
            out@ == before + Seq::new((len - digits@.len()) as nat, |k: int| 48u8),
        decreases 6 - len,
    {
        out.push(48);
        len = len + 1;
        assert(out@ =~= before + Seq::new((len - digits@.len()) as nat, |k: int| 48u8));
    }
    push_bytes(out, digits.as_slice());
    assert(out@ =~= before + six_digits(n as nat));
}

/// Record `i` of a round, from what was drawn for it.
pub fn build_record(round: usize, i: usize, id: usize, score: usize) -> (record: Record)
    requires
        i + round + 4 <= usize::MAX,
    ensures
        record@ == (Row {
            id,
            name: "acct-".spec_bytes() + six_digits(id as nat) + "-".spec_bytes() + digits_of(
                (i ^ round) as nat,
            ),
            tags: Seq::new((2 + id % 3) as nat, |tag: int| tag_text(round, i, tag)),
            region: (id % 8) as u8,
            score,
        }),
{
    let mut name: Vec<u8> = Vec::new();
    push_bytes(&mut name, "acct-".as_bytes());
    push_six(&mut name, id);
    push_bytes(&mut name, "-".as_bytes());
    push_decimal(&mut name, i ^ round);
    assert(name@ =~= "acct-".spec_bytes() + six_digits(id as nat) + "-".spec_bytes() + digits_of(
        (i ^ round) as nat,
    ));
    let mut tags: Vec<Vec<u8>> = Vec::new();
    let mut tag: usize = 0;
    while tag < 2 + id % 3
        invariant
            tag <= 2 + id % 3,
            i + round + 4 <= usize::MAX,
            tags@.map_values(|tag: Vec<u8>| tag@) == Seq::new(
                tag as nat,
                |tag: int| tag_text(round, i, tag),
            ),
        decreases 2 + id % 3 - tag,
    {
        let ghost before = tags@;
        let mut text: Vec<u8> = Vec::new();
        push_bytes(&mut text, "tag-".as_bytes());
        push_decimal(&mut text, (tag + i + round) % 31);
        assert(text@ =~= tag_text(round, i, tag as int));
        tags.push(text);
        tag = tag + 1;
        proof {
            assert(tags@.map_values(|tag: Vec<u8>| tag@) =~= before.map_values(
                |tag: Vec<u8>| tag@,
            ).push(text@));
            assert(tags@.map_values(|tag: Vec<u8>| tag@) =~= Seq::new(
                tag as nat,
                |tag: int| tag_text(round, i, tag),
            ));
        }
    }
    Record { id, name, tags, region: (id % 8) as u8, score }
}

/// Draw the records of a round.
pub fn draw_records(round: usize, records: usize) -> (rows: Vec<Record>)
    requires
        records * 2 <= usize::MAX,
        records + round + 4 <= usize::MAX,
    ensures
        said(rows@) == rows_of(round, records, records as nat),
{
    let mut rng = TraceRng::new(0x5eca_2d51u64 ^ round as u64);
    let bound: usize = if records == 0 {
        2
    } else {
        records * 2
    };
    let mut rows: Vec<Record> = Vec::new();
    let mut i: usize = 0;
    assert(said(rows@) =~= rows_of(round, records, 0));
    while i < records
        invariant
            i <= records,
            records + round + 4 <= usize::MAX,
            bound == id_bound(records),
            rng.at(seed_of(round), 2 * i as nat),
            said(rows@) == rows_of(round, records, i as nat),
        decreases records - i,
    {
        let ghost before = rows@;
        let id: usize = rng.next_usize(bound);
        assert(rng.at(seed_of(round), (2 * i + 1) as nat));
        let score: usize = rng.next_usize(10_000);
        let record = build_record(round, i, id, score);
        rows.push(record);
        proof {
            assert(record@ =~= row_of(round, records, i));
            assert(said(rows@) =~= said(before).push(record@));
            assert(said(rows@) =~= rows_of(round, records, (i + 1) as nat));
        }
        i = i + 1;
        assert(rng.at(seed_of(round), 2 * i as nat));
    }
    rows
}

/// No earlier record has the id of record `i`.
pub open spec fn is_first(rows: Seq<Row>, i: int) -> bool {
    forall|k: int| 0 <= k < i ==> #[trigger] rows[k].id != rows[i].id
}

/// Of the first `count` records, the first one of each id.
pub open spec fn firsts(rows: Seq<Row>, count: nat) -> Seq<usize>
    decreases count,
{
    if count == 0 {
        Seq::empty()
    } else {
        let earlier = firsts(rows, (count - 1) as nat);
        if is_first(rows, count - 1) {
            earlier.push((count - 1) as usize)
        } else {
            earlier
        }
    }
}

/// Every id keeps one record, and no id keeps two.
pub proof fn law_one_record_per_id(rows: Seq<Row>, i: int)
    requires
        0 <= i < rows.len() <= usize::MAX,
    ensures
        exists|k: int|
            0 <= k < firsts(rows, rows.len()).len() && rows[#[trigger] firsts(
                rows,
                rows.len(),
            )[k] as int].id == rows[i].id,
        forall|a: int, b: int|
            0 <= a < b < firsts(rows, rows.len()).len() ==> rows[#[trigger] firsts(
                rows,
                rows.len(),
            )[a] as int].id != rows[#[trigger] firsts(rows, rows.len())[b] as int].id,
{
    lemma_firsts(rows, rows.len());
    let kept = firsts(rows, rows.len());
    let first = lemma_first_of(rows, i);
    assert(is_first(rows, first));
    assert(kept.contains(first as usize));
    let k = kept.index_of(first as usize);
    assert(rows[kept[k] as int].id == rows[i].id);
    assert forall|a: int, b: int| 0 <= a < b < kept.len() implies rows[#[trigger] kept[a] as int].id
        != rows[#[trigger] kept[b] as int].id by {
        assert(is_first(rows, kept[b] as int));
        assert(kept[a] < kept[b]);
    }
}

/// The first record with the id of record `i`.
proof fn lemma_first_of(rows: Seq<Row>, i: int) -> (first: int)
    requires
        0 <= i < rows.len(),
    ensures
        0 <= first <= i,
        rows[first].id == rows[i].id,
        is_first(rows, first),
    decreases i,
{
    if is_first(rows, i) {
        i
    } else {
        let earlier = choose|k: int| 0 <= k < i && #[trigger] rows[k].id == rows[i].id;
        lemma_first_of(rows, earlier)
    }
}

/// The kept records in order: exactly the first ones.
proof fn lemma_firsts(rows: Seq<Row>, count: nat)
    requires
        count <= rows.len() <= usize::MAX,
    ensures
        forall|k: int|
            0 <= k < firsts(rows, count).len() ==> #[trigger] firsts(rows, count)[k] < count
                && is_first(rows, firsts(rows, count)[k] as int),
        forall|a: int, b: int|
            0 <= a < b < firsts(rows, count).len() ==> #[trigger] firsts(rows, count)[a]
                < #[trigger] firsts(rows, count)[b],
        forall|i: int|
            0 <= i < count && #[trigger] is_first(rows, i) ==> firsts(rows, count).contains(
                i as usize,
            ),
    decreases count,
{
    if count > 0 {
        let earlier = firsts(rows, (count - 1) as nat);
        let now = firsts(rows, count);
        lemma_firsts(rows, (count - 1) as nat);
        assert forall|i: int| 0 <= i < count && #[trigger] is_first(rows, i) implies now.contains(
            i as usize,
        ) by {
            if i == count - 1 {
                assert(now[now.len() - 1] == i as usize);
            } else {
                let k = earlier.index_of(i as usize);
                assert(now[k] == i as usize);
            }
        }
    }
}

/// Whether no earlier record has the id of record `i`.
fn first_of_id(rows: &Vec<Record>, i: usize) -> (first: bool)
    requires
        i < rows@.len(),
    ensures
        first == is_first(said(rows@), i as int),
{
    let ghost all = said(rows@);
    let mut k: usize = 0;
    while k < i
        invariant
            k <= i < rows@.len(),
            all == said(rows@),
            forall|j: int| 0 <= j < k ==> #[trigger] all[j].id != all[i as int].id,
        decreases i - k,
    {
        assert(all[k as int].id == rows@[k as int].id);
        assert(all[i as int].id == rows@[i as int].id);
        if rows[k].id == rows[i].id {
            return false;
        }
        k = k + 1;
    }
    true
}

/// The first record of each id.
pub fn dedup(rows: &Vec<Record>) -> (kept: Vec<usize>)
    ensures
        kept@ == firsts(said(rows@), rows@.len()),
{
    let mut kept: Vec<usize> = Vec::new();
    let mut i: usize = 0;
    while i < rows.len()
        invariant
            i <= rows@.len(),
            kept@ == firsts(said(rows@), i as nat),
        decreases rows@.len() - i,
    {
        if first_of_id(rows, i) {
            kept.push(i);
        }
        i = i + 1;
    }
    kept
}

/// `left` comes no later than `right` in the order of bytes.
pub open spec fn text_le(left: Seq<u8>, right: Seq<u8>) -> bool
    decreases left.len(),
{
    if left.len() == 0 {
        true
    } else if right.len() == 0 {
        false
    } else if left[0] != right[0] {
        left[0] < right[0]
    } else {
        text_le(left.drop_first(), right.drop_first())
    }
}

proof fn lemma_text_total(left: Seq<u8>, right: Seq<u8>)
    ensures
        text_le(left, right) || text_le(right, left),
    decreases left.len(),
{
    if left.len() > 0 && right.len() > 0 && left[0] == right[0] {
        lemma_text_total(left.drop_first(), right.drop_first());
    }
}

proof fn lemma_text_chain(left: Seq<u8>, middle: Seq<u8>, right: Seq<u8>)
    requires
        text_le(left, middle),
        text_le(middle, right),
    ensures
        text_le(left, right),
    decreases left.len(),
{
    if left.len() > 0 && middle.len() > 0 && right.len() > 0 && left[0] == middle[0] && middle[0]
        == right[0] {
        lemma_text_chain(left.drop_first(), middle.drop_first(), right.drop_first());
    }
}

/// Whether `left` comes no later than `right`.
fn text_no_later(left: &[u8], right: &[u8]) -> (le: bool)
    ensures
        le == text_le(left@, right@),
{
    let mut i: usize = 0;
    assert(left@.skip(0) =~= left@);
    assert(right@.skip(0) =~= right@);
    while i < left.len()
        invariant
            i <= left@.len(),
            i <= right@.len(),
            text_le(left@, right@) == text_le(left@.skip(i as int), right@.skip(i as int)),
        decreases left@.len() - i,
    {
        if i >= right.len() {
            return false;
        }
        if left[i] != right[i] {
            return left[i] < right[i];
        }
        assert(left@.skip(i as int).drop_first() =~= left@.skip(i + 1));
        assert(right@.skip(i as int).drop_first() =~= right@.skip(i + 1));
        i = i + 1;
    }
    true
}

/// `left` ranks no later than `right`: a higher score first, then the earlier name.
pub open spec fn ranks(left: Row, right: Row) -> bool {
    left.score > right.score || (left.score == right.score && text_le(left.name, right.name))
}

proof fn lemma_ranks_chain(left: Row, middle: Row, right: Row)
    requires
        ranks(left, middle),
        ranks(middle, right),
    ensures
        ranks(left, right),
{
    if left.score == middle.score && middle.score == right.score {
        lemma_text_chain(left.name, middle.name, right.name);
    }
}

/// `order` is in the order of ranks.
pub open spec fn ranked(rows: Seq<Row>, order: Seq<usize>) -> bool {
    forall|a: int, b: int|
        0 <= a < b < order.len() ==> ranks(
            rows[#[trigger] order[a] as int],
            rows[#[trigger] order[b] as int],
        )
}

fn ranks_before(rows: &Vec<Record>, left: usize, right: usize) -> (before: bool)
    requires
        left < rows@.len(),
        right < rows@.len(),
    ensures
        before == ranks(said(rows@)[left as int], said(rows@)[right as int]),
{
    if rows[left].score != rows[right].score {
        rows[left].score > rows[right].score
    } else {
        text_no_later(rows[left].name.as_slice(), rows[right].name.as_slice())
    }
}

/// Sort records by rank.
pub fn rank(rows: &Vec<Record>, kept: &Vec<usize>) -> (order: Vec<usize>)
    requires
        forall|k: int| 0 <= k < kept@.len() ==> #[trigger] kept@[k] < rows@.len(),
    ensures
        order@.to_multiset() == kept@.to_multiset(),
        order@.len() == kept@.len(),
        forall|k: int| 0 <= k < order@.len() ==> #[trigger] order@[k] < rows@.len(),
        ranked(said(rows@), order@),
{
    let ghost all = said(rows@);
    let mut order: Vec<usize> = Vec::new();
    let mut i: usize = 0;
    assert(kept@.take(0) =~= Seq::<usize>::empty());
    while i < kept.len()
        invariant
            i <= kept@.len(),
            all == said(rows@),
            forall|k: int| 0 <= k < kept@.len() ==> #[trigger] kept@[k] < rows@.len(),
            order@.len() == i,
            forall|k: int| 0 <= k < order@.len() ==> #[trigger] order@[k] < rows@.len(),
            ranked(all, order@),
            order@.to_multiset() == kept@.take(i as int).to_multiset(),
        decreases kept@.len() - i,
    {
        let row: usize = kept[i];
        let ghost before = order@;
        let mut at: usize = 0;
        while at < order.len() && ranks_before(rows, order[at], row)
            invariant
                at <= order@.len(),
                order@ == before,
                row < rows@.len(),
                all == said(rows@),
                forall|k: int| 0 <= k < order@.len() ==> #[trigger] order@[k] < rows@.len(),
                forall|k: int|
                    0 <= k < at ==> ranks(all[#[trigger] order@[k] as int], all[row as int]),
            decreases order@.len() - at,
        {
            at = at + 1;
        }
        order.insert(at, row);
        proof {
            broadcast use vstd::seq_lib::group_to_multiset_ensures;

            assert(kept@.take(i + 1) =~= kept@.take(i as int).push(row));
            lemma_insert_ranked(all, before, at as int, row);
            assert(order@ =~= before.insert(at as int, row));
            assert forall|k: int| 0 <= k < order@.len() implies #[trigger] order@[k]
                < rows@.len() by {
                if k < at {
                    assert(order@[k] == before[k]);
                } else if k > at {
                    assert(order@[k] == before[k - 1]);
                }
            }
        }
        i = i + 1;
    }
    assert(kept@.take(kept@.len() as int) =~= kept@);
    order
}

/// A record put behind all that rank before it, and before one that does not, keeps the
/// order.
proof fn lemma_insert_ranked(rows: Seq<Row>, order: Seq<usize>, at: int, row: usize)
    requires
        ranked(rows, order),
        0 <= at <= order.len(),
        forall|k: int| 0 <= k < at ==> ranks(rows[#[trigger] order[k] as int], rows[row as int]),
        at < order.len() ==> !ranks(rows[order[at] as int], rows[row as int]),
    ensures
        ranked(rows, order.insert(at, row)),
{
    let after = order.insert(at, row);
    assert forall|a: int, b: int| 0 <= a < b < after.len() implies ranks(
        rows[#[trigger] after[a] as int],
        rows[#[trigger] after[b] as int],
    ) by {
        if b < at {
            assert(after[a] == order[a] && after[b] == order[b]);
        } else if b == at {
            assert(after[a] == order[a]);
        } else if a > at {
            assert(after[a] == order[a - 1] && after[b] == order[b - 1]);
        } else if a < at {
            assert(after[a] == order[a] && after[b] == order[b - 1]);
        } else {
            let next = rows[order[at] as int];
            lemma_text_total(next.name, rows[row as int].name);
            assert(ranks(rows[row as int], next));
            if b - 1 > at {
                assert(ranks(next, rows[order[b - 1] as int]));
                lemma_ranks_chain(rows[row as int], next, rows[order[b - 1] as int]);
            }
            assert(after[b] == order[b - 1]);
        }
    }
}

/// The records of `order` that lie in a region, in order.
pub open spec fn in_region(rows: Seq<Row>, order: Seq<usize>, region: int) -> Seq<usize>
    decreases order.len(),
{
    if order.len() == 0 {
        Seq::empty()
    } else {
        let earlier = in_region(rows, order.drop_last(), region);
        if rows[order.last() as int].region == region {
            earlier.push(order.last())
        } else {
            earlier
        }
    }
}

/// The records of the first `regions` regions, region by region. Inside a region the
/// order stays.
pub open spec fn grouped(rows: Seq<Row>, order: Seq<usize>, regions: nat) -> Seq<usize>
    decreases regions,
{
    if regions == 0 {
        Seq::empty()
    } else {
        grouped(rows, order, (regions - 1) as nat) + in_region(rows, order, regions - 1)
    }
}

/// Group records by region.
pub fn group(rows: &Vec<Record>, order: &Vec<usize>) -> (groups: Vec<usize>)
    requires
        forall|k: int| 0 <= k < order@.len() ==> #[trigger] order@[k] < rows@.len(),
    ensures
        groups@ == grouped(said(rows@), order@, REGIONS as nat),
{
    let ghost all = said(rows@);
    let mut groups: Vec<usize> = Vec::new();
    let mut region: u8 = 0;
    while region < 8
        invariant
            region <= 8,
            all == said(rows@),
            forall|k: int| 0 <= k < order@.len() ==> #[trigger] order@[k] < rows@.len(),
            groups@ == grouped(all, order@, region as nat),
        decreases 8 - region,
    {
        let ghost before = groups@;
        let mut k: usize = 0;
        assert(groups@ =~= before + in_region(all, order@.take(0), region as int));
        while k < order.len()
            invariant
                k <= order@.len(),
                all == said(rows@),
                forall|k: int| 0 <= k < order@.len() ==> #[trigger] order@[k] < rows@.len(),
                groups@ == before + in_region(all, order@.take(k as int), region as int),
            decreases order@.len() - k,
        {
            assert(order@.take(k + 1).drop_last() =~= order@.take(k as int));
            assert(all[order@[k as int] as int].region == rows@[order@[k as int] as int].region);
            if rows[order[k]].region == region {
                groups.push(order[k]);
            }
            k = k + 1;
            assert(groups@ =~= before + in_region(all, order@.take(k as int), region as int));
        }
        assert(order@.take(order@.len() as int) =~= order@);
        region = region + 1;
    }
    groups
}

/// Lengths of texts together.
pub open spec fn texts_len(texts: Seq<Seq<u8>>) -> nat
    decreases texts.len(),
{
    if texts.len() == 0 {
        0
    } else {
        texts_len(texts.drop_last()) + texts.last().len()
    }
}

/// What a record of the top adds.
pub open spec fn row_value(row: Row) -> usize {
    (row.score ^ row.name.len() as usize) ^ texts_len(row.tags) as usize
}

/// What the first `count` records of an order add.
pub open spec fn top_sum(rows: Seq<Row>, order: Seq<usize>, count: nat) -> int
    decreases count,
{
    if count == 0 {
        0
    } else {
        top_sum(rows, order, (count - 1) as nat) + row_value(rows[order[count - 1] as int])
    }
}

/// The regions of the first `count` records of an order added up.
pub open spec fn region_sum(rows: Seq<Row>, order: Seq<usize>, count: nat) -> int
    decreases count,
{
    if count == 0 {
        0
    } else {
        region_sum(rows, order, (count - 1) as nat) + rows[order[count - 1] as int].region
    }
}

/// How many records the top has.
pub open spec fn top_count(kept: nat) -> nat {
    if kept < TOP {
        kept
    } else {
        TOP as nat
    }
}

/// What a round adds to the checksum, for a given order of its kept records.
pub open spec fn report_value(rows: Seq<Row>, order: Seq<usize>) -> usize {
    let groups = grouped(rows, order, REGIONS as nat);
    (top_sum(rows, order, top_count(order.len())) as usize ^ groups.len() as usize) ^ region_sum(
        rows,
        groups,
        groups.len(),
    ) as usize
}

/// `order` ranks the first record of each id.
pub open spec fn is_report(rows: Seq<Row>, order: Seq<usize>) -> bool {
    order.to_multiset() == firsts(rows, rows.len()).to_multiset() && ranked(rows, order)
}

/// Names, tags and scores are short.
pub open spec fn short(row: Row) -> bool {
    &&& row.score < 16_384
    &&& row.name.len() < 16_384
    &&& texts_len(row.tags) < 16_384
    &&& row.region < 8
}

proof fn lemma_short(round: usize, records: usize, i: usize)
    requires
        records * 2 <= usize::MAX,
    ensures
        short(row_of(round, records, i)),
{
    reveal_strlit("acct-");
    reveal_strlit("-");
    reveal_strlit("tag-");
    lemma_literal("acct-");
    lemma_literal("-");
    lemma_literal("tag-");
    let row = row_of(round, records, i);
    lemma_digits_short(row.id as nat);
    lemma_digits_short((i ^ round) as nat);
    assert forall|tag: int| 0 <= tag < row.tags.len() implies (#[trigger] row.tags[tag]).len()
        <= 24 by {
        let number = ((tag + i + round) % 31) as nat;
        lemma_digits_short(number);
    }
    lemma_texts_len(row.tags, 24);
}

proof fn lemma_texts_len(texts: Seq<Seq<u8>>, most: nat)
    requires
        forall|i: int| 0 <= i < texts.len() ==> (#[trigger] texts[i]).len() <= most,
    ensures
        texts_len(texts) <= most * texts.len(),
    decreases texts.len(),
{
    if texts.len() > 0 {
        let front = texts.drop_last();
        assert forall|i: int| 0 <= i < front.len() implies (#[trigger] front[i]).len() <= most by {
            assert(front[i] == texts[i]);
        }
        lemma_texts_len(front, most);
        assert(most * texts.len() == most * (texts.len() - 1) + most) by (nonlinear_arith);
    } else {
        assert(most * texts.len() == 0) by (nonlinear_arith)
            requires
                texts.len() == 0,
        ;
    }
}

/// What a record of the top adds.
fn value_of(record: &Record) -> (value: usize)
    requires
        short(record@),
    ensures
        value == row_value(record@),
        value < 16_384,
{
    let ghost tags = record@.tags;
    let mut len: usize = 0;
    let mut k: usize = 0;
    assert(tags.take(0) =~= Seq::<Seq<u8>>::empty());
    while k < record.tags.len()
        invariant
            k <= record.tags@.len(),
            tags == record@.tags,
            texts_len(tags) < 16_384,
            len == texts_len(tags.take(k as int)),
        decreases record.tags@.len() - k,
    {
        proof {
            assert(tags.take(k + 1).drop_last() =~= tags.take(k as int));
            assert(tags.take(k + 1).last() == record.tags@[k as int]@);
            lemma_texts_part(tags, k + 1);
        }
        len = len + record.tags[k].len();
        k = k + 1;
    }
    assert(tags.take(tags.len() as int) =~= tags);
    let score: usize = record.score;
    let name: usize = record.name.len();
    assert((score ^ name) ^ len < 16_384) by (bit_vector)
        requires
            score < 16_384,
            name < 16_384,
            len < 16_384,
    ;
    (score ^ name) ^ len
}

proof fn lemma_texts_part(texts: Seq<Seq<u8>>, count: int)
    requires
        0 <= count <= texts.len(),
    ensures
        texts_len(texts.take(count)) <= texts_len(texts),
    decreases texts.len(),
{
    if count == texts.len() {
        assert(texts.take(count) =~= texts);
    } else {
        lemma_texts_part(texts.drop_last(), count);
        assert(texts.drop_last().take(count) =~= texts.take(count));
    }
}

/// What the records in `order` add to the checksum.
pub fn report(rows: &Vec<Record>, order: &Vec<usize>) -> (value: usize)
    requires
        order@.len() * 8 <= usize::MAX,
        forall|k: int| 0 <= k < order@.len() ==> #[trigger] order@[k] < rows@.len(),
        forall|i: int| 0 <= i < rows@.len() ==> short(#[trigger] said(rows@)[i]),
    ensures
        value == report_value(said(rows@), order@),
{
    let ghost all = said(rows@);
    let mut top: usize = 0;
    let mut k: usize = 0;
    while k < TOP && k < order.len()
        invariant
            k <= TOP,
            k <= order@.len(),
            all == said(rows@),
            forall|k: int| 0 <= k < order@.len() ==> #[trigger] order@[k] < rows@.len(),
            forall|i: int| 0 <= i < rows@.len() ==> short(#[trigger] all[i]),
            top == top_sum(all, order@, k as nat),
            top <= k * 16_384,
        decreases TOP - k,
    {
        assert(all[order@[k as int] as int] == rows@[order@[k as int] as int]@);
        top = top + value_of(&rows[order[k]]);
        k = k + 1;
    }
    let groups = group(rows, order);
    proof {
        lemma_grouped(all, order@, REGIONS as nat, rows@.len());
        lemma_grouped_len(all, order@, REGIONS as nat);
    }
    let mut regions: usize = 0;
    let mut j: usize = 0;
    while j < groups.len()
        invariant
            j <= groups@.len() <= order@.len(),
            order@.len() * 8 <= usize::MAX,
            all == said(rows@),
            forall|k: int| 0 <= k < groups@.len() ==> #[trigger] groups@[k] < rows@.len(),
            forall|i: int| 0 <= i < rows@.len() ==> short(#[trigger] all[i]),
            regions == region_sum(all, groups@, j as nat),
            regions <= j * 8,
        decreases groups@.len() - j,
    {
        assert(short(all[groups@[j as int] as int]));
        assert(all[groups@[j as int] as int].region == rows@[groups@[j as int] as int].region);
        regions = regions + rows[groups[j]].region as usize;
        j = j + 1;
    }
    (top ^ groups.len()) ^ regions
}

/// Groups hold records of the order.
proof fn lemma_grouped(rows: Seq<Row>, order: Seq<usize>, regions: nat, bound: nat)
    requires
        forall|k: int| 0 <= k < order.len() ==> #[trigger] order[k] < bound,
    ensures
        forall|k: int|
            0 <= k < grouped(rows, order, regions).len() ==> #[trigger] grouped(
                rows,
                order,
                regions,
            )[k] < bound,
    decreases regions,
{
    if regions > 0 {
        lemma_grouped(rows, order, (regions - 1) as nat, bound);
        lemma_in_region(rows, order, regions - 1, bound);
        let earlier = grouped(rows, order, (regions - 1) as nat);
        let last = in_region(rows, order, regions - 1);
        assert forall|k: int| 0 <= k < (earlier + last).len() implies #[trigger] (earlier + last)[k]
            < bound by {
            if k < earlier.len() {
                assert((earlier + last)[k] == earlier[k]);
            } else {
                assert((earlier + last)[k] == last[k - earlier.len()]);
            }
        }
    }
}

proof fn lemma_in_region(rows: Seq<Row>, order: Seq<usize>, region: int, bound: nat)
    requires
        forall|k: int| 0 <= k < order.len() ==> #[trigger] order[k] < bound,
    ensures
        forall|k: int|
            0 <= k < in_region(rows, order, region).len() ==> #[trigger] in_region(
                rows,
                order,
                region,
            )[k] < bound,
    decreases order.len(),
{
    if order.len() > 0 {
        let front = order.drop_last();
        assert forall|k: int| 0 <= k < front.len() implies #[trigger] front[k] < bound by {
            assert(front[k] == order[k]);
        }
        lemma_in_region(rows, front, region, bound);
        assert(order[order.len() - 1] < bound);
        let earlier = in_region(rows, front, region);
        let now = in_region(rows, order, region);
        assert forall|k: int| 0 <= k < now.len() implies #[trigger] now[k] < bound by {
            if k < earlier.len() {
                assert(now[k] == earlier[k]);
            }
        }
    }
}

/// How many records of the order lie in the first `regions` regions.
pub open spec fn regional(rows: Seq<Row>, order: Seq<usize>, regions: nat) -> nat
    decreases order.len(),
{
    if order.len() == 0 {
        0
    } else {
        regional(rows, order.drop_last(), regions) + if rows[order.last() as int].region
            < regions {
            1nat
        } else {
            0nat
        }
    }
}

/// No record lies in two regions.
proof fn lemma_grouped_len(rows: Seq<Row>, order: Seq<usize>, regions: nat)
    ensures
        grouped(rows, order, regions).len() == regional(rows, order, regions),
        regional(rows, order, regions) <= order.len(),
    decreases regions,
{
    if regions > 0 {
        lemma_grouped_len(rows, order, (regions - 1) as nat);
        lemma_regional(rows, order, regions);
    } else {
        lemma_regional_none(rows, order);
    }
}

proof fn lemma_regional_none(rows: Seq<Row>, order: Seq<usize>)
    ensures
        regional(rows, order, 0) == 0,
    decreases order.len(),
{
    if order.len() > 0 {
        lemma_regional_none(rows, order.drop_last());
    }
}

proof fn lemma_regional(rows: Seq<Row>, order: Seq<usize>, regions: nat)
    requires
        regions > 0,
    ensures
        regional(rows, order, regions) == regional(rows, order, (regions - 1) as nat) + in_region(
            rows,
            order,
            regions - 1,
        ).len(),
        regional(rows, order, regions) <= order.len(),
    decreases order.len(),
{
    if order.len() > 0 {
        lemma_regional(rows, order.drop_last(), regions);
    }
}

/// Some report of each round explains the checksum.
pub open spec fn explained(
    checksum: usize,
    rounds: nat,
    records: usize,
    orders: Seq<Seq<usize>>,
) -> bool {
    &&& orders.len() == rounds
    &&& forall|round: int|
        0 <= round < rounds ==> is_report(
            rows_of(round as usize, records, records as nat),
            #[trigger] orders[round],
        )
    &&& checksum == xor_seq(
        Seq::new(
            rounds,
            |round: int|
                report_value(rows_of(round as usize, records, records as nat), orders[round]),
        ),
    )
}

/// The report of a round: the order of its records, and what it adds to the checksum.
fn sort_round(round: usize, records: usize) -> (result: (Vec<usize>, usize))
    requires
        records * 8 <= usize::MAX,
        records + round + 4 <= usize::MAX,
    ensures
        is_report(rows_of(round, records, records as nat), result.0@),
        result.1 == report_value(rows_of(round, records, records as nat), result.0@),
{
    let rows = draw_records(round, records);
    let kept = dedup(&rows);
    proof {
        let all = said(rows@);
        assert(all.len() == records);
        assert(rows@.len() == records);
        lemma_firsts(all, all.len());
        lemma_firsts_len(all, all.len());
        assert forall|i: int| 0 <= i < rows@.len() implies short(#[trigger] said(rows@)[i]) by {
            lemma_short(round, records, i as usize);
        }
    }
    let order = rank(&rows, &kept);
    let value: usize = report(&rows, &order);
    (order, value)
}

proof fn lemma_firsts_len(rows: Seq<Row>, count: nat)
    ensures
        firsts(rows, count).len() <= count,
    decreases count,
{
    if count > 0 {
        lemma_firsts_len(rows, (count - 1) as nat);
    }
}

/// A report for each round.
pub fn records_sort(rounds: usize, records: usize) -> (checksum: usize)
    requires
        records * 8 <= usize::MAX,
        records + rounds + 4 <= usize::MAX,
    ensures
        exists|orders: Seq<Seq<usize>>| #[trigger]
            explained(checksum, rounds as nat, records, orders),
{
    let mut checksum: usize = 0;
    let mut round: usize = 0;
    let ghost mut orders: Seq<Seq<usize>> = Seq::empty();
    assert(Seq::new(
        0,
        |round: int| report_value(rows_of(round as usize, records, records as nat), orders[round]),
    ) =~= Seq::<usize>::empty());
    while round < rounds
        invariant
            round <= rounds,
            records * 8 <= usize::MAX,
            records + rounds + 4 <= usize::MAX,
            explained(checksum, round as nat, records, orders),
        decreases rounds - round,
    {
        let (order, value) = sort_round(round, records);
        checksum = checksum ^ value;
        proof {
            let before = orders;
            orders = orders.push(order@);
            let now = Seq::new(
                (round + 1) as nat,
                |round: int|
                    report_value(rows_of(round as usize, records, records as nat), orders[round]),
            );
            assert(now.drop_last() =~= Seq::new(
                round as nat,
                |round: int|
                    report_value(rows_of(round as usize, records, records as nat), before[round]),
            ));
            assert(now.last() == value);
            assert forall|r: int| 0 <= r < round + 1 implies is_report(
                rows_of(r as usize, records, records as nat),
                #[trigger] orders[r],
            ) by {
                if r < round {
                    assert(orders[r] == before[r]);
                }
            }
        }
        round = round + 1;
    }
    checksum
}

/// `checksum` is one that the workload may return.
pub open spec fn is_checksum(checksum: usize) -> bool {
    exists|orders: Seq<Seq<usize>>| #[trigger]
        explained(checksum, ROUNDS as nat, RECORDS, orders)
}

pub fn run() -> (checksum: usize)
    ensures
        is_checksum(checksum),
{
    records_sort(ROUNDS, RECORDS)
}

} // verus!
