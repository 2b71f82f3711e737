//! In-memory CSV write, read-back, and per-category aggregation.

use vstd::prelude::*;

use crate::decimal::{
    decimal,
    digits_of,
    is_digit,
    law_parse_inverts_digits,
    lemma_digits_of,
    parse_u64,
    parsed,
};
use crate::workloads::text::xor_seq;
use crate::workloads::totals::{
    amount_of,
    law_summing_keeps_the_amount,
    lemma_position,
    no_debt,
    summed,
    Entry,
    Totals,
};

verus! {

pub const ROUNDS: usize = 4;

pub const ROWS: usize = 2_048;

pub const ELEMENTS: usize = 8_192;

/// A `csv::Writer` on a vector.
#[verifier::external_body]
pub struct CsvWriter {
    inner: csv::Writer<Vec<u8>>,
}

/// The records that a writer took.
pub uninterp spec fn written(writer: CsvWriter) -> Seq<Seq<Seq<u8>>>;

/// The records behind the header of a text, `None` for one that cannot be read.
pub uninterp spec fn csv_records(text: Seq<u8>) -> Seq<Option<Seq<Seq<u8>>>>;

/// The fields of a record.
pub open spec fn fields_of(record: Seq<Vec<u8>>) -> Seq<Seq<u8>> {
    record.map_values(|field: Vec<u8>| field@)
}

/// The fields of records that were read.
pub open spec fn rows_of(rows: Seq<Option<Vec<Vec<u8>>>>) -> Seq<Option<Seq<Seq<u8>>>> {
    rows.map_values(
        |row: Option<Vec<Vec<u8>>>|
            match row {
                Some(record) => Some(fields_of(record@)),
                None => None,
            },
    )
}

/// `byte` is a lower-case letter or a digit.
pub open spec fn is_plain(byte: u8) -> bool {
    97 <= byte <= 122 || 48 <= byte <= 57
}

/// Every record has `width` fields, and every field is made of letters and digits.
pub open spec fn tabular(records: Seq<Seq<Seq<u8>>>, width: nat) -> bool {
    &&& width > 0
    &&& records.len() > 0
    &&& forall|i: int| 0 <= i < records.len() ==> (#[trigger] records[i]).len() == width
    &&& forall|i: int, k: int|
        #![trigger records[i][k]]
        0 <= i < records.len() && 0 <= k < width ==> records[i][k].len() > 0 && forall|at: int|
            0 <= at < records[i][k].len() ==> is_plain(#[trigger] records[i][k][at])
}

/// The fields of a record with commas between them.
pub open spec fn joined(record: Seq<Seq<u8>>) -> Seq<u8>
    decreases record.len(),
{
    if record.len() == 0 {
        Seq::empty()
    } else if record.len() == 1 {
        record[0]
    } else {
        joined(record.drop_last()).push(44) + record.last()
    }
}

/// The text of a table: one line for each record.
pub open spec fn table_text(records: Seq<Seq<Seq<u8>>>) -> Seq<u8>
    decreases records.len(),
{
    if records.len() == 0 {
        Seq::empty()
    } else {
        table_text(records.drop_last()) + joined(records.last()).push(10)
    }
}

/// `csv::Writer::from_writer` on an empty vector: a writer that took no record yet.
#[verifier::external_body]
fn new_writer() -> (writer: CsvWriter)
    ensures
        written(writer) == Seq::<Seq<Seq<u8>>>::empty(),
{
    CsvWriter { inner: csv::Writer::from_writer(Vec::new()) }
}

/// `csv::Writer::write_record`: takes a record that has as many fields as the first one.
/// Writing to a vector does not fail. A record of another length is not handed to it: the
/// writer would refuse it, and keep its fields in front of the next record.
#[verifier::external_body]
fn write_record(writer: &mut CsvWriter, record: &Vec<Vec<u8>>) -> (taken: bool)
    requires
        record@.len() > 0,
        written(*old(writer)).len() == 0 || written(*old(writer))[0].len() == record@.len(),
    ensures
        taken,
        written(*final(writer)) == written(*old(writer)).push(fields_of(record@)),
{
    writer.inner.write_record(record).is_ok()
}

/// `csv::Writer::into_inner`: the text of the records that the writer took. Fields of
/// letters and digits are not quoted; commas separate them, and a newline ends a record.
#[verifier::external_body]
fn into_text(writer: CsvWriter) -> (text: Vec<u8>)
    requires
        tabular(written(writer), written(writer)[0].len()),
    ensures
        text@ == table_text(written(writer)),
{
    match writer.inner.into_inner() {
        Ok(bytes) => bytes,
        Err(error) => error.into_inner().into_inner().unwrap_or_default(),
    }
}

/// `csv::Reader::records` with the default settings: the records behind the header. A
/// text that was written from a table reads back as that table.
#[verifier::external_body]
fn read_records(text: &Vec<u8>) -> (rows: Vec<Option<Vec<Vec<u8>>>>)
    ensures
        rows_of(rows@) == csv_records(text@),
        forall|records: Seq<Seq<Seq<u8>>>, width: nat|
            text@ == table_text(records) && #[trigger] tabular(records, width) ==> rows_of(rows@)
                == records.skip(1).map_values(|record: Seq<Seq<u8>>| Some(record)),
{
    csv::Reader::from_reader(text.as_slice())
        .into_records()
        .map(|row| row.ok().map(|record| record.iter().map(|field| field.as_bytes().to_vec()).collect()))
        .collect()
}

/// Field `k` of a record as a number, zero when it is none.
pub open spec fn number_at(record: Seq<Seq<u8>>, k: int) -> int {
    if k < record.len() {
        match parsed(record[k], u64::MAX as nat) {
            Some(number) => number as int,
            None => 0,
        }
    } else {
        0
    }
}

/// What a record adds: quantity times price under its category, at most the largest number.
pub open spec fn sale(record: Seq<Seq<u8>>) -> Entry {
    let amount = number_at(record, 2) * number_at(record, 3);
    (
        record[1],
        if amount > u64::MAX {
            u64::MAX as int
        } else {
            amount
        },
    )
}

/// The sales among the first `count` rows. Rows that cannot be read, or have no category,
/// are none.
pub open spec fn sales_in(rows: Seq<Option<Seq<Seq<u8>>>>, count: nat) -> Seq<Entry>
    decreases count,
{
    if count == 0 {
        Seq::empty()
    } else {
        let earlier = sales_in(rows, (count - 1) as nat);
        match rows[count - 1] {
            Some(record) if record.len() > 1 => earlier.push(sale(record)),
            _ => earlier,
        }
    }
}

/// All sales of `rows`.
pub open spec fn sales(rows: Seq<Option<Seq<Seq<u8>>>>) -> Seq<Entry> {
    sales_in(rows, rows.len())
}

/// Field `k` of a record as a number, zero when it is none.
fn number_in(record: &Vec<Vec<u8>>, k: usize) -> (number: u64)
    ensures
        number == number_at(fields_of(record@), k as int),
{
    if k < record.len() {
        match parse_u64(record[k].as_slice()) {
            Some(number) => number,
            None => 0,
        }
    } else {
        0
    }
}

/// No sale is negative, and earlier sales are part of all.
proof fn lemma_sales(rows: Seq<Option<Seq<Seq<u8>>>>, less: nat, more: nat)
    requires
        less <= more <= rows.len(),
    ensures
        no_debt(sales_in(rows, less)),
        amount_of(sales_in(rows, less)) <= amount_of(sales_in(rows, more)),
        sales_in(rows, less).len() <= less,
    decreases more,
{
    if more > 0 {
        lemma_sales(
            rows,
            if less < more {
                less
            } else {
                (more - 1) as nat
            },
            (more - 1) as nat,
        );
        if let Some(record) = rows[more - 1] {
            if record.len() > 1 {
                let earlier = sales_in(rows, (more - 1) as nat);
                assert(sales_in(rows, more).drop_last() =~= earlier);
                assert(0 <= number_at(record, 2) * number_at(record, 3)) by (nonlinear_arith)
                    requires
                        0 <= number_at(record, 2),
                        0 <= number_at(record, 3),
                ;
            }
        }
    }
}

/// Totals by category, and how many rows had one.
pub fn aggregate(rows: &Vec<Option<Vec<Vec<u8>>>>) -> (folded: (Totals, usize))
    requires
        amount_of(sales(rows_of(rows@))) <= u64::MAX,
    ensures
        folded.0@ == summed(sales(rows_of(rows@))),
        folded.1 == sales(rows_of(rows@)).len(),
{
    let ghost all = rows_of(rows@);
    let mut totals = Totals::new();
    let mut count: usize = 0;
    let mut i: usize = 0;
    while i < rows.len()
        invariant
            i <= rows@.len(),
            all == rows_of(rows@),
            amount_of(sales(all)) <= u64::MAX,
            totals@ == summed(sales_in(all, i as nat)),
            count == sales_in(all, i as nat).len(),
            count <= i,
        decreases rows@.len() - i,
    {
        proof {
            lemma_sales(all, i as nat, all.len());
            lemma_sales(all, (i + 1) as nat, all.len());
        }
        if let Some(record) = &rows[i] {
            assert(all[i as int] == Some(fields_of(record@)));
            if record.len() > 1 {
                let quantity: u64 = number_in(record, 2);
                let price: u64 = number_in(record, 3);
                let amount: u64 = match quantity.checked_mul(price) {
                    Some(amount) => amount,
                    None => u64::MAX,
                };
                proof {
                    let before = sales_in(all, i as nat);
                    let now = sales_in(all, (i + 1) as nat);
                    assert(now == before.push(sale(fields_of(record@))));
                    assert(now.drop_last() =~= before);
                    assert(amount == sale(fields_of(record@)).1);
                    law_summing_keeps_the_amount(before);
                    lemma_position(summed(before), record@[1]@);
                }
                totals.add_to(record[1].as_slice(), amount);
                count = count + 1;
            }
        } else {
            assert(all[i as int] is None);
        }
        i = i + 1;
    }
    (totals, count)
}

/// Exclusive or of the sums.
pub open spec fn xor_amounts(totals: Seq<Entry>) -> usize
    decreases totals.len(),
{
    if totals.len() == 0 {
        0
    } else {
        xor_amounts(totals.drop_last()) ^ narrowed(totals.last().1)
    }
}

/// `amount` as a machine size, the largest one when it does not fit.
pub open spec fn narrowed(amount: int) -> usize {
    if amount <= usize::MAX {
        amount as usize
    } else {
        usize::MAX
    }
}

fn fold_amounts(totals: &Totals) -> (folded: usize)
    ensures
        folded == xor_amounts(totals@),
{
    let mut folded: usize = 0;
    let mut i: usize = 0;
    assert(totals@.take(0) =~= Seq::<Entry>::empty());
    while i < totals.len()
        invariant
            i <= totals@.len(),
            folded == xor_amounts(totals@.take(i as int)),
        decreases totals@.len() - i,
    {
        let amount: u64 = totals.amount(i);
        let size: usize = if amount <= usize::MAX as u64 {
            amount as usize
        } else {
            usize::MAX
        };
        folded = folded ^ size;
        i = i + 1;
        assert(totals@.take(i as int).drop_last() =~= totals@.take(i - 1));
    }
    assert(totals@.take(totals@.len() as int) =~= totals@);
    folded
}

/// The header record.
pub open spec fn header() -> Seq<Seq<u8>> {
    seq![
        seq![105u8, 100u8],
        seq![99u8, 97u8, 116u8, 101u8, 103u8, 111u8, 114u8, 121u8],
        seq![113u8, 116u8, 121u8],
        seq![112u8, 114u8, 105u8, 99u8, 101u8],
    ]
}

/// Price of row `i`.
pub open spec fn price_of(round: usize, i: usize) -> int {
    vstd::wrapping::usize_specs::wrapping_add(
        vstd::wrapping::usize_specs::wrapping_mul(i, 17),
        round,
    ) as int % 10_000
}

/// Category of row `i`.
pub open spec fn category_of(round: usize, i: usize) -> int {
    vstd::wrapping::usize_specs::wrapping_add(i, round) as int % 7
}

/// The record of row `i`.
pub open spec fn record_of(round: usize, i: usize) -> Seq<Seq<u8>> {
    seq![
        digits_of((i ^ round) as nat),
        digits_of(category_of(round, i) as nat),
        digits_of((i % 50 + 1) as nat),
        digits_of(price_of(round, i) as nat),
    ]
}

/// The header and the first `rows` records.
pub open spec fn table(round: usize, rows: nat) -> Seq<Seq<Seq<u8>>> {
    seq![header()] + Seq::new(rows, |i: int| record_of(round, i as usize))
}

fn header_fields() -> (record: Vec<Vec<u8>>)
    ensures
        fields_of(record@) == header(),
        record@.len() == 4,
{
    let id: Vec<u8> = vec![105, 100];
    let category: Vec<u8> = vec![99, 97, 116, 101, 103, 111, 114, 121];
    let quantity: Vec<u8> = vec![113, 116, 121];
    let price: Vec<u8> = vec![112, 114, 105, 99, 101];
    let mut record: Vec<Vec<u8>> = Vec::new();
    record.push(id);
    record.push(category);
    record.push(quantity);
    record.push(price);
    assert(record@[0]@ =~= header()[0]);
    assert(record@[1]@ =~= header()[1]);
    assert(record@[2]@ =~= header()[2]);
    assert(record@[3]@ =~= header()[3]);
    assert(fields_of(record@) =~= header());
    record
}

fn row_fields(round: usize, i: usize) -> (record: Vec<Vec<u8>>)
    ensures
        fields_of(record@) == record_of(round, i),
        record@.len() == 4,
{
    let mut record: Vec<Vec<u8>> = Vec::new();
    record.push(decimal(i ^ round));
    record.push(decimal(i.wrapping_add(round) % 7));
    record.push(decimal(i % 50 + 1));
    record.push(decimal(i.wrapping_mul(17).wrapping_add(round) % 10_000));
    assert(fields_of(record@) =~= record_of(round, i));
    record
}

/// The table is tabular.
proof fn lemma_tabular(round: usize, rows: nat)
    ensures
        tabular(table(round, rows), 4),
{
    let records = table(round, rows);
    assert forall|i: int, k: int|
        #![trigger records[i][k]]
        0 <= i < records.len() && 0 <= k < 4 implies records[i][k].len() > 0 && forall|at: int|
        0 <= at < records[i][k].len() ==> is_plain(#[trigger] records[i][k][at]) by {
        if i == 0 {
            assert(records[0] == header());
        } else {
            let row = record_of(round, (i - 1) as usize);
            assert(records[i] == row);
            lemma_digits_of(((i - 1) as usize ^ round) as nat);
            lemma_digits_of(category_of(round, (i - 1) as usize) as nat);
            lemma_digits_of(((i - 1) as usize % 50 + 1) as nat);
            lemma_digits_of(price_of(round, (i - 1) as usize) as nat);
            assert forall|at: int| 0 <= at < records[i][k].len() implies is_plain(
                #[trigger] records[i][k][at],
            ) by {
                assert(is_digit(row[k][at]));
            }
        }
    }
    assert forall|i: int| 0 <= i < records.len() implies (#[trigger] records[i]).len() == 4 by {
        if i > 0 {
            assert(records[i] == record_of(round, (i - 1) as usize));
        }
    }
}

/// Sale of row `i`.
pub open spec fn row_sale(round: usize, i: usize) -> Entry {
    (digits_of(category_of(round, i) as nat), (i % 50 + 1) * price_of(round, i))
}

/// The sales of one round.
pub open spec fn round_sales(round: usize, rows: nat) -> Seq<Entry> {
    Seq::new(rows, |i: int| row_sale(round, i as usize))
}

/// Rows read back from the table are sold as the table says.
proof fn lemma_row_sales(round: usize, rows: Seq<Option<Seq<Seq<u8>>>>, count: nat)
    requires
        count <= rows.len() <= usize::MAX,
        forall|i: int| 0 <= i < rows.len() ==> #[trigger] rows[i] == Some(record_of(round, i as usize)),
    ensures
        sales_in(rows, count) == round_sales(round, count),
        amount_of(round_sales(round, count)) <= 500_000 * count,
    decreases count,
{
    let now = round_sales(round, count);
    if count == 0 {
        assert(now =~= Seq::<Entry>::empty());
    } else {
        lemma_row_sales(round, rows, (count - 1) as nat);
        let i = (count - 1) as usize;
        let record = record_of(round, i);
        assert(rows[count - 1] == Some(record));
        law_parse_inverts_digits((i % 50 + 1) as nat, u64::MAX as nat);
        law_parse_inverts_digits(price_of(round, i) as nat, u64::MAX as nat);
        assert((i % 50 + 1) * price_of(round, i) <= 500_000) by (nonlinear_arith)
            requires
                0 <= i % 50 + 1 <= 50,
                0 <= price_of(round, i) < 10_000,
        ;
        assert(sale(record) == row_sale(round, i));
        assert(now =~= round_sales(round, (count - 1) as nat).push(row_sale(round, i)));
        assert(now.drop_last() =~= round_sales(round, (count - 1) as nat));
    }
}

/// The checksum of one round: text length, rows, categories, and category totals.
pub open spec fn csv_checksum(round: usize, rows: nat) -> usize {
    let text = table_text(table(round, rows)).len() as usize;
    let totals = summed(round_sales(round, rows));
    (text ^ ((rows as usize) ^ (totals.len() as usize))) ^ xor_amounts(totals)
}

/// Write, read back, and aggregate one table.
fn csv_round(round: usize, rows: usize) -> (value: usize)
    requires
        500_000 * rows <= u64::MAX,
    ensures
        value == csv_checksum(round, rows as nat),
{
    let mut writer = new_writer();
    let record = header_fields();
    let _taken = write_record(&mut writer, &record);
    assert(written(writer) =~= table(round, 0));
    let mut i: usize = 0;
    while i < rows
        invariant
            i <= rows,
            written(writer) == table(round, i as nat),
        ensures
            i == rows,
        decreases rows - i,
    {
        let record = row_fields(round, i);
        assert(written(writer)[0] == header());
        if !write_record(&mut writer, &record) {
            break;
        }
        i = i + 1;
        assert(written(writer) =~= table(round, i as nat));
    }
    proof {
        lemma_tabular(round, rows as nat);
    }
    let text = into_text(writer);
    let read = read_records(&text);
    proof {
        let records = table(round, rows as nat);
        let back = records.skip(1).map_values(|record: Seq<Seq<u8>>| Some(record));
        assert(rows_of(read@) == back);
        assert forall|i: int| 0 <= i < back.len() implies #[trigger] back[i] == Some(
            record_of(round, i as usize),
        ) by {
            assert(records.skip(1)[i] == records[i + 1]);
        }
        assert(back.len() == rows);
        lemma_row_sales(round, back, rows as nat);
    }
    let (totals, count) = aggregate(&read);
    (text.len() ^ (count ^ totals.len())) ^ fold_amounts(&totals)
}

/// One table for each round.
pub fn csv_pipeline(rounds: usize, rows: usize) -> (checksum: usize)
    requires
        500_000 * rows <= u64::MAX,
    ensures
        checksum == xor_seq(
            Seq::new(rounds as nat, |round: int| csv_checksum(round as usize, rows as nat)),
        ),
{
    let mut checksum: usize = 0;
    let mut round: usize = 0;
    let ghost value = |round: int| csv_checksum(round as usize, rows as nat);
    assert(Seq::new(0, value) =~= Seq::<usize>::empty());
    while round < rounds
        invariant
            round <= rounds,
            500_000 * rows <= u64::MAX,
            value == |round: int| csv_checksum(round as usize, rows as nat),
            checksum == xor_seq(Seq::new(round as nat, value)),
        decreases rounds - round,
    {
        checksum = checksum ^ csv_round(round, rows);
        round = round + 1;
        assert(Seq::new(round as nat, value).drop_last() =~= Seq::new((round - 1) as nat, value));
    }
    checksum
}

/// `checksum` is one that the workload may return.
pub open spec fn is_checksum(checksum: usize) -> bool {
    checksum == xor_seq(
        Seq::new(ROUNDS as nat, |round: int| csv_checksum(round as usize, ROWS as nat)),
    )
}

pub fn run() -> (checksum: usize)
    ensures
        is_checksum(checksum),
{
    csv_pipeline(ROUNDS, ROWS)
}

} // verus!
