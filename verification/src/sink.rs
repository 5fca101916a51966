//! The rows of the results file.
//!
//! The file is a CSV table of two text columns. It starts with one header
//! row; every row after it pairs a target with one thing that a probe of it
//! reported. This module turns rows into the bytes that stand for them in
//! the file; writing the bytes is left to the caller.

use crate::text::{texts, CARRIAGE_RETURN_BYTE, LINE_FEED_BYTE};
use vstd::prelude::*;
use vstd::string::*;
use vstd::utf8::*;

verus! {

/// The byte that separates the two fields of a row.
pub const COMMA: u8 = 0x2C;

/// The byte that encloses a quoted field.
pub const QUOTE: u8 = 0x22;

/// One row of the table, as contracts speak of it.
pub struct Row {
    pub target: Seq<char>,
    pub description: Seq<char>,
}

/// One finding: a target, and one thing that a probe of it reported.
#[derive(Clone, Debug)]
pub struct ResultRecord {
    pub target: String,
    pub description: String,
}

impl View for ResultRecord {
    type V = Row;

    open spec fn view(&self) -> Row {
        Row { target: self.target@, description: self.description@ }
    }
}

/// Why rows could not be turned into bytes.
#[derive(Clone, Copy, Debug, PartialEq, Eq, Structural)]
pub enum SinkError {
    /// The CSV writer refused a row.
    Encoding,
}

/// The rows of `records`, in order.
pub open spec fn rows(records: Seq<ResultRecord>) -> Seq<Row> {
    records.map_values(|r: ResultRecord| r@)
}

/// One row for each description, each with `target` in its first column, in
/// the order of the descriptions.
pub open spec fn rows_of(target: Seq<char>, descriptions: Seq<Seq<char>>) -> Seq<Row> {
    descriptions.map_values(|d: Seq<char>| Row { target, description: d })
}

/// The header row.
pub open spec fn header() -> Row {
    Row { target: "IP Address"@, description: "Successful Exploit"@ }
}

/// Whether a field that holds `b` has to be quoted.
pub open spec fn is_special(b: u8) -> bool {
    b == COMMA || b == QUOTE || b == CARRIAGE_RETURN_BYTE || b == LINE_FEED_BYTE
}

/// Whether `field` has to be quoted: it holds a comma, a quote, a carriage
/// return or a line feed.
pub open spec fn needs_quotes(field: Seq<u8>) -> bool {
    exists|i: int| 0 <= i < field.len() && is_special(#[trigger] field[i])
}

/// `field` with each of its quotes doubled.
pub open spec fn doubled_quotes(field: Seq<u8>) -> Seq<u8>
    decreases field.len(),
{
    if field.len() == 0 {
        field
    } else if field.last() == QUOTE {
        doubled_quotes(field.drop_last()).push(QUOTE).push(QUOTE)
    } else {
        doubled_quotes(field.drop_last()).push(field.last())
    }
}

/// How one field stands in the file: as it is, or, where it has to be
/// quoted, between quotes and with its own quotes doubled.
pub open spec fn field_bytes(field: Seq<u8>) -> Seq<u8> {
    if needs_quotes(field) {
        seq![QUOTE] + doubled_quotes(field) + seq![QUOTE]
    } else {
        field
    }
}

/// How one row stands in the file: its two fields in UTF-8, a comma between
/// them and a line feed after them.
pub open spec fn record_bytes(row: Row) -> Seq<u8> {
    field_bytes(encode_utf8(row.target)) + seq![COMMA] + field_bytes(
        encode_utf8(row.description),
    ) + seq![LINE_FEED_BYTE]
}

/// How rows stand in the file: one after the other.
pub open spec fn rows_bytes(rows: Seq<Row>) -> Seq<u8>
    decreases rows.len(),
{
    if rows.len() == 0 {
        Seq::empty()
    } else {
        rows_bytes(rows.drop_last()) + record_bytes(rows.last())
    }
}

/// The rows of a file that was created and then had the batches appended to
/// it, in the order in which they arrived.
pub open spec fn file_rows(batches: Seq<Seq<Row>>) -> Seq<Row> {
    seq![header()] + batches.flatten()
}

/// The bytes of such a file.
pub open spec fn file_bytes(batches: Seq<Seq<Row>>) -> Seq<u8> {
    rows_bytes(file_rows(batches))
}

/// The error of the CSV writer, which is carried and never looked into.
#[verifier::external_type_specification]
#[verifier::external_body]
pub struct ExCsvError(csv::Error);

/// The bytes of one row.
///
/// Trusted: this is `csv::Writer::write_record` on a writer of the default
/// configuration over an empty `Vec<u8>`, followed by `into_inner`. With that
/// configuration the writer separates fields by a comma, ends the record with
/// a line feed, and quotes a field exactly where it holds a comma, a quote, a
/// carriage return or a line feed, doubling the quotes inside it. The call
/// succeeds: the writer is made anew, so the record cannot differ in length
/// from an earlier one, and it writes into a vector, which takes whatever is
/// appended to it.
#[verifier::external_body]
fn write_record(first: &str, second: &str) -> (r: Result<Vec<u8>, csv::Error>)
    ensures
        r is Ok,
        r matches Ok(bytes) ==> bytes@ == record_bytes(
            Row { target: first@, description: second@ },
        ),
{
    let mut writer = csv::WriterBuilder::new().has_headers(false).from_writer(Vec::new());
    writer.write_record([first, second])?;
    match writer.into_inner() {
        Ok(bytes) => Ok(bytes),
        Err(e) => Err(csv::Error::from(e.into_error())),
    }
}

/// Rows of one after the other are the rows of the first followed by the rows
/// of the second.
pub proof fn lemma_rows_bytes_concat(a: Seq<Row>, b: Seq<Row>)
    ensures
        rows_bytes(a + b) == rows_bytes(a) + rows_bytes(b),
    decreases b.len(),
{
    if b.len() == 0 {
        assert(a + b == a);
    } else {
        assert((a + b).drop_last() == a + b.drop_last());
        assert((a + b).last() == b.last());
        lemma_rows_bytes_concat(a, b.drop_last());
    }
}

/// Every row of the batches taken together is a row of one of the batches.
pub proof fn lemma_flatten_rows(batches: Seq<Seq<Row>>, k: int)
    requires
        0 <= k < batches.flatten().len(),
    ensures
        exists|i: int, j: int|
            0 <= i < batches.len() && 0 <= j < batches[i].len() && batches.flatten()[k]
                == #[trigger] batches[i][j],
    decreases batches.len(),
{
    if batches.len() > 0 {
        let head = batches.first();
        let tail = batches.drop_first();
        if k < head.len() {
            assert(batches.flatten()[k] == batches[0][k]);
        } else {
            lemma_flatten_rows(tail, k - head.len());
            let (i, j) = choose|i: int, j: int|
                0 <= i < tail.len() && 0 <= j < tail[i].len() && tail.flatten()[k - head.len()]
                    == #[trigger] tail[i][j];
            assert(batches.flatten()[k] == batches[i + 1][j]);
        }
    }
}

/// The header stands first in the file and, unless a finding itself spells
/// the header, nowhere else, however many batches were appended and in
/// whatever order they arrived. After it come the rows of the batches and
/// nothing else.
pub proof fn lemma_header_first_and_once(batches: Seq<Seq<Row>>)
    requires
        forall|i: int, j: int|
            0 <= i < batches.len() && 0 <= j < batches[i].len() ==> #[trigger] batches[i][j]
                != header(),
    ensures
        file_rows(batches)[0] == header(),
        forall|k: int| 0 < k < file_rows(batches).len() ==> file_rows(batches)[k] != header(),
        file_bytes(batches) == record_bytes(header()) + rows_bytes(batches.flatten()),
{
    assert forall|k: int| 0 < k < file_rows(batches).len() implies file_rows(batches)[k]
        != header() by {
        lemma_flatten_rows(batches, k - 1);
    }
    lemma_rows_bytes_concat(seq![header()], batches.flatten());
    assert(seq![header()].drop_last() == Seq::<Row>::empty());
    assert(rows_bytes(seq![header()]) == rows_bytes(Seq::<Row>::empty()) + record_bytes(header()));
}

/// Appending a batch leaves what the file held as it was and adds the rows of
/// the batch at its end.
pub proof fn lemma_append_keeps_file(batches: Seq<Seq<Row>>, batch: Seq<Row>)
    ensures
        file_rows(batches.push(batch)) == file_rows(batches) + batch,
        file_bytes(batches.push(batch)) == file_bytes(batches) + rows_bytes(batch),
{
    batches.lemma_flatten_push(batch);
    assert(file_rows(batches.push(batch)) == file_rows(batches) + batch);
    lemma_rows_bytes_concat(file_rows(batches), batch);
}

/// A probe that reported nothing gives no row, and one that reported `m`
/// things gives `m` rows, each with the target in its first column.
pub proof fn lemma_one_row_per_description(target: Seq<char>, descriptions: Seq<Seq<char>>)
    ensures
        rows_of(target, descriptions).len() == descriptions.len(),
        forall|i: int|
            0 <= i < descriptions.len() ==> (#[trigger] rows_of(target, descriptions)[i]).target
                == target,
        descriptions.len() == 0 ==> rows_bytes(rows_of(target, descriptions)) == Seq::<u8>::empty(),
{
}

/// The bytes of the line `IP Address,Successful Exploit` and the line feed
/// after it.
pub open spec fn header_line() -> Seq<u8> {
    seq![
        0x49u8, 0x50, 0x20, 0x41, 0x64, 0x64, 0x72, 0x65, 0x73, 0x73, 0x2C, 0x53, 0x75, 0x63, 0x63,
        0x65, 0x73, 0x73, 0x66, 0x75, 0x6C, 0x20, 0x45, 0x78, 0x70, 0x6C, 0x6F, 0x69, 0x74, 0x0A,
    ]
}

/// The header row stands in the file as the line
/// `IP Address,Successful Exploit`: neither of its fields needs quotes.
pub proof fn lemma_header_line()
    ensures
        record_bytes(header()) == header_line(),
{
    reveal_strlit("IP Address");
    reveal_strlit("Successful Exploit");
    is_ascii_chars_encode_utf8("IP Address"@);
    is_ascii_chars_encode_utf8("Successful Exploit"@);
    let first = encode_utf8("IP Address"@);
    let second = encode_utf8("Successful Exploit"@);
    assert(first == seq![0x49u8, 0x50, 0x20, 0x41, 0x64, 0x64, 0x72, 0x65, 0x73, 0x73]);
    assert(second == seq![
        0x53u8, 0x75, 0x63, 0x63, 0x65, 0x73, 0x73, 0x66, 0x75, 0x6C, 0x20, 0x45, 0x78, 0x70, 0x6C,
        0x6F, 0x69, 0x74,
    ]);
    assert(!needs_quotes(first));
    assert(!needs_quotes(second));
}

/// The findings of one probe: one record for each description, in order,
/// each with `target` as its target.
pub fn records_for(target: &str, descriptions: &Vec<String>) -> (r: Vec<ResultRecord>)
    ensures
        rows(r@) == rows_of(target@, texts(descriptions@)),
{
    let mut out: Vec<ResultRecord> = Vec::new();
    let mut i: usize = 0;
    while i < descriptions.len()
        invariant
            i <= descriptions.len(),
            rows(out@) == rows_of(target@, texts(descriptions@).take(i as int)),
        decreases descriptions.len() - i,
    {
        let record = ResultRecord {
            target: target.to_owned(),
            description: descriptions[i].clone(),
        };
        proof {
            let done = texts(descriptions@).take(i as int);
            assert(texts(descriptions@).take(i + 1) == done.push(descriptions@[i as int]@));
            assert(rows(out@.push(record)) == rows(out@).push(record@));
            assert(rows_of(target@, done.push(descriptions@[i as int]@)) == rows_of(
                target@,
                done,
            ).push(record@));
        }
        out.push(record);
        i += 1;
    }
    assert(texts(descriptions@).take(i as int) == texts(descriptions@));
    out
}

/// Adds one row to `buffer`, given what the CSV writer made of the row: its
/// bytes are added at the end, or, where the writer refused the row, the
/// buffer stays as it was and the refusal is reported.
pub fn add_encoded(buffer: &mut Vec<u8>, encoded: Result<Vec<u8>, csv::Error>) -> (r: Result<
    (),
    SinkError,
>)
    ensures
        match encoded {
            Ok(bytes) => r is Ok && final(buffer)@ == old(buffer)@ + bytes@,
            Err(_) => r == Err::<(), SinkError>(SinkError::Encoding) && final(buffer)@ == old(
                buffer,
            )@,
        },
{
    match encoded {
        Ok(mut bytes) => {
            buffer.append(&mut bytes);
            Ok(())
        },
        Err(_) => Err(SinkError::Encoding),
    }
}

/// The bytes of the header row, with which the file begins: the line
/// `IP Address,Successful Exploit`.
pub fn header_row() -> (r: Result<Vec<u8>, SinkError>)
    ensures
        r matches Ok(bytes) && bytes@ == header_line() && bytes@ == record_bytes(header()),
{
    proof {
        lemma_header_line();
    }
    let mut out: Vec<u8> = Vec::new();
    match add_encoded(&mut out, write_record("IP Address", "Successful Exploit")) {
        Ok(()) => Ok(out),
        Err(e) => Err(e),
    }
}

/// The bytes to append to the file for `records`: their rows, in order, and
/// nothing where there are no records.
pub fn encode_records(records: &Vec<ResultRecord>) -> (r: Result<Vec<u8>, SinkError>)
    ensures
        r matches Ok(bytes) && bytes@ == rows_bytes(rows(records@)),
{
    let mut out: Vec<u8> = Vec::new();
    let mut i: usize = 0;
    while i < records.len()
        invariant
            i <= records.len(),
            out@ == rows_bytes(rows(records@).take(i as int)),
        decreases records.len() - i,
    {
        let encoded = write_record(records[i].target.as_str(), records[i].description.as_str());
        proof {
            let done = rows(records@).take(i as int);
            let next = rows(records@).take(i + 1);
            assert(next.drop_last() == done);
            assert(next.last() == records@[i as int]@);
        }
        match add_encoded(&mut out, encoded) {
            Ok(()) => {},
            Err(e) => {
                return Err(e);
            },
        }
        i += 1;
    }
    assert(rows(records@).take(i as int) == rows(records@));
    Ok(out)
}

} // verus!
