//! Tabular text, read and written by the `csv` crate.
//!
//! Nothing in this file is proved. Each function hands one piece of work to
//! the `csv` crate or to `std`, and its contract is what the rest of the crate
//! believes of that work.

use vstd::prelude::*;

verus! {

/// `csv::Error`, which is carried and never looked into.
#[verifier::external_type_specification]
#[verifier::external_body]
pub struct ExCsvError(csv::Error);

/// `csv::Reader`, which is carried and never looked into.
#[verifier::external_type_specification]
#[verifier::external_body]
#[verifier::reject_recursive_types(R)]
pub struct ExCsvReader<R>(csv::Reader<R>);

/// A `csv::Writer` over a byte vector. The writer's type is bounded by
/// `std::io::Write`, so it is held here and never looked into.
#[verifier::external_body]
pub struct TableWriter {
    inner: csv::Writer<Vec<u8>>,
}

/// `std::string::FromUtf8Error`, which is carried and never looked into.
#[verifier::external_type_specification]
#[verifier::external_body]
pub struct ExFromUtf8Error(std::string::FromUtf8Error);

/// What the `csv` crate's default reader finds in a text. First the header,
/// or nothing where the reader refuses it; then what follows the header, read
/// by read: a record, or nothing for a record that the reader refuses.
pub uninterp spec fn csv_table(content: Seq<char>) -> (
    Option<Seq<Seq<char>>>,
    Seq<Option<Seq<Seq<char>>>>,
);

/// The header of the text that a reader is over.
pub uninterp spec fn header_of(reader: csv::Reader<&[u8]>) -> Option<Seq<Seq<char>>>;

/// What a reader has yet to yield, read by read.
pub uninterp spec fn records_ahead(reader: csv::Reader<&[u8]>) -> Seq<Option<Seq<Seq<char>>>>;

/// The records that were written to a writer, in the order of writing.
pub uninterp spec fn written_records(writer: TableWriter) -> Seq<Seq<Seq<char>>>;

/// Whether a writer has taken every record that was handed to it. Of a
/// writer that refused a record nothing is said.
pub uninterp spec fn intact(writer: TableWriter) -> bool;

/// The bytes that the `csv` crate's writer produces for a list of records.
pub uninterp spec fn csv_bytes(records: Seq<Seq<Seq<char>>>) -> Seq<u8>;

/// One read: at the end of the text it yields nothing and changes nothing;
/// before the end it takes the first of what was ahead, and yields it as a
/// record or as an error.
pub open spec fn is_next_read(
    ahead: Seq<Option<Seq<Seq<char>>>>,
    left: Seq<Option<Seq<Seq<char>>>>,
    next: Result<Option<Vec<String>>, csv::Error>,
) -> bool {
    if ahead.len() == 0 {
        left == ahead && match next {
            Ok(None) => true,
            _ => false,
        }
    } else {
        left == ahead.drop_first() && match next {
            Ok(Some(fields)) => ahead[0] == Some(fields.deep_view()),
            Ok(None) => false,
            Err(_) => ahead[0] is None,
        }
    }
}

/// `csv::Reader::from_reader` over the bytes of a text: a reader with the
/// crate's default settings that has read nothing yet. What it will yield
/// depends on the text alone.
#[verifier::external_body]
pub(crate) fn open_reader<'a>(content: &'a str) -> (reader: csv::Reader<&'a [u8]>)
    ensures
        header_of(reader) == csv_table(content@).0,
        records_ahead(reader) == csv_table(content@).1,
{
    csv::Reader::from_reader(content.as_bytes())
}

/// `csv::Reader::headers`: the first row of the text. It takes nothing from
/// what the reader has yet to yield.
#[verifier::external_body]
pub(crate) fn read_header(reader: &mut csv::Reader<&[u8]>) -> (header: Result<
    Vec<String>,
    csv::Error,
>)
    ensures
        match header {
            Ok(fields) => header_of(*old(reader)) == Some(fields.deep_view()),
            Err(_) => header_of(*old(reader)) is None,
        },
        header_of(*final(reader)) == header_of(*old(reader)),
        records_ahead(*final(reader)) == records_ahead(*old(reader)),
{
    reader.headers().map(|fields| fields.iter().map(String::from).collect())
}

/// One step of `csv::Reader::records`: the next record, an error for a
/// record that the reader refuses, or nothing at the end of the text. A
/// record that was yielded or refused is behind the reader.
#[verifier::external_body]
pub(crate) fn next_record(reader: &mut csv::Reader<&[u8]>) -> (next: Result<
    Option<Vec<String>>,
    csv::Error,
>)
    ensures
        header_of(*final(reader)) == header_of(*old(reader)),
        is_next_read(records_ahead(*old(reader)), records_ahead(*final(reader)), next),
{
    let record = reader.records().next().transpose()?;
    Ok(record.map(|fields| fields.iter().map(String::from).collect()))
}

/// A record fits a writer that has taken these records: it is the first, or
/// it has as many fields as the first.
pub open spec fn fits(records: Seq<Seq<Seq<char>>>, fields: Seq<Seq<char>>) -> bool {
    records.len() == 0 || fields.len() == records[0].len()
}

/// `csv::Writer::from_writer` over an empty byte vector: a writer with the
/// crate's default settings, to which nothing was written yet.
#[verifier::external_body]
pub(crate) fn new_writer() -> (writer: TableWriter)
    ensures
        intact(writer),
        written_records(writer) == Seq::<Seq<Seq<char>>>::empty(),
{
    TableWriter { inner: csv::Writer::from_writer(Vec::new()) }
}

/// `csv::Writer::write_record` on a writer over a byte vector, which takes
/// every write. The one refusal left is that of the default writer's count
/// of fields: an intact writer takes a record if and only if the record fits,
/// and the record is then its next one. Nothing is said of a writer that
/// refused a record, then or before.
#[verifier::external_body]
pub(crate) fn write_record(writer: &mut TableWriter, fields: &Vec<String>) -> (written: Result<
    (),
    csv::Error,
>)
    ensures
        intact(*old(writer)) ==> (written is Ok <==> fits(
            written_records(*old(writer)),
            fields.deep_view(),
        )),
        intact(*old(writer)) && written is Ok ==> intact(*final(writer)),
        intact(*old(writer)) && written is Ok ==> written_records(*final(writer))
            == written_records(*old(writer)).push(fields.deep_view()),
{
    writer.inner.write_record(fields)
}

/// `csv::Writer::into_inner` on a writer over a byte vector: the flush
/// cannot fail, and an intact writer hands out the bytes of all its records.
/// They are valid UTF-8: the writer copies the fields, which are texts, and
/// adds only quotes, delimiters and terminators, which are ASCII. A failed
/// flush would come back as the `csv::Error` that holds its I/O error.
#[verifier::external_body]
pub(crate) fn finish_writer(writer: TableWriter) -> (bytes: Result<Vec<u8>, csv::Error>)
    ensures
        intact(writer) ==> bytes is Ok,
        intact(writer) ==> bytes->Ok_0@ == csv_bytes(written_records(writer)),
        intact(writer) ==> vstd::utf8::valid_utf8(bytes->Ok_0@),
{
    writer.inner.into_inner().map_err(|failure| csv::Error::from(failure.into_error()))
}

/// `String::from_utf8`: the text that the bytes encode, or an error where
/// they are not valid UTF-8.
#[verifier::external_body]
pub(crate) fn text_from_utf8(bytes: Vec<u8>) -> (text: Result<String, std::string::FromUtf8Error>)
    ensures
        match text {
            Ok(decoded) => vstd::utf8::valid_utf8(bytes@) && decoded@ == vstd::utf8::decode_utf8(
                bytes@,
            ),
            Err(_) => !vstd::utf8::valid_utf8(bytes@),
        },
{
    String::from_utf8(bytes)
}

} // verus!
