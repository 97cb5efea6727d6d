//! Reading CSV records through the `csv` crate. What the crate parses is
//! named, not restated.

use vstd::prelude::*;

verus! {

/// `csv::Reader`, as an opaque type.
#[verifier::external_type_specification]
#[verifier::external_body]
#[verifier::reject_recursive_types(R)]
pub struct ExCsvReader<R>(csv::Reader<R>);

/// One record as read: its fields, or the message of the error.
pub type RecordView = Result<Seq<Seq<char>>, Seq<char>>;

/// A name for the records that a `csv::Reader` built by `csv_reader` reads
/// from `text` (no header row, records of any length, every field trimmed),
/// in order, up to the end of the input.
pub uninterp spec fn csv_records(text: Seq<char>) -> Seq<RecordView>;

/// A name for the records that the reader `r` has yet to give.
pub uninterp spec fn csv_pending(r: csv::Reader<std::io::Cursor<Vec<u8>>>) -> Seq<RecordView>;

/// The fields of a record, or its error, seen as character sequences.
pub open spec fn record_view(r: Result<Vec<String>, String>) -> RecordView {
    match r {
        Ok(fields) => Ok(fields.deep_view()),
        Err(e) => Err(e@),
    }
}

/// A `csv::Reader` over `text`, built with `csv::ReaderBuilder` so that the
/// first row is a record like the others (`has_headers(false)`), records
/// may have any number of fields (`flexible(true)`) and fields are trimmed
/// (`Trim::All`). It has the records of `csv_records(text)` to give, and
/// none for an empty text (`read_record` returns `false` at the end of the
/// input).
#[verifier::external_body]
pub(crate) fn csv_reader(text: &str) -> (r: csv::Reader<std::io::Cursor<Vec<u8>>>)
    ensures
        csv_pending(r) == csv_records(text@),
        text@.len() == 0 ==> csv_pending(r).len() == 0,
{
    csv::ReaderBuilder::new().has_headers(false).flexible(true).trim(csv::Trim::All).from_reader(
        std::io::Cursor::new(text.as_bytes().to_vec()),
    )
}

/// The next record (`csv::Reader::read_record`, as `records()` calls it):
/// `None` at the end, else the first pending record, which is then no
/// longer pending. Fields come back as strings, an error as its message.
#[verifier::external_body]
pub(crate) fn csv_next(r: &mut csv::Reader<std::io::Cursor<Vec<u8>>>) -> (res: Option<Result<Vec<String>, String>>)
    ensures
        csv_pending(*old(r)).len() == 0 ==> res is None && csv_pending(*final(r)) == csv_pending(*old(r)),
        csv_pending(*old(r)).len() > 0 ==> res is Some && record_view(res->0) == csv_pending(*old(r))[0]
            && csv_pending(*final(r)) == csv_pending(*old(r)).drop_first(),
{
    let mut rec = csv::StringRecord::new();
    match r.read_record(&mut rec) {
        Ok(true) => Some(Ok(rec.iter().map(|f| f.to_string()).collect())),
        Ok(false) => None,
        Err(e) => Some(Err(e.to_string())),
    }
}

} // verus!
