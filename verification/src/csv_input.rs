//! The CSV boundary: parsing raw CSV text into rows of byte-string
//! fields is delegated to the `csv` crate behind a trusted wrapper;
//! everything after that call is verified.

use vstd::prelude::*;

use crate::bytes::rows_view;
use crate::loader::{kept_of, load_rows, skips_of};
use crate::record::{notices_view, recs_view, Record, SkipNotice};

verus! {

#[verifier::external_type_specification]
#[verifier::external_body]
pub struct ExCsvError(csv::Error);

/// What the `csv` crate's reader makes of `data`: the data rows after
/// the header row, each a sequence of fields, or `None` where reading
/// fails (a row whose field count differs from the header's). CSV
/// parsing is a function of the input bytes alone.
pub uninterp spec fn csv_parse_of(data: Seq<u8>) -> Option<Seq<Seq<Seq<u8>>>>;

/// Relies on `csv::ReaderBuilder` and `Reader::byte_records`: the
/// reader yields the records after the header row, each record its
/// fields in order, erring only as `csv_parse_of` says. Every record
/// consumes at least one input byte, so there are at most `data.len()`
/// rows.
#[verifier::external_body]
fn csv_rows(data: &Vec<u8>) -> (r: Result<Vec<Vec<Vec<u8>>>, csv::Error>)
    ensures
        match r {
            Ok(rows) => csv_parse_of(data@) == Some(rows_view(rows@)) && rows@.len()
                <= data@.len(),
            Err(_) => csv_parse_of(data@) is None,
        },
{
    let mut rdr = csv::ReaderBuilder::new().has_headers(true).from_reader(data.as_slice());
    let mut rows: Vec<Vec<Vec<u8>>> = Vec::new();
    for result in rdr.byte_records() {
        match result {
            Ok(record) => rows.push(record.iter().map(|f| f.to_vec()).collect()),
            Err(e) => return Err(e),
        }
    }
    Ok(rows)
}

/// Why a whole load fails: the source text could not be read as CSV.
#[derive(Debug)]
pub enum LoadError {
    Source(csv::Error),
}

/// Parse CSV text into its raw data rows: each row the fields after
/// the header row, in order. Everything downstream of this call works
/// on plain byte strings and is verified.
pub fn parse_rows(data: &Vec<u8>) -> (r: Result<Vec<Vec<Vec<u8>>>, LoadError>)
    ensures
        match r {
            Ok(rows) => csv_parse_of(data@) == Some(rows_view(rows@)) && rows@.len()
                <= data@.len(),
            Err(e) => csv_parse_of(data@) is None && e is Source,
        },
{
    match csv_rows(data) {
        Ok(rows) => Ok(rows),
        Err(e) => Err(LoadError::Source(e)),
    }
}

/// Load records from CSV text: parse the rows after the header, keep
/// every valid record in source order, and report a notice for each
/// rejected row. The load fails as a whole only where the CSV reader
/// itself fails; no single bad row is fatal.
pub fn load(data: &Vec<u8>) -> (r: Result<(Vec<Record>, Vec<SkipNotice>), LoadError>)
    requires
        data@.len() + 2 <= usize::MAX,
    ensures
        match r {
            Ok(out) => csv_parse_of(data@) matches Some(rows) && recs_view(out.0@) == kept_of(
                rows,
            ) && notices_view(out.1@) == skips_of(rows) && forall|i: int|
                0 <= i < out.0@.len() ==> (#[trigger] out.0@[i]).wf(),
            Err(e) => csv_parse_of(data@) is None && e is Source,
        },
{
    match parse_rows(data) {
        Ok(rows) => {
            let (recs, notices) = load_rows(&rows);
            Ok((recs, notices))
        },
        Err(e) => Err(e),
    }
}

} // verus!
