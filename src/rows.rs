//! Comma-separated rows, read with the `csv` crate.
use vstd::prelude::*;

verus! {

/// The rows that comma-separated text holds, each a sequence of fields, with
/// no header row; `None` where the text is not UTF-8.
pub uninterp spec fn csv_rows(b: Seq<u8>) -> Option<Seq<Seq<Seq<char>>>>;

/// The rows of `v` as sequences of field texts.
pub open spec fn rows_view(v: Seq<Vec<String>>) -> Seq<Seq<Seq<char>>> {
    v.map_values(|r: Vec<String>| r@.map_values(|f: String| f@))
}

/// Relies on csv::ReaderBuilder with `has_headers(false)` and
/// `flexible(true)`, and on `StringRecord::iter`: the records that the bytes
/// hold, field by field, or an error where a record is not UTF-8 (with
/// rows of any length allowed, the reader refuses nothing else). The
/// result depends on the bytes alone.
#[verifier::external_body]
pub(crate) fn read_rows(b: &[u8]) -> (r: Option<Vec<Vec<String>>>)
    ensures
        match r {
            Some(v) => csv_rows(b@) == Some(rows_view(v@)),
            None => csv_rows(b@) is None,
        },
{
    let mut rdr = csv::ReaderBuilder::new().has_headers(false).flexible(true).from_reader(b);
    let mut rows = Vec::new();
    for rec in rdr.records() {
        match rec {
            Ok(r) => rows.push(r.iter().map(String::from).collect()),
            Err(_) => return None,
        }
    }
    Some(rows)
}

} // verus!
