//! Reading comma-separated text into records, by the `csv` crate.

use vstd::prelude::*;

verus! {

/// The error of the `csv` crate. Nothing is known of what it holds.
#[verifier::external_type_specification]
#[verifier::external_body]
pub struct ExCsvError(csv::Error);

/// What the `csv` crate's reader, in its default configuration, makes of a
/// text: the records after the header line, each as the list of its fields,
/// or `None` where the reader reports an error for one of them.
pub uninterp spec fn csv_records(text: Seq<u8>) -> Option<Seq<Seq<Seq<char>>>>;

/// Runs `csv::Reader::from_reader` on the text and collects what
/// `Reader::records` yields, up to the first error.
///
/// Trusted: the reader reads from memory only, so what it yields depends on
/// the bytes alone, and the contract gives that result its name. It says
/// nothing of what the records are.
#[verifier::external_body]
pub(crate) fn read_records(text: &[u8]) -> (records: Result<Vec<Vec<String>>, csv::Error>)
    ensures
        match records {
            Ok(rows) => csv_records(text@) == Some(rows.deep_view()),
            Err(_) => csv_records(text@) is None,
        },
{
    let mut reader = csv::Reader::from_reader(text);
    let mut rows: Vec<Vec<String>> = Vec::new();
    for record in reader.records() {
        rows.push(record?.iter().map(|field| field.to_string()).collect());
    }
    Ok(rows)
}

} // verus!
