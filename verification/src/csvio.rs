//! Reading a comma-separated dataset into its header and its data rows.
//!
//! The parse itself is the csv crate's work; the library states only that its
//! outcome is a function of the bytes alone, under the name `csv_parse`.

use vstd::prelude::*;

verus! {

#[verifier::external_type_specification]
#[verifier::external_body]
pub struct ExCsvError(csv::Error);

/// What parsing a comma-separated dataset yields: the header fields and each
/// data row's fields, or nothing where the bytes are not a well-formed
/// dataset. The outcome depends on the bytes alone.
pub uninterp spec fn csv_parse(data: Seq<u8>) -> Option<(Seq<Seq<char>>, Seq<Seq<Seq<char>>>)>;

/// Relies on csv::Reader (built with ragged rows allowed): the first record
/// of the dataset is the header, every later record is one data row.
#[verifier::external_body]
pub(crate) fn parse_dataset(data: &Vec<u8>) -> (r: Result<
    (Vec<String>, Vec<Vec<String>>),
    csv::Error,
>)
    ensures
        match r {
            Ok(p) => csv_parse(data@) == Some((p.0.deep_view(), p.1.deep_view())),
            Err(_) => csv_parse(data@) is None,
        },
{
    let mut rdr = csv::ReaderBuilder::new().flexible(true).from_reader(data.as_slice());
    let header: Vec<String> = rdr.headers()?.iter().map(|f| f.to_string()).collect();
    let mut rows: Vec<Vec<String>> = Vec::new();
    for rec in rdr.records() {
        rows.push(rec?.iter().map(|f| f.to_string()).collect());
    }
    Ok((header, rows))
}

} // verus!
