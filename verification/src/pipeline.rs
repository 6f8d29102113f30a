//! The aggregation pipeline: locate the target column in the header, count
//! the column's values, select the most frequent one, and render the
//! HTTP-shaped response.

use vstd::prelude::*;
use vstd::string::StringExecFns;
use crate::csvio::csv_parse;
use crate::csvio::parse_dataset;
use crate::freq::FrequencyTable;
use crate::freq::mode_of;
use crate::freq::table_spec;

verus! {

/// The position of the first header entry equal to `name`, if any.
pub open spec fn col_index_spec(header: Seq<Seq<char>>, name: Seq<char>) -> Option<int>
    decreases header.len(),
{
    if header.len() == 0 {
        None
    } else if header[0] == name {
        Some(0int)
    } else {
        match col_index_spec(header.drop_first(), name) {
            Some(i) => Some(i + 1),
            None => None,
        }
    }
}

/// The located index is the first match: the entry there equals `name` and no
/// earlier one does; no index is located exactly when no entry matches.
pub proof fn lemma_col_index_spec(header: Seq<Seq<char>>, name: Seq<char>)
    ensures
        match col_index_spec(header, name) {
            Some(i) => 0 <= i < header.len() && header[i] == name && (forall|j: int|
                0 <= j < i ==> header[j] != name),
            None => forall|j: int| 0 <= j < header.len() ==> header[j] != name,
        },
    decreases header.len(),
{
    if header.len() > 0 && header[0] != name {
        let rest = header.drop_first();
        lemma_col_index_spec(rest, name);
        match col_index_spec(rest, name) {
            Some(i) => {
                assert(rest[i] == header[i + 1]);
                assert forall|j: int| 0 <= j < i + 1 implies header[j] != name by {
                    if j > 0 {
                        assert(rest[j - 1] == header[j]);
                    }
                }
            },
            None => {
                assert forall|j: int| 0 <= j < header.len() implies header[j] != name by {
                    if j > 0 {
                        assert(rest[j - 1] == header[j]);
                    }
                }
            },
        }
    }
}

/// The zero-based position of the first header entry equal to `name`
/// (exact, case-sensitive comparison).
pub fn locate_column(header: &Vec<String>, name: &str) -> (r: Option<usize>)
    ensures
        match r {
            Some(i) => col_index_spec(header.deep_view(), name@) == Some(i as int),
            None => col_index_spec(header.deep_view(), name@) is None,
        },
{
    let ghost h = header.deep_view();
    let target: String = name.to_owned();
    let mut i: usize = 0;
    while i < header.len()
        invariant
            i <= header.len(),
            h == header.deep_view(),
            target@ == name@,
            forall|j: int| 0 <= j < i ==> h[j] != name@,
        decreases header.len() - i,
    {
        proof {
            assert(h[i as int] == header@[i as int]@);
        }
        if header[i] == target {
            proof {
                lemma_col_index_spec(h, name@);
                match col_index_spec(h, name@) {
                    Some(p) => {
                        if p < i {
                            assert(h[p] != name@);
                        }
                        if p > i {
                            assert(h[i as int] != name@);
                        }
                    },
                    None => {
                        assert(h[i as int] != name@);
                    },
                }
            }
            return Some(i);
        }
        i += 1;
    }
    proof {
        lemma_col_index_spec(h, name@);
    }
    None
}

/// The response body for a selection: the sentence naming the most common
/// value, or the fixed sentence for a dataset without qualifying rows.
pub open spec fn body_spec(selection: Option<Seq<char>>) -> Seq<char> {
    match selection {
        Some(v) => "The most common location is: "@ + v,
        None => "No location data found in the CSV file."@,
    }
}

/// Renders the selected entry (or its absence) as the response body.
pub fn format_result(selection: &Option<(String, usize)>) -> (r: String)
    ensures
        r@ == body_spec(match *selection {
            Some(p) => Some(p.0@),
            None => None,
        }),
{
    match selection {
        Some(p) => {
            let mut s: String = "The most common location is: ".to_owned();
            s.append(p.0.as_str());
            s
        },
        None => "No location data found in the CSV file.".to_owned(),
    }
}

/// What one invocation answers: an HTTP-shaped status code, an optional
/// content-type header value, and a textual body.
#[derive(Debug)]
pub struct PipelineResponse {
    pub status: u16,
    pub content_type: Option<String>,
    pub body: String,
}

/// The failure that a dataset which does not parse maps to.
#[derive(Debug, PartialEq, Eq, Structural)]
pub enum PipelineError {
    SourceUnavailable,
}

/// The response owed for a parsed dataset: its status, content-type and body.
pub open spec fn response_spec(
    header: Seq<Seq<char>>,
    rows: Seq<Seq<Seq<char>>>,
    name: Seq<char>,
) -> (int, Option<Seq<char>>, Seq<char>) {
    match col_index_spec(header, name) {
        None => (500int, None, "Internal Server Error"@),
        Some(idx) => (
            200int,
            Some("text/html"@),
            body_spec(
                match mode_of(table_spec(rows, idx)) {
                    Some(p) => Some(p.0),
                    None => None,
                },
            ),
        ),
    }
}

/// Whether an executable response agrees with the specified one.
pub open spec fn response_matches(r: PipelineResponse, out: (int, Option<Seq<char>>, Seq<char>)) -> bool {
    &&& r.status as int == out.0
    &&& (match r.content_type {
        Some(ct) => out.1 == Some(ct@),
        None => out.1 is None,
    })
    &&& r.body@ == out.2
}

/// One full pass over a parsed dataset: locate the column named `name`,
/// count its values, select the mode, format the body. A header without the
/// column is the fixed 500 response, and nothing else is looked at.
pub fn run_on_rows(header: &Vec<String>, rows: &Vec<Vec<String>>, name: &str) -> (r:
    PipelineResponse)
    ensures
        response_matches(r, response_spec(header.deep_view(), rows.deep_view(), name@)),
{
    match locate_column(header, name) {
        None => PipelineResponse {
            status: 500,
            content_type: None,
            body: "Internal Server Error".to_owned(),
        },
        Some(idx) => {
            let table = FrequencyTable::count_values(rows, idx);
            let selection = table.select_mode();
            let body = format_result(&selection);
            PipelineResponse { status: 200, content_type: Some("text/html".to_owned()), body }
        },
    }
}

/// The outcome owed for raw dataset bytes: the response, or nothing where
/// the bytes do not parse as a dataset.
pub open spec fn outcome_spec(data: Seq<u8>, name: Seq<char>) -> Option<
    (int, Option<Seq<char>>, Seq<char>),
> {
    match csv_parse(data) {
        Some(p) => Some(response_spec(p.0, p.1, name)),
        None => None,
    }
}

/// One full invocation on raw dataset bytes: parse, then run. A dataset that
/// does not parse is the source failure; a missing column is the fixed 500
/// response; everything else is the 200 response with the formatted body.
pub fn run(data: &Vec<u8>, name: &str) -> (r: Result<PipelineResponse, PipelineError>)
    ensures
        (r is Ok) == (outcome_spec(data@, name@) is Some),
        match r {
            Ok(resp) => response_matches(resp, outcome_spec(data@, name@)->Some_0),
            Err(e) => e == PipelineError::SourceUnavailable,
        },
{
    match parse_dataset(data) {
        Ok(parsed) => {
            let (header, rows) = parsed;
            Ok(run_on_rows(&header, &rows, name))
        },
        Err(_) => Err(PipelineError::SourceUnavailable),
    }
}

/// With the target column present in the header and no qualifying data row,
/// the pipeline owes success and the fixed no-data sentence.
pub proof fn lemma_no_qualifying_rows(
    header: Seq<Seq<char>>,
    rows: Seq<Seq<Seq<char>>>,
    name: Seq<char>,
)
    requires
        col_index_spec(header, name) is Some,
        forall|i: int|
            0 <= i < rows.len() ==> !crate::freq::row_qualifies(
                #[trigger] rows[i],
                col_index_spec(header, name)->Some_0,
            ),
    ensures
        response_spec(header, rows, name).0 == 200,
        response_spec(header, rows, name).2 == "No location data found in the CSV file."@,
{
    let idx = col_index_spec(header, name)->Some_0;
    crate::freq::lemma_no_qualifying_rows_empty_table(rows, idx);
}

/// A header without the target column owes the fixed failure: status 500,
/// the diagnostic body, and no record is consulted — any two row sets give
/// the identical response.
pub proof fn lemma_missing_column(
    header: Seq<Seq<char>>,
    rows: Seq<Seq<Seq<char>>>,
    other_rows: Seq<Seq<Seq<char>>>,
    name: Seq<char>,
)
    requires
        forall|j: int| 0 <= j < header.len() ==> header[j] != name,
    ensures
        response_spec(header, rows, name).0 == 500,
        response_spec(header, rows, name).1 is None,
        response_spec(header, rows, name).2 == "Internal Server Error"@,
        response_spec(header, rows, name) == response_spec(header, other_rows, name),
{
    lemma_col_index_spec(header, name);
    if col_index_spec(header, name) is Some {
        let i = col_index_spec(header, name)->Some_0;
        assert(header[i] == name);
    }
}

/// A data row that the counting pass skips — one with no field at the target
/// column, or an empty one — leaves the whole response unchanged.
pub proof fn lemma_skipped_row_response(
    header: Seq<Seq<char>>,
    rows: Seq<Seq<Seq<char>>>,
    i: int,
    name: Seq<char>,
)
    requires
        0 <= i < rows.len(),
        match col_index_spec(header, name) {
            Some(idx) => !crate::freq::row_qualifies(rows[i], idx),
            None => true,
        },
    ensures
        response_spec(header, rows.remove(i), name) == response_spec(header, rows, name),
{
    if col_index_spec(header, name) is Some {
        let idx = col_index_spec(header, name)->Some_0;
        crate::freq::lemma_skipped_row(rows, idx, i);
    }
}

/// Idempotence: the outcome is a function of the dataset bytes and the
/// column name alone, so running the pipeline twice over the same static
/// dataset owes identical responses both times.
pub proof fn lemma_idempotent(data_first: Seq<u8>, data_second: Seq<u8>, name: Seq<char>)
    requires
        data_first == data_second,
    ensures
        outcome_spec(data_first, name) == outcome_spec(data_second, name),
{
}

} // verus!
