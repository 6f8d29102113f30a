use location_mode::freq::FrequencyTable;
use location_mode::pipeline::format_result;
use location_mode::pipeline::locate_column;
use location_mode::pipeline::run;
use location_mode::pipeline::run_on_rows;
use location_mode::pipeline::PipelineError;

fn owned_rows(rows: &[&[&str]]) -> Vec<Vec<String>> {
    rows.iter().map(|r| r.iter().map(|f| f.to_string()).collect()).collect()
}

fn owned(fields: &[&str]) -> Vec<String> {
    fields.iter().map(|f| f.to_string()).collect()
}

#[test]
fn most_common_location_scenario() {
    let data = b"Name,Location\nA,NYC\nB,LA\nC,NYC\nD,\n".to_vec();
    let resp = run(&data, "Location").unwrap();
    assert_eq!(resp.status, 200);
    assert_eq!(resp.content_type.as_deref(), Some("text/html"));
    assert_eq!(resp.body, "The most common location is: NYC");
}

#[test]
fn scenario_frequency_table_contents() {
    let rows = owned_rows(&[&["A", "NYC"], &["B", "LA"], &["C", "NYC"], &["D", ""]]);
    let table = FrequencyTable::count_values(&rows, 1);
    assert_eq!(table.count_for("NYC"), 2);
    assert_eq!(table.count_for("LA"), 1);
    assert_eq!(table.count_for(""), 0);
    assert_eq!(table.count_for("Chicago"), 0);
    let mode = table.select_mode().unwrap();
    assert_eq!(mode.0, "NYC");
    assert_eq!(mode.1, 2);
}

#[test]
fn missing_column_scenario() {
    let data = b"Name,City\nA,NYC\nB,LA\n".to_vec();
    let resp = run(&data, "Location").unwrap();
    assert_eq!(resp.status, 500);
    assert!(resp.content_type.is_none());
    assert_eq!(resp.body, "Internal Server Error");
}

#[test]
fn empty_header_is_missing_column() {
    let data = b"".to_vec();
    let resp = run(&data, "Location").unwrap();
    assert_eq!(resp.status, 500);
    assert_eq!(resp.body, "Internal Server Error");
}

#[test]
fn no_data_rows_reports_no_data() {
    let data = b"Name,Location\n".to_vec();
    let resp = run(&data, "Location").unwrap();
    assert_eq!(resp.status, 200);
    assert_eq!(resp.content_type.as_deref(), Some("text/html"));
    assert_eq!(resp.body, "No location data found in the CSV file.");
}

#[test]
fn only_skipped_rows_reports_no_data() {
    let data = b"Name,Location\nA,\nB\nC,\n".to_vec();
    let resp = run(&data, "Location").unwrap();
    assert_eq!(resp.status, 200);
    assert_eq!(resp.body, "No location data found in the CSV file.");
}

#[test]
fn skipped_rows_contribute_nothing() {
    let with_skipped = owned_rows(&[&["A", "NYC"], &["B", ""], &["C"], &["D", "LA"]]);
    let without = owned_rows(&[&["A", "NYC"], &["D", "LA"]]);
    let t1 = FrequencyTable::count_values(&with_skipped, 1);
    let t2 = FrequencyTable::count_values(&without, 1);
    assert_eq!(t1.count_for("NYC"), t2.count_for("NYC"));
    assert_eq!(t1.count_for("LA"), t2.count_for("LA"));
    assert_eq!(t1.count_for(""), 0);
    assert_eq!(t1.select_mode(), t2.select_mode());
}

#[test]
fn unique_mode_independent_of_row_order() {
    let one = owned_rows(&[&["A", "NYC"], &["B", "LA"], &["C", "NYC"]]);
    let other = owned_rows(&[&["B", "LA"], &["C", "NYC"], &["A", "NYC"]]);
    let m1 = FrequencyTable::count_values(&one, 1).select_mode().unwrap();
    let m2 = FrequencyTable::count_values(&other, 1).select_mode().unwrap();
    assert_eq!(m1.0, "NYC");
    assert_eq!(m2.0, "NYC");
    assert_eq!(m1.1, 2);
    assert_eq!(m2.1, 2);
}

#[test]
fn tie_yields_some_maximal_value() {
    let rows = owned_rows(&[&["A", "NYC"], &["B", "LA"]]);
    let mode = FrequencyTable::count_values(&rows, 1).select_mode().unwrap();
    assert!(mode.0 == "NYC" || mode.0 == "LA");
    assert_eq!(mode.1, 1);
}

#[test]
fn run_twice_same_dataset_same_answer() {
    let data = b"Name,Location\nA,NYC\nB,LA\nC,NYC\n".to_vec();
    let first = run(&data, "Location").unwrap();
    let second = run(&data, "Location").unwrap();
    assert_eq!(first.status, second.status);
    assert_eq!(first.body, second.body);
    assert_eq!(first.content_type, second.content_type);
}

#[test]
fn unreadable_dataset_is_source_failure() {
    let mut data = b"Name,Location\nA,".to_vec();
    data.push(0xff);
    data.push(0xfe);
    data.push(b'\n');
    let err = run(&data, "Location").unwrap_err();
    assert_eq!(err, PipelineError::SourceUnavailable);
}

#[test]
fn quoted_fields_are_parsed_not_echoed() {
    let data = b"Name,Location\nA,\"New York, NY\"\nB,\"New York, NY\"\nC,LA\n".to_vec();
    let resp = run(&data, "Location").unwrap();
    assert_eq!(resp.status, 200);
    assert_eq!(resp.body, "The most common location is: New York, NY");
}

#[test]
fn locate_column_finds_first_exact_match() {
    let header = owned(&["Name", "Location", "Location"]);
    assert_eq!(locate_column(&header, "Location"), Some(1));
    assert_eq!(locate_column(&header, "Name"), Some(0));
}

#[test]
fn locate_column_is_case_sensitive() {
    let header = owned(&["Name", "location"]);
    assert_eq!(locate_column(&header, "Location"), None);
}

#[test]
fn format_result_exact_texts() {
    let some = Some(("NYC".to_string(), 2usize));
    assert_eq!(format_result(&some), "The most common location is: NYC");
    assert_eq!(format_result(&None), "No location data found in the CSV file.");
}

#[test]
fn values_used_verbatim_no_trimming() {
    let rows = owned_rows(&[&["A", " NYC"], &["B", "NYC "], &["C", "NYC"], &["D", "NYC"]]);
    let table = FrequencyTable::count_values(&rows, 1);
    assert_eq!(table.count_for(" NYC"), 1);
    assert_eq!(table.count_for("NYC "), 1);
    assert_eq!(table.count_for("NYC"), 2);
}

#[test]
fn run_on_rows_success_shape() {
    let header = owned(&["Name", "Location"]);
    let rows = owned_rows(&[&["A", "NYC"]]);
    let resp = run_on_rows(&header, &rows, "Location");
    assert_eq!(resp.status, 200);
    assert_eq!(resp.content_type.as_deref(), Some("text/html"));
    assert_eq!(resp.body, "The most common location is: NYC");
}
