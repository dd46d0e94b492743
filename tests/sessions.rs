use furafila_cinesala::crawler::{
    extract_event_dates_data, parse_sessions, process_response, process_segment, CrawlError,
};
use furafila_cinesala::date::{format_dates, parse_date, SessionDate};
use furafila_cinesala::watch::SessionWatch;

fn day(year: i32, month: u32, day: u32) -> SessionDate {
    SessionDate { year, month, day }
}

#[test]
fn two_dates_and_their_display() {
    let dates = process_segment(r#"[{"date":"2024-03-06"},{"date":"2024-03-07"}]"#).unwrap();
    assert_eq!(dates, vec![day(2024, 3, 6), day(2024, 3, 7)]);
    assert_eq!(format_dates(&dates), "06/03/2024, 07/03/2024");
}

#[test]
fn single_entry_page() {
    let page = "var eventDatesData = [{ \"date\": \"2024-03-06\" }];";
    assert_eq!(extract_event_dates_data(page), Some("[{ \"date\": \"2024-03-06\" }]"));
    assert_eq!(process_response(page).unwrap(), 1);
}

#[test]
fn baseline_is_kept_after_first_count() {
    let mut watch = SessionWatch::new();
    assert!(!watch.observe(3));
    assert_eq!(watch.baseline, 3);
    assert!(watch.observe(5));
    assert_eq!(watch.baseline, 3);
    assert!(watch.observe(5));
    assert!(!watch.observe(3));
    assert!(!watch.observe(2));
}

#[test]
fn zero_count_leaves_baseline_unset() {
    let mut watch = SessionWatch::new();
    assert!(!watch.observe(0));
    assert_eq!(watch.baseline, 0);
    assert!(!watch.observe(4));
    assert_eq!(watch.baseline, 4);
}

#[test]
fn page_without_marker_counts_nothing() {
    let page = "<html><script>var otherData = [{\"date\":\"2024-03-06\"}];</script></html>";
    assert_eq!(extract_event_dates_data(page), None);
    let count = process_response(page).unwrap();
    assert_eq!(count, 0);
    let mut fresh = SessionWatch::new();
    assert!(!fresh.observe(count));
    let mut set = SessionWatch { baseline: 5 };
    assert!(!set.observe(count));
    assert_eq!(set.baseline, 5);
}

#[test]
fn marker_without_closing_gives_none() {
    assert_eq!(extract_event_dates_data("var eventDatesData = [{\"date\":\"2024-03-06\"}]"), None);
    assert_eq!(process_response("var eventDatesData = [").unwrap(), 0);
}

#[test]
fn extraction_starts_after_first_marker() {
    let page = "x var eventDatesData = [1]; var eventDatesData = [2];";
    assert_eq!(extract_event_dates_data(page), Some("[1]"));
    assert_eq!(extract_event_dates_data("var eventDatesData = ];"), Some("]"));
    assert_eq!(extract_event_dates_data(""), None);
}

#[test]
fn dates_kept_in_order() {
    let dates = process_segment(
        r#"[{"date":"2024-12-31"},{"date":"2024-01-01"},{"date":"2024-06-15"}]"#,
    )
    .unwrap();
    assert_eq!(dates, vec![day(2024, 12, 31), day(2024, 1, 1), day(2024, 6, 15)]);
}

#[test]
fn undated_elements_are_skipped() {
    let dates = process_segment(
        r#"[{"date":"2024-03-06"},{"time":"10:00"},{"date":"2024-02-30"},{"date":"2024-3-7"},
            {"date":20240308},7,"2024-03-09",{"date":"2024-03-10","room":1}]"#,
    )
    .unwrap();
    assert_eq!(dates, vec![day(2024, 3, 6), day(2024, 3, 10)]);
}

#[test]
fn duplicates_are_counted() {
    let page = r#"var eventDatesData = [{"date":"2024-03-06"},{"date":"2024-03-06"}];"#;
    assert_eq!(process_response(page).unwrap(), 2);
}

#[test]
fn iso_round_trip() {
    let d = parse_date("2024-03-06").unwrap();
    assert_eq!(d, day(2024, 3, 6));
    assert_eq!(d.to_iso_string(), "2024-03-06");
    assert_eq!(parse_date("0024-01-09").unwrap().to_iso_string(), "0024-01-09");
}

#[test]
fn display_leaves_year_unpadded() {
    assert_eq!(day(24, 1, 9).to_display_string(), "09/01/24");
    assert_eq!(day(2024, 11, 30).to_display_string(), "30/11/2024");
    assert_eq!(format_dates(&vec![]), "");
}

#[test]
fn calendar_validity() {
    assert_eq!(parse_date("2024-02-29"), Some(day(2024, 2, 29)));
    assert_eq!(parse_date("2023-02-29"), None);
    assert_eq!(parse_date("1900-02-29"), None);
    assert_eq!(parse_date("2000-02-29"), Some(day(2000, 2, 29)));
    assert_eq!(parse_date("2024-04-31"), None);
    assert_eq!(parse_date("2024-13-01"), None);
    assert_eq!(parse_date("2024-00-10"), None);
}

#[test]
fn shape_is_exact() {
    assert_eq!(parse_date("2024-3-06"), None);
    assert_eq!(parse_date(" 2024-03-06"), None);
    assert_eq!(parse_date("2024-03-06 "), None);
    assert_eq!(parse_date("2024/03/06"), None);
    assert_eq!(parse_date("+024-03-06"), None);
    assert_eq!(parse_date(""), None);
}

#[test]
fn repeated_run_is_identical() {
    let page = r#"<p>var eventDatesData = [{"date":"2024-03-06"},{"date":"bad"}];</p>"#;
    let first = extract_event_dates_data(page).map(parse_sessions);
    let second = extract_event_dates_data(page).map(parse_sessions);
    assert_eq!(first, second);
    assert_eq!(process_response(page).unwrap(), process_response(page).unwrap());
}

#[test]
fn pieces_split_on_semicolons() {
    let dates = parse_sessions(
        " [{\"date\":\"2024-03-06\"}] ;\n;not json; [{\"date\":\"2024-03-07\"},{\"date\":\"2024-03-08\"}]\t",
    );
    assert_eq!(dates, vec![day(2024, 3, 6), day(2024, 3, 7), day(2024, 3, 8)]);
    assert_eq!(parse_sessions(""), vec![]);
    assert_eq!(parse_sessions(" ; ;"), vec![]);
}

#[test]
fn unicode_white_space_is_trimmed() {
    let dates = parse_sessions("\u{3000}[{\"date\":\"2024-03-06\"}]\u{a0};\u{2003}");
    assert_eq!(dates, vec![day(2024, 3, 6)]);
}

#[test]
fn non_json_segment_is_an_error() {
    assert_eq!(process_segment("not json"), Err(CrawlError::Json));
    assert_eq!(process_segment("[{\"date\":\"2024-03-06\"}"), Err(CrawlError::Json));
}

#[test]
fn non_array_json_has_no_dates() {
    assert_eq!(process_segment(r#"{"date":"2024-03-06"}"#), Ok(vec![]));
    assert_eq!(process_segment("[]"), Ok(vec![]));
    assert_eq!(process_segment("\"2024-03-06\""), Ok(vec![]));
}

#[test]
fn repeated_key_keeps_last_value() {
    let dates = process_segment(r#"[{"date":"2024-03-06","date":"2024-03-09"}]"#).unwrap();
    assert_eq!(dates, vec![day(2024, 3, 9)]);
}
