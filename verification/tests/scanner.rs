use usage_timeline::codec::ParseError;
use usage_timeline::scanner::select_files;
use usage_timeline::time::{TimeRange, Timestamp};

fn names(list: &[&str]) -> Vec<String> {
    list.iter().map(|s| s.to_string()).collect()
}

fn range(start: i64, end: i64) -> TimeRange {
    TimeRange { start: Timestamp { secs: start }, end: Timestamp { secs: end } }
}

#[test]
fn keeps_only_files_that_can_overlap_the_range() {
    // Unsorted directory listing; positions are into this list.
    let files = names(&["1700007200", "1700000000", "1700003600"]);
    // The first sorted file is superseded before the range starts, the last
    // one starts after the range ends.
    let sel = select_files(&files, &range(1700003700, 1700007100)).unwrap();
    assert_eq!(sel, vec![2]);
}

#[test]
fn keeps_every_file_inside_the_range_in_time_order() {
    let files = names(&["1700007200", "1700000000", "1700003600"]);
    let sel = select_files(&files, &range(1700000000, 1700007200)).unwrap();
    assert_eq!(sel, vec![1, 2, 0]);
}

#[test]
fn file_before_range_is_kept_when_next_starts_past_range_start() {
    let files = names(&["1700000000", "1700007200"]);
    let sel = select_files(&files, &range(1700003600, 1700010000)).unwrap();
    // The first file may still hold events up to the range's start.
    assert_eq!(sel, vec![0, 1]);
}

#[test]
fn last_file_before_range_is_not_opened() {
    // No file after it: the scan leaves it unopened.
    let files = names(&["1700000000"]);
    let sel = select_files(&files, &range(1700003600, 1700010000)).unwrap();
    assert!(sel.is_empty());
}

#[test]
fn undecodable_file_name_is_fatal() {
    let files = names(&["1700000000", "not-a-timestamp"]);
    let r = select_files(&files, &range(1700000000, 1700003600));
    assert_eq!(r, Err(ParseError::NotANumber));
}

#[test]
fn unrepresentable_file_name_is_fatal() {
    let files = names(&["9000000000000000000"]);
    let r = select_files(&files, &range(1700000000, 1700003600));
    assert_eq!(r, Err(ParseError::OutOfRange));
}

#[test]
fn empty_directory_selects_nothing() {
    let files: Vec<String> = Vec::new();
    let sel = select_files(&files, &range(1700000000, 1700003600)).unwrap();
    assert!(sel.is_empty());
}
