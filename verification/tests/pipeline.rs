use usage_timeline::codec::ParseError;
use usage_timeline::summary::{Error, Plugin};
use usage_timeline::time::{TimeRange, Timestamp};

fn range(start: i64, end: i64) -> TimeRange {
    TimeRange { start: Timestamp { secs: start }, end: Timestamp { secs: end } }
}

#[test]
fn one_hour_bucket_scenario() {
    let plugin = Plugin::new("");
    let contents = vec![String::from(
        "1700000000:open:app.browser\n1700000900:open:app.editor\n1700003600:lock:",
    )];
    let records = plugin.get_events(&contents, &range(1700000000, 1700003600)).unwrap();
    assert_eq!(records.len(), 2);
    assert_eq!(records[0].application_display_name, "app.browser");
    assert_eq!(records[0].duration_minutes, 15);
    assert_eq!(records[0].time_window.start.secs, 1700000000);
    assert_eq!(records[0].time_window.end.secs, 1700003600);
    assert_eq!(records[1].application_display_name, "app.editor");
    assert_eq!(records[1].duration_minutes, 45);
    assert_eq!(records[1].time_window.start.secs, 1700000000);
}

#[test]
fn final_open_interval_is_dropped() {
    let plugin = Plugin::new("");
    let contents = vec![String::from("1700000000:open:app.browser")];
    let records = plugin.get_events(&contents, &range(1700000000, 1700003600)).unwrap();
    assert!(records.is_empty());
}

#[test]
fn unresolved_package_id_falls_back_to_raw_id() {
    let plugin = Plugin::new("app.known:Known App");
    let contents =
        vec![String::from("1700000000:open:app.unknown\n1700000600:lock:")];
    let records = plugin.get_events(&contents, &range(1700000000, 1700003600)).unwrap();
    assert_eq!(records.len(), 1);
    assert_eq!(records[0].application_display_name, "app.unknown");
    assert_eq!(records[0].duration_minutes, 10);
}

#[test]
fn resolved_package_id_uses_display_name() {
    let plugin = Plugin::new("app.browser:Web Browser\napp.editor:Editor");
    let contents = vec![String::from("1700000000:open:app.browser\n1700000060:lock:")];
    let records = plugin.get_events(&contents, &range(1700000000, 1700003600)).unwrap();
    assert_eq!(records.len(), 1);
    assert_eq!(records[0].application_display_name, "Web Browser");
    assert_eq!(records[0].duration_minutes, 1);
}

#[test]
fn malformed_line_changes_nothing() {
    let plugin = Plugin::new("");
    let with_noise = vec![String::from(
        "1700000000:open:app.browser\nnot a log line\n1700000900:lock:",
    )];
    let without = vec![String::from("1700000000:open:app.browser\n1700000900:lock:")];
    let r = range(1700000000, 1700003600);
    let a = plugin.get_events(&with_noise, &r).unwrap();
    let b = plugin.get_events(&without, &r).unwrap();
    assert_eq!(a, b);
    assert_eq!(a.len(), 1);
    assert_eq!(a[0].duration_minutes, 15);
}

#[test]
fn queries_are_idempotent() {
    let plugin = Plugin::new("app.a:A");
    let contents = vec![
        String::from("1700000000:open:app.a\n1700000300:open:app.b\n1700000900:lock:"),
        String::from("1700003600:open:app.a\n1700003900:lock:"),
    ];
    let r = range(1700000000, 1700007200);
    let first = plugin.get_events(&contents, &r).unwrap();
    let second = plugin.get_events(&contents, &r).unwrap();
    assert_eq!(first, second);
}

#[test]
fn events_outside_range_are_clipped() {
    let plugin = Plugin::new("");
    let contents = vec![String::from(
        "1699990000:open:app.before\n1700000000:open:app.inside\n1700000600:lock:",
    )];
    let records = plugin.get_events(&contents, &range(1700000000, 1700003600)).unwrap();
    assert_eq!(records.len(), 1);
    assert_eq!(records[0].application_display_name, "app.inside");
    assert_eq!(records[0].duration_minutes, 10);
}

#[test]
fn repeated_use_in_one_bucket_sums() {
    let plugin = Plugin::new("");
    let contents = vec![String::from(
        "1700000000:open:app.a\n1700000100:lock:\n1700000200:open:app.a\n1700000400:lock:",
    )];
    let records = plugin.get_events(&contents, &range(1700000000, 1700003600)).unwrap();
    assert_eq!(records.len(), 1);
    assert_eq!(records[0].application_display_name, "app.a");
    // 100 s + 200 s = 300 s = 5 min
    assert_eq!(records[0].duration_minutes, 5);
}

#[test]
fn zero_duration_use_is_not_reported() {
    let plugin = Plugin::new("");
    let contents = vec![String::from("1700000000:open:app.a\n1700000000:lock:")];
    let records = plugin.get_events(&contents, &range(1700000000, 1700003600)).unwrap();
    assert!(records.is_empty());
}

#[test]
fn bucket_advance_opens_next_window() {
    let plugin = Plugin::new("");
    let contents = vec![String::from(
        "1700000000:open:app.a\n1700003600:open:app.b\n1700007200:lock:",
    )];
    let records = plugin.get_events(&contents, &range(1700000000, 1700007200)).unwrap();
    // app.a runs until the next event: a whole hour in the first bucket; the
    // event that closes a window carries no duration of its own.
    assert_eq!(records.len(), 1);
    assert_eq!(records[0].application_display_name, "app.a");
    assert_eq!(records[0].duration_minutes, 60);
    assert_eq!(records[0].time_window.start.secs, 1700000000);
    assert_eq!(records[0].time_window.end.secs, 1700003600);
}

#[test]
fn out_of_order_data_is_refused() {
    let plugin = Plugin::new("");
    let contents = vec![String::from("1700000900:open:app.a\n1700000000:lock:")];
    let r = plugin.get_events(&contents, &range(1700000000, 1700003600));
    assert_eq!(r, Err(Error::UnorderedData));
}

#[test]
fn unrepresentable_timestamp_in_file_is_fatal() {
    let plugin = Plugin::new("");
    let contents = vec![String::from("1700000000:open:app.a\n99999999999999999:lock:")];
    let r = plugin.get_events(&contents, &range(1700000000, 1700003600));
    assert_eq!(r, Err(Error::Parse(ParseError::OutOfRange)));
}
