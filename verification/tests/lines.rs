use usage_timeline::events::{FocusChange, FocusChangeEvent};
use usage_timeline::parse::{parse_content, parse_line};
use usage_timeline::resolver::AppsMap;
use usage_timeline::codec::ParseError;
use usage_timeline::time::Timestamp;

fn start(secs: i64, app: &str) -> FocusChangeEvent {
    FocusChangeEvent {
        time: Timestamp { secs },
        change: FocusChange::StartUsing(app.to_string()),
    }
}

fn stop(secs: i64) -> FocusChangeEvent {
    FocusChangeEvent { time: Timestamp { secs }, change: FocusChange::StopUsing }
}

#[test]
fn parses_open_and_lock_lines() {
    assert_eq!(
        parse_line("1700000000:open:app.browser"),
        Ok(Some(start(1700000000, "app.browser")))
    );
    assert_eq!(parse_line("1700000000:lock:"), Ok(Some(stop(1700000000))));
    assert_eq!(parse_line("1700000000:lock"), Ok(Some(stop(1700000000))));
    assert_eq!(parse_line("1700000000:lock:anything"), Ok(Some(stop(1700000000))));
}

#[test]
fn app_id_ends_at_the_next_separator() {
    assert_eq!(
        parse_line("1700000000:open:app.browser:extra"),
        Ok(Some(start(1700000000, "app.browser")))
    );
}

#[test]
fn malformed_lines_yield_no_event() {
    assert_eq!(parse_line(""), Ok(None));
    assert_eq!(parse_line("no separators here"), Ok(None));
    assert_eq!(parse_line("abc:open:app"), Ok(None));
    assert_eq!(parse_line("1700000000:jump:app"), Ok(None));
    assert_eq!(parse_line("1700000000:open"), Ok(None));
    assert_eq!(parse_line("1700000000"), Ok(None));
}

#[test]
fn unrepresentable_timestamp_is_fatal_even_with_unknown_action() {
    assert_eq!(parse_line("99999999999999999:junk"), Err(ParseError::OutOfRange));
}

#[test]
fn content_keeps_line_order_and_drops_noise() {
    let content = "1700000000:open:app.a\n\nnoise\n1700000900:lock:";
    let events = parse_content(content).unwrap();
    assert_eq!(events, vec![start(1700000000, "app.a"), stop(1700000900)]);
}

#[test]
fn lookup_table_splits_at_first_separator_and_last_entry_wins() {
    let apps = AppsMap::new("a.b:Name One\nskipped line\na.c:X:Y\na.b:Name Two\n");
    assert_eq!(apps.get_app_name("a.b"), Some(&String::from("Name Two")));
    // the value keeps everything after the first separator
    assert_eq!(apps.get_app_name("a.c"), Some(&String::from("X:Y")));
    assert_eq!(apps.get_app_name("missing"), None);
}
