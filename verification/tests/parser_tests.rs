use log_analyzer::parser::parse_line;
use log_analyzer::{LogLevel, LogParser, Timestamp};

#[test]
fn parse_line_well_formed() {
    let e = parse_line("2024-01-15 10:30:45 ERROR connection refused").unwrap();
    assert_eq!(
        e.timestamp,
        Timestamp { year: 2024, month: 1, day: 15, hour: 10, minute: 30, second: 45 }
    );
    assert_eq!(e.level, LogLevel::Error);
    assert_eq!(e.message, "connection refused");
}

#[test]
fn parse_line_each_level_token() {
    assert_eq!(
        parse_line("2024-01-15 10:30:45 INFO ok").unwrap().level,
        LogLevel::Info
    );
    assert_eq!(
        parse_line("2024-01-15 10:30:45 WARN hmm").unwrap().level,
        LogLevel::Warn
    );
    assert_eq!(
        parse_line("2024-01-15 10:30:45 ERROR bad").unwrap().level,
        LogLevel::Error
    );
}

#[test]
fn parse_line_empty_message() {
    let e = parse_line("2024-01-15 10:30:45 INFO ").unwrap();
    assert_eq!(e.message, "");
}

#[test]
fn parse_line_level_token_at_end_of_line() {
    let e = parse_line("2024-01-15 10:30:45 WARN").unwrap();
    assert_eq!(e.level, LogLevel::Warn);
    assert_eq!(e.message, "");
}

#[test]
fn parse_line_rejects_short_line() {
    assert!(parse_line("").is_none());
    assert!(parse_line("2024-01-15").is_none());
    assert!(parse_line("2024-01-15 10:30:45").is_none());
}

#[test]
fn parse_line_rejects_unknown_level() {
    assert!(parse_line("2024-01-15 10:30:45 DEBUG details").is_none());
    assert!(parse_line("2024-01-15 10:30:45 info lower case token").is_none());
}

#[test]
fn parse_line_rejects_bad_timestamp() {
    assert!(parse_line("2024-13-15 10:30:45 INFO month out of range").is_none());
    assert!(parse_line("2024-00-15 10:30:45 INFO month zero").is_none());
    assert!(parse_line("2024-01-32 10:30:45 INFO day out of range").is_none());
    assert!(parse_line("2024-01-15 24:30:45 INFO hour out of range").is_none());
    assert!(parse_line("2024-01-15 10:60:45 INFO minute out of range").is_none());
    assert!(parse_line("2024-01-15 10:30:60 INFO second out of range").is_none());
    assert!(parse_line("2024/01/15 10:30:45 INFO wrong separators").is_none());
    assert!(parse_line("2O24-01-15 10:30:45 INFO letter digit").is_none());
}

#[test]
fn parse_lines_skips_malformed_and_keeps_order() {
    let lines: Vec<String> = vec![
        "2024-01-15 08:00:00 INFO service starting".to_string(),
        "not a log line".to_string(),
        "2024-01-15 08:00:01 WARN low memory".to_string(),
        "2024-01-15 08:00:02 TRACE unknown level".to_string(),
        "2024-01-15 08:00:03 ERROR out of memory".to_string(),
    ];
    let parser = LogParser::new();
    let entries = parser.parse_lines(&lines);
    assert_eq!(entries.len(), 3);
    assert_eq!(entries[0].message, "service starting");
    assert_eq!(entries[1].message, "low memory");
    assert_eq!(entries[2].message, "out of memory");
    assert!(entries[0].timestamp.le(&entries[1].timestamp));
    assert!(entries[1].timestamp.le(&entries[2].timestamp));
}

#[test]
fn parse_timestamp_exact_fields() {
    let t = log_analyzer::parser::parse_timestamp("1999-12-31 23:59:59").unwrap();
    assert_eq!(
        t,
        Timestamp { year: 1999, month: 12, day: 31, hour: 23, minute: 59, second: 59 }
    );
    assert!(log_analyzer::parser::parse_timestamp("1999-12-31").is_none());
    assert!(log_analyzer::parser::parse_timestamp("1999-12-31 23:59:5x").is_none());
}

#[test]
fn format_timestamp_pads_with_zeros() {
    let t = Timestamp { year: 987, month: 3, day: 4, hour: 5, minute: 6, second: 7 };
    assert_eq!(t.format(), "0987-03-04 05:06:07");
}

#[test]
fn format_round_trips_parse() {
    let s = "2024-01-15 10:30:45";
    let t = log_analyzer::parser::parse_timestamp(s).unwrap();
    assert_eq!(t.format(), s);
}

#[test]
fn timestamp_order_is_lexicographic() {
    let a = Timestamp { year: 2024, month: 1, day: 15, hour: 10, minute: 0, second: 0 };
    let b = Timestamp { year: 2024, month: 1, day: 15, hour: 10, minute: 0, second: 1 };
    let c = Timestamp { year: 2023, month: 12, day: 31, hour: 23, minute: 59, second: 59 };
    assert!(a.le(&b));
    assert!(!b.le(&a));
    assert!(c.le(&a));
    assert!(a.le(&a));
}

#[test]
fn level_tokens_round_trip() {
    assert_eq!(LogLevel::Info.as_str(), "INFO");
    assert_eq!(LogLevel::Warn.as_str(), "WARN");
    assert_eq!(LogLevel::Error.as_str(), "ERROR");
}
