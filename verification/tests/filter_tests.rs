use log_analyzer::{apply_filters, LogAnalyzer, LogEntry, LogLevel, Timestamp};

fn ts(second: u32) -> Timestamp {
    Timestamp { year: 2024, month: 6, day: 1, hour: 12, minute: 0, second }
}

fn entry(second: u32, message: &str) -> LogEntry {
    LogEntry { timestamp: ts(second), level: LogLevel::Info, message: message.to_string() }
}

#[test]
fn no_constraints_keeps_everything() {
    let entries = vec![entry(1, "one"), entry(2, "two"), entry(3, "three")];
    let filtered = apply_filters(entries, &None, &None, &None);
    assert_eq!(filtered.len(), 3);
    assert_eq!(filtered[0].message, "one");
    assert_eq!(filtered[2].message, "three");
}

#[test]
fn keyword_filter_is_case_sensitive_substring() {
    let entries = vec![
        entry(1, "Database error"),
        entry(2, "database warmed"),
        entry(3, "data loaded"),
    ];
    let filtered = apply_filters(entries, &Some("database".to_string()), &None, &None);
    assert_eq!(filtered.len(), 1);
    assert_eq!(filtered[0].message, "database warmed");
}

#[test]
fn keyword_matches_inside_words() {
    let entries = vec![entry(1, "prefetching pages"), entry(2, "cache miss")];
    let filtered = apply_filters(entries, &Some("fetch".to_string()), &None, &None);
    assert_eq!(filtered.len(), 1);
    assert_eq!(filtered[0].message, "prefetching pages");
}

#[test]
fn time_window_is_inclusive() {
    let entries = vec![entry(10, "a"), entry(20, "b"), entry(30, "c"), entry(40, "d")];
    let filtered = apply_filters(entries, &None, &Some(ts(20)), &Some(ts(30)));
    assert_eq!(filtered.len(), 2);
    assert_eq!(filtered[0].message, "b");
    assert_eq!(filtered[1].message, "c");
}

#[test]
fn all_constraints_combine_with_and() {
    let entries = vec![
        entry(10, "disk check passed"),
        entry(20, "disk check failed"),
        entry(30, "network check failed"),
        entry(40, "disk check failed"),
    ];
    let filtered = apply_filters(
        entries,
        &Some("disk".to_string()),
        &Some(ts(15)),
        &Some(ts(35)),
    );
    assert_eq!(filtered.len(), 1);
    assert_eq!(filtered[0].message, "disk check failed");
    assert_eq!(filtered[0].timestamp, ts(20));
}

#[test]
fn filtered_is_order_preserving_subsequence() {
    let entries = vec![
        entry(1, "keep one"),
        entry(2, "drop"),
        entry(3, "keep two"),
        entry(4, "drop"),
        entry(5, "keep three"),
    ];
    let filtered = apply_filters(entries, &Some("keep".to_string()), &None, &None);
    let messages: Vec<&str> = filtered.iter().map(|e| e.message.as_str()).collect();
    assert_eq!(messages, vec!["keep one", "keep two", "keep three"]);
}

#[test]
fn time_range_uses_survivors_after_filtering() {
    // T1 < T2 < T3; the filter removes the entry at T2, so the range is
    // (format(T1), format(T3)) of the surviving sequence
    let entries = vec![
        entry(1, "alpha event"),
        entry(2, "beta event"),
        entry(3, "alpha event again"),
    ];
    let filtered = apply_filters(entries, &Some("alpha".to_string()), &None, &None);
    assert_eq!(filtered.len(), 2);
    let analysis = LogAnalyzer::new(filtered).analyze();
    assert_eq!(
        analysis.time_range,
        Some((
            "2024-06-01 12:00:01".to_string(),
            "2024-06-01 12:00:03".to_string()
        ))
    );
}

#[test]
fn empty_keyword_keeps_everything() {
    let entries = vec![entry(1, "x"), entry(2, "")];
    let filtered = apply_filters(entries, &Some(String::new()), &None, &None);
    assert_eq!(filtered.len(), 2);
}
