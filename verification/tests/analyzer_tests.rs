use log_analyzer::{LogAnalyzer, LogEntry, LogLevel, Timestamp};

fn ts(hour: u32, minute: u32, second: u32) -> Timestamp {
    Timestamp { year: 2024, month: 1, day: 15, hour, minute, second }
}

fn entry(level: LogLevel, second: u32, message: &str) -> LogEntry {
    LogEntry { timestamp: ts(10, 0, second), level, message: message.to_string() }
}

#[test]
fn empty_input_yields_empty_analysis() {
    let analyzer = LogAnalyzer::new(Vec::new());
    let analysis = analyzer.analyze();
    assert_eq!(analysis.total_lines, 0);
    assert!(analysis.level_counts.is_empty());
    assert!(analysis.top_keywords.is_empty());
    assert!(analysis.time_range.is_none());
}

#[test]
fn total_lines_equals_entry_count() {
    let entries = vec![
        entry(LogLevel::Info, 1, "server started"),
        entry(LogLevel::Warn, 2, "disk nearly full"),
        entry(LogLevel::Error, 3, "disk full"),
    ];
    let analysis = LogAnalyzer::new(entries).analyze();
    assert_eq!(analysis.total_lines, 3);
}

#[test]
fn level_counts_observed_levels_only() {
    let entries = vec![
        entry(LogLevel::Info, 1, "alpha"),
        entry(LogLevel::Info, 2, "beta"),
        entry(LogLevel::Error, 3, "gamma"),
    ];
    let analysis = LogAnalyzer::new(entries).analyze();
    assert_eq!(
        analysis.level_counts,
        vec![(LogLevel::Info, 2), (LogLevel::Error, 1)]
    );
}

#[test]
fn level_counts_sum_to_total() {
    let entries = vec![
        entry(LogLevel::Info, 1, "one"),
        entry(LogLevel::Warn, 2, "two"),
        entry(LogLevel::Warn, 3, "three"),
        entry(LogLevel::Error, 4, "four"),
        entry(LogLevel::Info, 5, "five"),
    ];
    let analysis = LogAnalyzer::new(entries).analyze();
    let sum: usize = analysis.level_counts.iter().map(|p| p.1).sum();
    assert_eq!(sum, analysis.total_lines);
    assert!(analysis.level_counts.iter().all(|p| p.1 >= 1));
}

#[test]
fn top_keywords_ranking_example() {
    // ties keep first-seen order (the documented stable tie-break)
    let entries = vec![
        entry(LogLevel::Error, 1, "connection failed timeout"),
        entry(LogLevel::Error, 2, "connection failed timeout"),
        entry(LogLevel::Info, 3, "retry succeeded"),
    ];
    let analysis = LogAnalyzer::new(entries).analyze();
    assert_eq!(
        analysis.top_keywords,
        vec![
            ("connection".to_string(), 2),
            ("failed".to_string(), 2),
            ("timeout".to_string(), 2),
            ("retry".to_string(), 1),
            ("succeeded".to_string(), 1),
        ]
    );
}

#[test]
fn top_keywords_truncated_to_five() {
    let entries = vec![
        entry(LogLevel::Info, 1, "apple apple apple apple apple apple"),
        entry(LogLevel::Info, 2, "banana banana banana banana banana"),
        entry(LogLevel::Info, 3, "cherry cherry cherry cherry"),
        entry(LogLevel::Info, 4, "damson damson damson"),
        entry(LogLevel::Info, 5, "elderberry elderberry"),
        entry(LogLevel::Info, 6, "figtree"),
    ];
    let analysis = LogAnalyzer::new(entries).analyze();
    assert_eq!(analysis.top_keywords.len(), 5);
    assert_eq!(
        analysis.top_keywords,
        vec![
            ("apple".to_string(), 6),
            ("banana".to_string(), 5),
            ("cherry".to_string(), 4),
            ("damson".to_string(), 3),
            ("elderberry".to_string(), 2),
        ]
    );
    // sorted by count non-increasing
    for w in analysis.top_keywords.windows(2) {
        assert!(w[0].1 >= w[1].1);
    }
}

#[test]
fn top_keywords_skip_stopwords_and_short_tokens() {
    let entries = vec![
        entry(LogLevel::Info, 1, "the request for the database was slow"),
        entry(LogLevel::Info, 2, "the database would not answer the request"),
    ];
    let analysis = LogAnalyzer::new(entries).analyze();
    for (word, _) in &analysis.top_keywords {
        assert!(word.len() > 3, "short token ranked: {word}");
        assert!(
            !["the", "and", "for", "with", "from", "that", "this", "have", "has", "been",
                "was", "were", "are", "will", "would", "could", "should"]
                .contains(&word.as_str()),
            "stopword ranked: {word}"
        );
    }
    assert_eq!(analysis.top_keywords[0], ("request".to_string(), 2));
    assert_eq!(analysis.top_keywords[1], ("database".to_string(), 2));
}

#[test]
fn top_keywords_normalization() {
    // edges stripped, lowercased; interior punctuation kept
    let entries = vec![
        entry(LogLevel::Error, 1, "FAILED!! (Failed) failed..."),
        entry(LogLevel::Warn, 2, "time-out [Time-out]"),
    ];
    let analysis = LogAnalyzer::new(entries).analyze();
    assert_eq!(
        analysis.top_keywords,
        vec![("failed".to_string(), 3), ("time-out".to_string(), 2)]
    );
}

#[test]
fn top_keywords_split_on_any_whitespace_run() {
    let entries = vec![entry(LogLevel::Info, 1, "  alpha99   alpha99\t\tbeta88  ")];
    let analysis = LogAnalyzer::new(entries).analyze();
    assert_eq!(
        analysis.top_keywords,
        vec![("alpha99".to_string(), 2), ("beta88".to_string(), 1)]
    );
}

#[test]
fn stopwords_excluded_even_with_punctuation_or_case() {
    // "The!!" normalizes to "the", a stopword; "puncture" survives
    let entries = vec![entry(LogLevel::Info, 1, "The!! THAT. puncture puncture")];
    let analysis = LogAnalyzer::new(entries).analyze();
    assert_eq!(analysis.top_keywords, vec![("puncture".to_string(), 2)]);
}

#[test]
fn analyze_is_idempotent() {
    let entries = vec![
        entry(LogLevel::Info, 1, "cache warmed in four seconds"),
        entry(LogLevel::Warn, 2, "cache nearly cold"),
    ];
    let analyzer = LogAnalyzer::new(entries);
    let first = analyzer.analyze();
    let second = analyzer.analyze();
    assert_eq!(first.total_lines, second.total_lines);
    assert_eq!(first.level_counts, second.level_counts);
    assert_eq!(first.top_keywords, second.top_keywords);
    assert_eq!(first.time_range, second.time_range);
}

#[test]
fn time_range_is_first_and_last_entry() {
    let entries = vec![
        entry(LogLevel::Info, 5, "first"),
        entry(LogLevel::Info, 20, "middle"),
        entry(LogLevel::Info, 40, "last"),
    ];
    let analysis = LogAnalyzer::new(entries).analyze();
    assert_eq!(
        analysis.time_range,
        Some((
            "2024-01-15 10:00:05".to_string(),
            "2024-01-15 10:00:40".to_string()
        ))
    );
}

#[test]
fn single_entry_time_range_repeats_it() {
    let entries = vec![entry(LogLevel::Warn, 30, "only line")];
    let analysis = LogAnalyzer::new(entries).analyze();
    assert_eq!(
        analysis.time_range,
        Some((
            "2024-01-15 10:00:30".to_string(),
            "2024-01-15 10:00:30".to_string()
        ))
    );
}

#[test]
fn build_stopwords_holds_the_fixed_list() {
    let analyzer = LogAnalyzer::new(Vec::new());
    let stopwords = analyzer.build_stopwords();
    assert_eq!(stopwords.len(), 17);
    assert_eq!(stopwords[0], "the");
    assert!(stopwords.contains(&"should"));
}

#[test]
fn count_by_level_fixed_display_order() {
    let entries = vec![
        entry(LogLevel::Error, 1, "boom"),
        entry(LogLevel::Info, 2, "calm"),
        entry(LogLevel::Warn, 3, "hmm"),
        entry(LogLevel::Error, 4, "boom again"),
    ];
    let analyzer = LogAnalyzer::new(entries);
    let counts = analyzer.count_by_level();
    assert_eq!(
        counts,
        vec![(LogLevel::Info, 1), (LogLevel::Warn, 1), (LogLevel::Error, 2)]
    );
}

#[test]
fn extract_top_keywords_respects_limit_argument() {
    let entries = vec![
        entry(LogLevel::Info, 1, "alpha1 beta22 gamma3 delta4"),
        entry(LogLevel::Info, 2, "alpha1 beta22 gamma3"),
        entry(LogLevel::Info, 3, "alpha1 beta22"),
    ];
    let analyzer = LogAnalyzer::new(entries);
    let top = analyzer.extract_top_keywords(2);
    assert_eq!(
        top,
        vec![("alpha1".to_string(), 3), ("beta22".to_string(), 3)]
    );
}
