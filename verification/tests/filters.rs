use loggaliza::{AnalyzerError, LogEntry, LogLevel, Logs};

fn ingest(v: &[&str]) -> Logs {
    let mut logs = Logs::new();
    let lines: Vec<String> = v.iter().map(|s| s.to_string()).collect();
    logs.read_and_parse_log(&lines).unwrap();
    logs
}

#[test]
fn filter_by_level_keeps_exactly_the_matching_records() {
    let logs = ingest(&["INFO GET /a 1ms", "ERROR GET /b 2ms"]);
    let errors: Vec<LogEntry> = logs.filter_by_level("ERROR").unwrap();
    assert_eq!(errors.len(), 1);
    assert_eq!(errors[0].level, Some(LogLevel::Error));
    assert_eq!(errors[0].endpoint.as_deref(), Some("/b"));
    let infos: Vec<LogEntry> = logs.filter_by_level("INFO").unwrap();
    assert_eq!(infos.len(), 1);
    assert_eq!(infos[0].endpoint.as_deref(), Some("/a"));
}

#[test]
fn filter_by_level_preserves_relative_order() {
    let logs = ingest(&[
        "ERROR GET /one 1ms",
        "INFO GET /two 2ms",
        "ERROR GET /three 3ms",
    ]);
    let errors = logs.filter_by_level("ERROR").unwrap();
    assert_eq!(errors.len(), 2);
    assert_eq!(errors[0].endpoint.as_deref(), Some("/one"));
    assert_eq!(errors[1].endpoint.as_deref(), Some("/three"));
}

#[test]
fn filter_by_level_rejects_an_unknown_level() {
    let logs = ingest(&["INFO GET /a 1ms"]);
    let err = logs.filter_by_level("TRACE").unwrap_err();
    assert!(matches!(err, AnalyzerError::LogLevelParseError(_)));
    assert_eq!(err.message(), "Invalid log level: TRACE");
}

#[test]
fn records_without_a_level_are_never_matched() {
    let logs = ingest(&["GET /a 1ms", "ERROR GET /b 2ms"]);
    let errors = logs.filter_by_level("ERROR").unwrap();
    assert_eq!(errors.len(), 1);
    assert_eq!(errors[0].endpoint.as_deref(), Some("/b"));
}

#[test]
fn filter_by_date_range_is_a_closed_interval() {
    let logs = ingest(&[
        "2024-01-14 08:00:00 INFO GET /a 1ms",
        "2024-01-16 08:00:00 INFO GET /b 2ms",
        "2024-01-18 08:00:00 INFO GET /c 3ms",
    ]);
    let mid = logs.filter_by_date_range("2024-01-15", "2024-01-17").unwrap();
    assert_eq!(mid.len(), 1);
    assert_eq!(mid[0].endpoint.as_deref(), Some("/b"));
    let all = logs.filter_by_date_range("2024-01-14", "2024-01-18").unwrap();
    assert_eq!(all.len(), 3);
    let none = logs.filter_by_date_range("2023-01-01", "2023-12-31").unwrap();
    assert_eq!(none.len(), 0);
}

#[test]
fn filter_by_date_range_rejects_bad_dates() {
    let logs = ingest(&["2024-01-14 08:00:00 INFO GET /a 1ms"]);
    let err = logs.filter_by_date_range("not-a-date", "2024-01-18").unwrap_err();
    assert!(matches!(err, AnalyzerError::DateParseError(_)));
    let err2 = logs.filter_by_date_range("2024-01-14", "2024-13-40").unwrap_err();
    assert!(matches!(err2, AnalyzerError::DateParseError(_)));
}

#[test]
fn records_without_timestamps_fall_outside_every_range() {
    let logs = ingest(&["INFO GET /a 1ms", "2024-01-16 08:00:00 INFO GET /b 2ms"]);
    let v = logs.filter_by_date_range("2020-01-01", "2030-01-01").unwrap();
    assert_eq!(v.len(), 1);
    assert_eq!(v[0].endpoint.as_deref(), Some("/b"));
}

#[test]
fn filter_by_endpoint_matches_whole_words_only() {
    let logs = ingest(&["GET /api/users 1ms", "GET /api/user 2ms"]);
    let users = logs.filter_by_endpoint("users").unwrap();
    assert_eq!(users.len(), 1);
    assert_eq!(users[0].endpoint.as_deref(), Some("/api/users"));
    // "user" occurs in both endpoints, but in "/api/users" it is followed
    // by another word character, so only "/api/user" matches it whole
    let user = logs.filter_by_endpoint("user").unwrap();
    assert_eq!(user.len(), 1);
    assert_eq!(user[0].endpoint.as_deref(), Some("/api/user"));
}

#[test]
fn filter_by_endpoint_keeps_order_and_ignores_absent_endpoints() {
    let logs = ingest(&["INFO hello", "GET /api/a 1ms", "POST /api/b 2ms"]);
    let api = logs.filter_by_endpoint("api").unwrap();
    assert_eq!(api.len(), 2);
    assert_eq!(api[0].endpoint.as_deref(), Some("/api/a"));
    assert_eq!(api[1].endpoint.as_deref(), Some("/api/b"));
}
