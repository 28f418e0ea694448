use loggaliza::{AnalyzerError, Logs};

fn lines(v: &[&str]) -> Vec<String> {
    v.iter().map(|s| s.to_string()).collect()
}

#[test]
fn records_and_warnings_partition_the_non_blank_lines() {
    let mut logs = Logs::new();
    let input = lines(&["GET /a 5ms", "", "   ", "~~ !! ~~", "POST /b 7ms"]);
    let report = logs.read_and_parse_log(&input).unwrap();
    // five lines, three non-blank, one of them unrecognizable
    assert_eq!(logs.entries.len(), 2);
    assert_eq!(report.entries_parsed, 2);
    assert_eq!(report.warning_count(), 1);
    assert!(report.has_warnings());
    assert_eq!(report.warnings[0].line_number, 4);
    assert_eq!(report.warnings[0].line_content, "~~ !! ~~");
    assert_eq!(report.warnings[0].error, "no recognizable fields in line");
}

#[test]
fn warning_line_numbers_are_one_based_positions() {
    let mut logs = Logs::new();
    let input = lines(&["%%%", "GET /a 5ms", "&&&"]);
    let report = logs.read_and_parse_log(&input).unwrap();
    assert_eq!(report.warning_count(), 2);
    assert_eq!(report.warnings[0].line_number, 1);
    assert_eq!(report.warnings[1].line_number, 3);
    assert_eq!(logs.entries.len(), 1);
}

#[test]
fn ingestion_appends_in_line_order() {
    let mut logs = Logs::new();
    let input = lines(&["GET /first 1ms", "GET /second 2ms"]);
    logs.read_and_parse_log(&input).unwrap();
    assert_eq!(logs.entries[0].endpoint.as_deref(), Some("/first"));
    assert_eq!(logs.entries[1].endpoint.as_deref(), Some("/second"));
}

#[test]
fn empty_input_fails_with_empty_log_condition() {
    let mut logs = Logs::new();
    let err = logs.read_and_parse_log(&Vec::new()).unwrap_err();
    assert!(matches!(err, AnalyzerError::EmptyLogFile));
    assert_eq!(err.message(), "No log entries found in file");
}

#[test]
fn all_blank_input_fails_with_empty_log_condition() {
    let mut logs = Logs::new();
    let input = lines(&["", "   ", "\t"]);
    let err = logs.read_and_parse_log(&input).unwrap_err();
    assert!(matches!(err, AnalyzerError::EmptyLogFile));
    assert_eq!(logs.entries.len(), 0);
}

#[test]
fn all_failing_input_fails_with_empty_log_condition() {
    let mut logs = Logs::new();
    let input = lines(&["!!!", "???"]);
    let err = logs.read_and_parse_log(&input).unwrap_err();
    assert!(matches!(err, AnalyzerError::EmptyLogFile));
    assert_eq!(logs.entries.len(), 0);
}

#[test]
fn a_debug_only_line_counts_as_a_warning() {
    // DEBUG is recognized by the vocabulary but not representable, and
    // nothing else on the line matches: no usable structure was found.
    let mut logs = Logs::new();
    let input = lines(&["DEBUG booting", "GET /a 5ms"]);
    let report = logs.read_and_parse_log(&input).unwrap();
    assert_eq!(report.warning_count(), 1);
    assert_eq!(report.warnings[0].line_number, 1);
    assert_eq!(logs.entries.len(), 1);
}

#[test]
fn partially_structured_line_is_a_record_not_a_warning() {
    // a bad IP octet degrades that one field, never the whole line
    let mut logs = Logs::new();
    let input = lines(&["999.1.2.3 GET /a 5ms"]);
    let report = logs.read_and_parse_log(&input).unwrap();
    assert_eq!(report.warning_count(), 0);
    assert_eq!(logs.entries.len(), 1);
    assert_eq!(logs.entries[0].ip_address, None);
    assert_eq!(logs.entries[0].endpoint.as_deref(), Some("/a"));
}

#[test]
fn ingestion_keeps_what_was_already_there() {
    let mut logs = Logs::new();
    logs.read_and_parse_log(&lines(&["GET /a 1ms"])).unwrap();
    logs.read_and_parse_log(&lines(&["GET /b 2ms"])).unwrap();
    assert_eq!(logs.entries.len(), 2);
    assert_eq!(logs.entries[0].endpoint.as_deref(), Some("/a"));
    assert_eq!(logs.entries[1].endpoint.as_deref(), Some("/b"));
}
