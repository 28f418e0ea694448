use loggaliza::{AnalyzerError, LogStats, Logs};

#[test]
fn empty_snapshot_exports_exactly() {
    let stats = LogStats::new();
    assert_eq!(
        stats.to_json(),
        "{\"total_requests\":0,\"error_count\":0,\"warning_count\":0,\"info_count\":0,\
         \"avg_response_time\":null,\"endpoint_frequency\":{},\"errors_by_endpoint\":{},\
         \"slowest_requests\":[]}"
    );
}

#[test]
fn export_parses_back_and_counts_reconcile() {
    let mut logs = Logs::new();
    let lines: Vec<String> = [
        "2024-01-15 10:30:45 INFO 10.0.0.1 GET /a 200 100ms ok",
        "ERROR POST /b 500 300ms boom",
        "plain note GET /a 7ms",
    ]
    .iter()
    .map(|s| s.to_string())
    .collect();
    logs.read_and_parse_log(&lines).unwrap();
    let stats = LogStats::from_entries(&logs.entries);
    let text = stats.to_json();
    let value: serde_json::Value = serde_json::from_str(&text).unwrap();

    let total = value["total_requests"].as_u64().unwrap();
    let info = value["info_count"].as_u64().unwrap();
    let warning = value["warning_count"].as_u64().unwrap();
    let error = value["error_count"].as_u64().unwrap();
    assert_eq!(total, 3);
    assert_eq!(info, 1);
    assert_eq!(error, 1);
    assert!(info + warning + error <= total);

    assert_eq!(value["endpoint_frequency"]["/a"].as_u64().unwrap(), 2);
    assert_eq!(value["endpoint_frequency"]["/b"].as_u64().unwrap(), 1);
    assert_eq!(value["errors_by_endpoint"]["/b"].as_u64().unwrap(), 1);

    let slowest = value["slowest_requests"].as_array().unwrap();
    assert_eq!(slowest.len(), 3);
    assert_eq!(slowest[0]["endpoint"].as_str().unwrap(), "/b");
    assert_eq!(slowest[0]["response_time"].as_f64().unwrap(), 300.0);
    assert_eq!(slowest[2]["response_time"].as_f64().unwrap(), 7.0);

    // mean over the full record count: (100 + 300 + 7) / 3, truncated to
    // thousandths
    let avg = value["avg_response_time"].as_f64().unwrap();
    assert!((avg - 135.666).abs() < 0.001);
}

#[test]
fn export_escapes_endpoint_text() {
    let mut logs = Logs::new();
    let lines: Vec<String> = ["GET /a\\b 5ms"].iter().map(|s| s.to_string()).collect();
    logs.read_and_parse_log(&lines).unwrap();
    let stats = LogStats::from_entries(&logs.entries);
    let text = stats.to_json();
    let value: serde_json::Value = serde_json::from_str(&text).unwrap();
    assert_eq!(value["endpoint_frequency"]["/a\\b"].as_u64().unwrap(), 1);
}

#[test]
fn export_escapes_control_characters_in_messages() {
    let mut logs = Logs::new();
    let lines: Vec<String> = ["GET /a 5ms x\u{1}y"].iter().map(|s| s.to_string()).collect();
    logs.read_and_parse_log(&lines).unwrap();
    let stats = LogStats::from_entries(&logs.entries);
    let text = stats.to_json();
    assert!(text.contains("\\u0001"));
    let value: serde_json::Value = serde_json::from_str(&text).unwrap();
    let slowest = value["slowest_requests"].as_array().unwrap();
    assert_eq!(slowest[0]["message"].as_str().unwrap(), "x\u{1}y");
}

#[test]
fn error_messages_read_as_reported() {
    let e = AnalyzerError::ParseError { line_number: 7, message: "bad".to_string() };
    assert_eq!(e.message(), "Failed to parse log entry at line 7: bad");
    let io = AnalyzerError::IoError("gone".to_string());
    assert_eq!(io.message(), "Failed to read file: gone");
}
