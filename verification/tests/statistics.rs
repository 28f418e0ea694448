use loggaliza::{CountMap, LogEntry, LogLevel, LogMethod, LogStats, Logs, RateBand};

fn entry(level: Option<LogLevel>, endpoint: Option<&str>, rt: Option<u64>) -> LogEntry {
    LogEntry {
        timestamp: None,
        level,
        ip_address: None,
        method: Some(LogMethod::Get),
        endpoint: endpoint.map(|s| s.to_string()),
        status_code: None,
        response_time: rt,
        message: None,
    }
}

#[test]
fn level_buckets_and_total() {
    let entries = vec![
        entry(Some(LogLevel::Info), None, None),
        entry(Some(LogLevel::Warning), None, None),
        entry(Some(LogLevel::Error), None, None),
        entry(Some(LogLevel::Error), None, None),
        entry(None, None, None),
    ];
    let stats = LogStats::from_entries(&entries);
    assert_eq!(stats.total_requests, 5);
    assert_eq!(stats.info_count, 1);
    assert_eq!(stats.warning_count, 1);
    assert_eq!(stats.error_count, 2);
    // a record without a level counts toward the total and no bucket
    assert!(stats.info_count + stats.warning_count + stats.error_count <= stats.total_requests);
}

#[test]
fn average_divides_by_the_total_record_count() {
    // response times 100 and 300 with one record carrying none: the mean
    // dilutes toward zero, (100 + 300) / 3, not (100 + 300) / 2
    let entries = vec![
        entry(None, None, Some(100_000)),
        entry(None, None, None),
        entry(None, None, Some(300_000)),
    ];
    let stats = LogStats::from_entries(&entries);
    assert_eq!(stats.response_time_sum, 400_000);
    assert_eq!(stats.total_requests, 3);
    assert_eq!(stats.avg_response_time_thousandths(), 133_333);
    let as_float = stats.response_time_sum as f64 / 1000.0 / stats.total_requests as f64;
    assert!((as_float - 133.3333).abs() < 0.001);
}

#[test]
fn slowest_requests_sort_descending_with_absent_times_last() {
    let entries = vec![
        entry(None, Some("/a"), Some(50_000)),
        entry(None, Some("/b"), None),
        entry(None, Some("/c"), Some(200_000)),
        entry(None, Some("/d"), Some(100_000)),
    ];
    let stats = LogStats::from_entries(&entries);
    let rts: Vec<Option<u64>> = stats.slowest_requests.iter().map(|e| e.response_time).collect();
    assert_eq!(
        rts,
        vec![Some(200_000), Some(100_000), Some(50_000), None]
    );
}

#[test]
fn endpoint_frequency_counts_occurrences() {
    let mut logs = Logs::new();
    let lines: Vec<String> = ["GET /a 1ms", "GET /a 2ms", "POST /b 3ms"]
        .iter()
        .map(|s| s.to_string())
        .collect();
    logs.read_and_parse_log(&lines).unwrap();
    let stats = LogStats::from_entries(&logs.entries);
    assert_eq!(stats.endpoint_frequency.get("/a"), 2);
    assert_eq!(stats.endpoint_frequency.get("/b"), 1);
    assert_eq!(stats.endpoint_frequency.get("/c"), 0);
    assert_eq!(stats.endpoint_frequency.len(), 2);
}

#[test]
fn errors_by_endpoint_counts_only_error_records() {
    let entries = vec![
        entry(Some(LogLevel::Error), Some("/x"), None),
        entry(Some(LogLevel::Info), Some("/x"), None),
        entry(Some(LogLevel::Error), Some("/y"), None),
        entry(Some(LogLevel::Error), None, None),
    ];
    let stats = LogStats::from_entries(&entries);
    assert_eq!(stats.errors_by_endpoint.get("/x"), 1);
    assert_eq!(stats.errors_by_endpoint.get("/y"), 1);
    assert_eq!(stats.endpoint_frequency.get("/x"), 2);
    assert_eq!(stats.error_count, 3);
}

#[test]
fn empty_snapshot_is_all_zero() {
    let stats = LogStats::new();
    assert_eq!(stats.total_requests, 0);
    assert_eq!(stats.response_time_sum, 0);
    assert_eq!(stats.avg_response_time_thousandths(), 0);
    assert_eq!(stats.slowest_requests.len(), 0);
}

#[test]
fn percentiles_index_the_ascending_sample() {
    // ascending sample: 50, 100, 200, 300 (thousandths scaled)
    let entries = vec![
        entry(None, None, Some(300_000)),
        entry(None, None, Some(50_000)),
        entry(None, None, None),
        entry(None, None, Some(100_000)),
        entry(None, None, Some(200_000)),
    ];
    let stats = LogStats::from_entries(&entries);
    // rank floor(4 * 50 / 100) = 2 of [50, 100, 200, 300]
    assert_eq!(stats.percentile(50), Some(200_000));
    // rank floor(4 * 95 / 100) = 3
    assert_eq!(stats.percentile(95), Some(300_000));
    assert_eq!(stats.percentile(0), Some(50_000));
    // rank 100 clamps into the sample
    assert_eq!(stats.percentile(100), Some(300_000));
}

#[test]
fn percentile_of_a_single_sample_is_that_sample() {
    let entries = vec![entry(None, None, Some(42_000))];
    let stats = LogStats::from_entries(&entries);
    assert_eq!(stats.percentile(50), Some(42_000));
    assert_eq!(stats.percentile(99), Some(42_000));
}

#[test]
fn percentile_of_an_empty_sample_is_absent() {
    let entries = vec![entry(None, None, None)];
    let stats = LogStats::from_entries(&entries);
    assert_eq!(stats.percentile(50), None);
    let empty = LogStats::new();
    assert_eq!(empty.percentile(50), None);
}

#[test]
fn error_rate_banding_uses_exact_thresholds() {
    let mut stats = LogStats::new();
    stats.total_requests = 100;
    stats.error_count = 6;
    assert_eq!(stats.error_rate_band(), RateBand::High);
    stats.error_count = 5;
    assert_eq!(stats.error_rate_band(), RateBand::Moderate);
    stats.error_count = 2;
    assert_eq!(stats.error_rate_band(), RateBand::Moderate);
    stats.error_count = 1;
    assert_eq!(stats.error_rate_band(), RateBand::Normal);
    stats.error_count = 0;
    assert_eq!(stats.error_rate_band(), RateBand::Normal);
}

#[test]
fn bar_width_is_proportional() {
    assert_eq!(LogStats::bar_width(5, 10), 15);
    assert_eq!(LogStats::bar_width(10, 10), 30);
    assert_eq!(LogStats::bar_width(0, 10), 0);
    assert_eq!(LogStats::bar_width(1, 3), 10);
}

#[test]
fn truncate_endpoint_marks_the_cut() {
    assert_eq!(loggaliza::stats::truncate_endpoint("/short", 40), "/short");
    assert_eq!(loggaliza::stats::truncate_endpoint("abcdefghij", 8), "abcde...");
    assert_eq!(loggaliza::stats::truncate_endpoint("abcdefgh", 8), "abcdefgh");
}

#[test]
fn sorted_by_count_ranks_largest_first() {
    let mut m = CountMap::new();
    m.increment("/a");
    m.increment("/b");
    m.increment("/b");
    m.increment("/b");
    m.increment("/c");
    m.increment("/c");
    let ranked = m.sorted_by_count();
    assert_eq!(ranked.len(), 3);
    assert_eq!(ranked[0], ("/b".to_string(), 3));
    assert_eq!(ranked[1], ("/c".to_string(), 2));
    assert_eq!(ranked[2], ("/a".to_string(), 1));
}

#[test]
fn count_map_counts_independently() {
    let mut m = CountMap::new();
    m.increment("a");
    m.increment("b");
    m.increment("a");
    assert_eq!(m.get("a"), 2);
    assert_eq!(m.get("b"), 1);
    assert_eq!(m.get("c"), 0);
    assert_eq!(m.len(), 2);
}
