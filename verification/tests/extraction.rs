use loggaliza::{IpAddress, LogEntry, LogLevel, LogMethod};

#[test]
fn full_line_populates_every_field() {
    let e = LogEntry::parse_log("2024-01-15 10:30:45 INFO 192.168.1.10 GET /api/users 200 15.5ms request handled");
    assert_eq!(e.timestamp.as_deref(), Some("2024-01-15 10:30:45"));
    assert_eq!(e.level, Some(LogLevel::Info));
    assert_eq!(e.ip_address, Some(IpAddress { a: 192, b: 168, c: 1, d: 10 }));
    assert_eq!(e.method, Some(LogMethod::Get));
    assert_eq!(e.endpoint.as_deref(), Some("/api/users"));
    assert_eq!(e.status_code, Some(200));
    assert_eq!(e.response_time, Some(15_500));
    assert_eq!(e.message.as_deref(), Some("request handled"));
}

#[test]
fn bracketed_timestamp_is_kept_with_brackets() {
    let e = LogEntry::parse_log("[15/Jan/2024:10:30:45 +0000] ERROR oops");
    assert_eq!(e.timestamp.as_deref(), Some("[15/Jan/2024:10:30:45 +0000]"));
    assert_eq!(e.level, Some(LogLevel::Error));
}

#[test]
fn iso_timestamp_takes_fraction_and_zone_greedily() {
    let e = LogEntry::parse_log("2024-01-15 10:30:45.123Z WARNING w");
    assert_eq!(e.timestamp.as_deref(), Some("2024-01-15 10:30:45.123Z"));
    assert_eq!(e.level, Some(LogLevel::Warning));
}

#[test]
fn first_level_token_decides() {
    // DEBUG comes first and is not representable, so the level is absent
    // even though ERROR appears later.
    let e = LogEntry::parse_log("DEBUG then ERROR");
    assert_eq!(e.level, None);
    let e2 = LogEntry::parse_log("FATAL crash");
    assert_eq!(e2.level, None);
}

#[test]
fn method_needs_word_boundaries_but_endpoint_does_not() {
    // "BUDGET /x" hides "GET /x": the method pattern wants boundaries and
    // finds nothing, the endpoint pattern does not and matches.
    let e = LogEntry::parse_log("BUDGET /x 5ms");
    assert_eq!(e.method, None);
    assert_eq!(e.endpoint.as_deref(), Some("/x"));
    assert_eq!(e.response_time, Some(5_000));
}

#[test]
fn head_is_recognized_but_not_representable() {
    let e = LogEntry::parse_log("HEAD /health 404 9ms");
    assert_eq!(e.method, None);
    assert_eq!(e.endpoint.as_deref(), Some("/health"));
    assert_eq!(e.status_code, Some(404));
}

#[test]
fn method_without_following_path_yields_no_endpoint() {
    let e = LogEntry::parse_log("a GET  b");
    assert_eq!(e.method, Some(LogMethod::Get));
    // two spaces after GET: the endpoint pattern wants exactly one space
    // then path text.
    assert_eq!(e.endpoint, None);
}

#[test]
fn ip_octet_out_of_range_leaves_field_absent() {
    let e = LogEntry::parse_log("from 999.1.2.3 GET /a");
    assert_eq!(e.ip_address, None);
    let e2 = LogEntry::parse_log("from 01.2.3.4 GET /a");
    assert_eq!(e2.ip_address, None);
    let e3 = LogEntry::parse_log("from 255.0.0.1 GET /a");
    assert_eq!(e3.ip_address, Some(IpAddress { a: 255, b: 0, c: 0, d: 1 }));
}

#[test]
fn status_needs_whitespace_on_both_sides() {
    let e = LogEntry::parse_log("code 200");
    assert_eq!(e.status_code, None);
    let e2 = LogEntry::parse_log("port:8080 status 404 now");
    assert_eq!(e2.status_code, Some(404));
}

#[test]
fn response_time_unit_is_not_interpreted() {
    // "s" and "ms" carry the same numeric value.
    let e = LogEntry::parse_log("took 2s");
    assert_eq!(e.response_time, Some(2_000));
    let e2 = LogEntry::parse_log("took 2ms");
    assert_eq!(e2.response_time, Some(2_000));
}

#[test]
fn response_time_fraction_is_kept_to_three_digits() {
    let e = LogEntry::parse_log("took 1.2345ms");
    assert_eq!(e.response_time, Some(1_234));
}

#[test]
fn response_time_matches_a_word_starting_with_s() {
    // "500 server" reads as a latency token: the unit pattern accepts the
    // leading "s" of the following word.
    let e = LogEntry::parse_log("HTTP 500 server error");
    assert_eq!(e.response_time, Some(500_000));
    // the message anchor still wants whitespace after the unit, and
    // "server" continues with a word character, so no message is taken
    assert_eq!(e.message, None);
}

#[test]
fn message_requires_latency_anchor() {
    let e = LogEntry::parse_log("GET /a hello world");
    assert_eq!(e.message, None);
    let e2 = LogEntry::parse_log("GET /a 5ms hello world");
    assert_eq!(e2.message.as_deref(), Some("hello world"));
}

#[test]
fn wholly_unrecognizable_line_has_no_fields() {
    let e = LogEntry::parse_log("~~ !! ~~");
    assert_eq!(e.timestamp, None);
    assert_eq!(e.level, None);
    assert_eq!(e.ip_address, None);
    assert_eq!(e.method, None);
    assert_eq!(e.endpoint, None);
    assert_eq!(e.status_code, None);
    assert_eq!(e.response_time, None);
    assert_eq!(e.message, None);
}

#[test]
fn level_names_round_trip() {
    assert_eq!(LogLevel::from_str("INFO"), Ok(LogLevel::Info));
    assert_eq!(LogLevel::from_str("WARNING"), Ok(LogLevel::Warning));
    assert_eq!(LogLevel::from_str("ERROR"), Ok(LogLevel::Error));
    assert!(LogLevel::from_str("DEBUG").is_err());
    assert_eq!(LogLevel::Info.as_str(), "INFO");
    assert_eq!(LogLevel::Warning.as_str(), "WARNING");
    assert_eq!(LogLevel::Error.as_str(), "ERROR");
}

#[test]
fn method_names_round_trip() {
    assert_eq!(LogMethod::from_str("GET"), Ok(LogMethod::Get));
    assert_eq!(LogMethod::from_str("POST"), Ok(LogMethod::Post));
    assert_eq!(LogMethod::from_str("PATCH"), Ok(LogMethod::Patch));
    assert_eq!(LogMethod::from_str("PUT"), Ok(LogMethod::Put));
    assert_eq!(LogMethod::from_str("DELETE"), Ok(LogMethod::Delete));
    assert!(LogMethod::from_str("HEAD").is_err());
    assert_eq!(LogMethod::Get.as_str(), "GET");
    assert_eq!(LogMethod::Delete.as_str(), "DELETE");
}
