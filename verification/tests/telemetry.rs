use fastfind::telemetry::{
    generation, human_message, millis_from_parts, nanos_from_parts, now_ms, push_decimal,
    push_signed_decimal, SCHEMA_VERSION,
};
use fastfind::{EventSink, OutputMode, TelemetryEvent};

#[test]
fn sinks_keep_their_mode() {
    assert_eq!(EventSink::new(OutputMode::Json).mode(), OutputMode::Json);
    assert_eq!(EventSink::new(OutputMode::Silent).mode(), OutputMode::Silent);
    assert_eq!(EventSink::new(OutputMode::Human).mode(), OutputMode::Human);
    assert_eq!(SCHEMA_VERSION, 1);
}

#[test]
fn human_lines_match_each_event() {
    let health = TelemetryEvent::HealthChanged { schema_version: 1, timestamp_ms: 0, state: "degraded", reason: Some("scan_errors") };
    assert_eq!(human_message(&health), "health: degraded (scan_errors)");
    let live = TelemetryEvent::HealthChanged { schema_version: 1, timestamp_ms: 0, state: "live", reason: None };
    assert_eq!(human_message(&live), "health: live");
    let started = TelemetryEvent::ScanStarted { schema_version: 1, timestamp_ms: 0, root_id: -12 };
    assert_eq!(human_message(&started), "indexing root -12...");
    let progress = TelemetryEvent::ScanProgress {
        schema_version: 1,
        timestamp_ms: 0,
        root_id: 1,
        entries_seen: 1500,
        errors: 2,
        elapsed_ms: 300,
        entries_per_second: 5000,
    };
    assert_eq!(human_message(&progress), "indexed 1500 entries (5000/s, 2 errors)");
    let done = TelemetryEvent::ScanCompleted {
        schema_version: 1,
        timestamp_ms: 0,
        root_id: 1,
        entries_seen: 4,
        removed_entries: 1,
        errors: 0,
        elapsed_ms: 30,
        synchronized: true,
    };
    assert_eq!(human_message(&done), "scan complete: 4 entries, 1 removed, 0 errors, 30 ms, synchronized=true");
    let query = TelemetryEvent::QueryCompleted { schema_version: 1, timestamp_ms: 0, query_length: 3, result_count: 7, elapsed_ms: 0 };
    assert_eq!(human_message(&query), "query: 7 results in 0 ms");
}

#[test]
fn decimal_digits_are_appended() {
    let mut s = String::from("n=");
    push_decimal(&mut s, 0);
    push_decimal(&mut s, 18446744073709551615);
    assert_eq!(s, "n=018446744073709551615");
    let mut t = String::new();
    push_signed_decimal(&mut t, i64::MIN);
    assert_eq!(t, "-9223372036854775808");
}

#[test]
fn clock_parts_convert_to_milliseconds_and_nanoseconds() {
    assert_eq!(millis_from_parts(2, 999_999_999), 2999);
    assert_eq!(millis_from_parts(0, 0), 0);
    assert_eq!(nanos_from_parts(2, 5), 2_000_000_005);
    assert_eq!(nanos_from_parts(u64::MAX, 0), i64::MAX);
    assert!(now_ms() > 1_600_000_000_000);
    assert!(generation() > 1_600_000_000_000_000_000);
}
