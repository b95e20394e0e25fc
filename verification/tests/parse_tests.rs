use minarrow::parse::{parse_iso8601_utc, parse_iso8601_utc_ns, TimeUnit};

// 2026-06-09T07:48:36Z is 1_780_991_316 seconds since the Unix epoch.
const EPOCH_SECONDS: i64 = 1_780_991_316;

#[test]
fn parses_kraken_microsecond_timestamp() {
    let ns = parse_iso8601_utc_ns("2026-06-09T07:48:36.123456Z").unwrap();
    assert_eq!(ns, EPOCH_SECONDS * 1_000_000_000 + 123_456_000);
}

#[test]
fn parses_whole_seconds_and_naive_as_utc() {
    assert_eq!(
        parse_iso8601_utc_ns("2026-06-09T07:48:36Z").unwrap(),
        EPOCH_SECONDS * 1_000_000_000,
    );
    // Missing offset reads as UTC; space separator accepted.
    assert_eq!(
        parse_iso8601_utc_ns("2026-06-09 07:48:36").unwrap(),
        EPOCH_SECONDS * 1_000_000_000,
    );
}

#[test]
fn applies_numeric_offsets() {
    // 17:48:36 at +10:00 is 07:48:36 UTC.
    assert_eq!(
        parse_iso8601_utc_ns("2026-06-09T17:48:36+10:00").unwrap(),
        EPOCH_SECONDS * 1_000_000_000,
    );
    // 02:18:36 at -05:30 is 07:48:36 UTC.
    assert_eq!(
        parse_iso8601_utc_ns("2026-06-09T02:18:36-05:30").unwrap(),
        EPOCH_SECONDS * 1_000_000_000,
    );
}

#[test]
fn truncates_fractional_digits_beyond_nanoseconds() {
    let ns = parse_iso8601_utc_ns("2026-06-09T07:48:36.1234567899Z").unwrap();
    assert_eq!(ns, EPOCH_SECONDS * 1_000_000_000 + 123_456_789);
}

#[test]
fn rejects_malformed_input() {
    for s in [
        "",
        "not a datetime",
        "2026-06-09",
        "2026-06-09T07:48",
        "2026-13-09T07:48:36Z",
        "2026-02-30T07:48:36Z",
        "2026-06-09T24:48:36Z",
        "2026-06-09T07:48:36.Z",
        "2026-06-09T07:48:36+10",
        "2026-06-09X07:48:36Z",
    ] {
        assert_eq!(parse_iso8601_utc_ns(s), None, "accepted: {s}");
    }
}

#[test]
fn scales_to_time_unit() {
    let s = "2026-06-09T07:48:36.123456Z";
    assert_eq!(parse_iso8601_utc(s, TimeUnit::Seconds).unwrap(), EPOCH_SECONDS);
    assert_eq!(
        parse_iso8601_utc(s, TimeUnit::Milliseconds).unwrap(),
        EPOCH_SECONDS * 1_000 + 123,
    );
    assert_eq!(
        parse_iso8601_utc(s, TimeUnit::Microseconds).unwrap(),
        EPOCH_SECONDS * 1_000_000 + 123_456,
    );
}

#[test]
fn leap_second_rolls_into_next_minute() {
    let a = parse_iso8601_utc_ns("2016-12-31T23:59:60Z").unwrap();
    let b = parse_iso8601_utc_ns("2017-01-01T00:00:00Z").unwrap();
    assert_eq!(a, b);
}

#[test]
fn pre_epoch_truncates_toward_zero() {
    // 1969-12-31T23:59:59.5 is -0.5 s; whole seconds truncate toward zero.
    let ns = parse_iso8601_utc_ns("1969-12-31T23:59:59.5Z").unwrap();
    assert_eq!(ns, -500_000_000);
    assert_eq!(parse_iso8601_utc("1969-12-31T23:59:59.5Z", TimeUnit::Seconds).unwrap(), 0);
    assert_eq!(parse_iso8601_utc("1969-12-31T00:00:00Z", TimeUnit::Days).unwrap(), -1);
}

#[test]
fn leap_day_accepted_only_in_leap_years() {
    assert!(parse_iso8601_utc_ns("2024-02-29T00:00:00Z").is_some());
    assert!(parse_iso8601_utc_ns("2023-02-29T00:00:00Z").is_none());
    assert!(parse_iso8601_utc_ns("1900-02-29T00:00:00Z").is_none());
    assert!(parse_iso8601_utc_ns("2000-02-29T00:00:00Z").is_some());
}

#[test]
fn out_of_range_instants_rejected() {
    assert!(parse_iso8601_utc_ns("2262-04-12T00:00:00Z").is_none());
    assert!(parse_iso8601_utc_ns("1677-09-21T00:00:00Z").is_none());
    assert!(parse_iso8601_utc_ns("2262-04-11T00:00:00Z").is_some());
}
