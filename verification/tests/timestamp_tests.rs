use chrono::{NaiveDateTime, TimeZone};
use insearch::timestamp::TimestampParser;

/// Local epoch for a naive `YYYY-MM-DD HH:MM:SS`, for zone-independent asserts.
fn le(s: &str) -> i64 {
    let n = NaiveDateTime::parse_from_str(s, "%Y-%m-%d %H:%M:%S").unwrap();
    chrono::Local
        .from_local_datetime(&n)
        .single()
        .map(|dt| dt.timestamp())
        .unwrap_or_else(|| n.and_utc().timestamp())
}

#[test]
fn parses_iso_bracketed_and_plain() {
    let p = TimestampParser::default();
    assert_eq!(p.parse_leading("2026-08-22 10:30:00 msg"), Some(le("2026-08-22 10:30:00")));
    assert_eq!(p.parse_leading("[2026-08-22T10:30:00] msg"), Some(le("2026-08-22 10:30:00")));
    // trailing fractional/zone after seconds is ignored (prefix match).
    assert_eq!(p.parse_leading("2026-08-22T10:30:00.123Z x"), Some(le("2026-08-22 10:30:00")));
}

#[test]
fn parses_us_date() {
    let p = TimestampParser::default();
    assert_eq!(p.parse_leading("08/22/2026 10:30:00 x"), Some(le("2026-08-22 10:30:00")));
}

#[test]
fn parses_epoch_seconds_and_millis() {
    let p = TimestampParser::default();
    assert_eq!(p.parse_leading("1755856200 evt"), Some(1_755_856_200));
    assert_eq!(p.parse_leading("1755856200123 evt"), Some(1_755_856_200));
    assert_eq!(p.parse_leading("[1755856200] evt"), Some(1_755_856_200));
}

#[test]
fn syslog_parses_to_something_and_undated_is_none() {
    let p = TimestampParser::default();
    assert!(p.parse_leading("Aug 22 10:30:00 host daemon: msg").is_some());
    assert_eq!(p.parse_leading("    indented continuation line"), None);
    assert_eq!(p.parse_leading("no timestamp here"), None);
}

#[test]
fn syslog_uses_the_assumed_year_and_invalid_dates_fail() {
    let p = TimestampParser::with_year(2024);
    assert_eq!(p.parse_leading("Feb 29 12:00:00 leap"), Some(le("2024-02-29 12:00:00")));
    assert_eq!(p.parse_leading("Feb  3 01:02:03 pad"), Some(le("2024-02-03 01:02:03")));
    let q = TimestampParser::with_year(2023);
    assert_eq!(q.parse_leading("Feb 29 12:00:00 not leap"), None);
    assert_eq!(q.parse_leading("2026-13-01 00:00:00 bad month"), None);
    assert_eq!(q.parse_leading("  \t1000000000000 ms"), Some(1_000_000_000));
}

#[test]
fn zone_less_time_lies_within_a_day_of_its_wall_clock_reading() {
    let p = TimestampParser::with_year(2026);
    let wall: i64 = 1_787_212_801; // 2026-08-20 08:00:01 read as UTC
    let t = p.parse_leading("2026-08-20 08:00:01 started").unwrap();
    assert!(wall - 86_400 < t && t < wall + 86_400);
    let t = p.parse_leading("Aug 20 08:00:01 host sshd").unwrap();
    assert!(wall - 86_400 < t && t < wall + 86_400);
}
