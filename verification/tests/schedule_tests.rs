use std::time::Duration;

use chrono::{DateTime, Datelike, NaiveTime, TimeZone, Timelike, Utc, Weekday};
use chrono_tz::Tz;

use dualis_notifier::schedule::{
    duration_from_random, in_check_window, jittered, on_check_day, random_duration_up_to,
};

fn nanos(d: Duration) -> u128 {
    d.as_nanos()
}

#[test]
fn jitter_stays_within_twenty_percent() {
    let base = Duration::from_secs(15 * 60);
    let lower = base - base / 5;
    let upper = base + base / 5;

    for _ in 0..1000 {
        let jittered = jittered(nanos(base));
        assert!(
            jittered >= nanos(lower) && jittered <= nanos(upper),
            "{jittered:?} outside [{lower:?}, {upper:?}]"
        );
    }
}

#[test]
fn random_duration_up_to_zero_is_zero() {
    assert_eq!(random_duration_up_to(nanos(Duration::ZERO)), 0);
}

#[test]
fn random_duration_up_to_respects_bound() {
    let max = Duration::from_secs(60);
    for _ in 0..1000 {
        assert!(random_duration_up_to(nanos(max)) <= nanos(max));
    }
}

#[test]
fn random_pick_is_a_remainder() {
    assert_eq!(duration_from_random(17, 0), 0);
    assert_eq!(duration_from_random(17, 5), 5);
    assert_eq!(duration_from_random(18, 5), 0);
    assert_eq!(duration_from_random(u64::MAX, 10), u64::MAX as u128 % 11);
    // Only the low 64 bits of the bound count.
    assert_eq!(duration_from_random(7, (1u128 << 64) + 3), 3);
}

/// The local time of day in `timezone`, as seconds since midnight and nanoseconds.
fn local_time(now: DateTime<Utc>, timezone: Tz) -> (u32, u32) {
    let local = now.with_timezone(&timezone);
    (local.num_seconds_from_midnight(), local.nanosecond())
}

/// The local weekday in `timezone`, counted from Monday.
fn local_day(now: DateTime<Utc>, timezone: Tz) -> u32 {
    now.with_timezone(&timezone).weekday().num_days_from_monday()
}

fn time_of(t: NaiveTime) -> (u32, u32) {
    (t.num_seconds_from_midnight(), t.nanosecond())
}

fn window(start: (u32, u32), end: (u32, u32)) -> Option<((u32, u32), (u32, u32))> {
    Some((
        time_of(NaiveTime::from_hms_opt(start.0, start.1, 0).unwrap()),
        time_of(NaiveTime::from_hms_opt(end.0, end.1, 0).unwrap()),
    ))
}

fn days(first: Weekday, last: Weekday) -> Option<(u32, u32)> {
    Some((first.num_days_from_monday(), last.num_days_from_monday()))
}

fn in_window(window: Option<((u32, u32), (u32, u32))>, timezone: Tz, now: DateTime<Utc>) -> bool {
    in_check_window(window, local_time(now, timezone))
}

fn on_day(days: Option<(u32, u32)>, timezone: Tz, now: DateTime<Utc>) -> bool {
    on_check_day(days, local_day(now, timezone))
}

fn berlin_at(hour: u32, minute: u32) -> DateTime<Utc> {
    berlin_on(15, hour, minute)
}

/// A day in July 2026: the 15th is a Wednesday, the 17th a Friday, the
/// 18th a Saturday, the 19th a Sunday and the 20th a Monday.
fn berlin_on(day: u32, hour: u32, minute: u32) -> DateTime<Utc> {
    // A fixed summer date (CEST, UTC+2) so the offset is predictable.
    Tz::Europe__Berlin
        .with_ymd_and_hms(2026, 7, day, hour, minute, 0)
        .unwrap()
        .with_timezone(&Utc)
}

#[test]
fn no_window_always_checks() {
    assert!(in_window(None, Tz::UTC, berlin_at(3, 0)));
}

#[test]
fn daytime_window_excludes_night() {
    let window = window((6, 0), (18, 0));

    assert!(in_window(window, Tz::Europe__Berlin, berlin_at(6, 0)));
    assert!(in_window(window, Tz::Europe__Berlin, berlin_at(17, 59)));
    assert!(!in_window(window, Tz::Europe__Berlin, berlin_at(18, 0)));
    assert!(!in_window(window, Tz::Europe__Berlin, berlin_at(3, 0)));
}

#[test]
fn overnight_window_wraps_midnight() {
    let window = window((22, 0), (6, 0));

    assert!(in_window(window, Tz::Europe__Berlin, berlin_at(23, 0)));
    assert!(in_window(window, Tz::Europe__Berlin, berlin_at(1, 0)));
    assert!(!in_window(window, Tz::Europe__Berlin, berlin_at(12, 0)));
}

#[test]
fn no_days_always_checks() {
    assert!(on_day(None, Tz::UTC, berlin_on(19, 12, 0)));
}

#[test]
fn weekdays_exclude_weekend() {
    let days = days(Weekday::Mon, Weekday::Fri);

    assert!(on_day(days, Tz::Europe__Berlin, berlin_on(17, 12, 0)));
    assert!(on_day(days, Tz::Europe__Berlin, berlin_on(20, 12, 0)));
    assert!(!on_day(days, Tz::Europe__Berlin, berlin_on(18, 12, 0)));
    assert!(!on_day(days, Tz::Europe__Berlin, berlin_on(19, 12, 0)));
}

#[test]
fn day_range_wraps_past_sunday() {
    let days = days(Weekday::Fri, Weekday::Mon);

    assert!(on_day(days, Tz::Europe__Berlin, berlin_on(18, 12, 0)));
    assert!(on_day(days, Tz::Europe__Berlin, berlin_on(20, 12, 0)));
    assert!(!on_day(days, Tz::Europe__Berlin, berlin_on(15, 12, 0)));
}

#[test]
fn weekday_uses_configured_timezone() {
    let days = days(Weekday::Mon, Weekday::Fri);
    // Saturday 00:30 in Berlin is still Friday 22:30 in UTC.
    let saturday_night = berlin_on(18, 0, 30);

    assert!(!on_day(days, Tz::Europe__Berlin, saturday_night));
    assert!(on_day(days, Tz::UTC, saturday_night));
}

#[test]
fn window_bounds_compare_nanoseconds() {
    let at = |seconds: u32, nanos: u32| (seconds, nanos);
    let window = Some((at(6 * 3600, 0), at(6 * 3600, 0)));
    // An empty window never checks.
    assert!(!in_check_window(window, at(6 * 3600, 0)));
    assert!(!in_check_window(window, at(6 * 3600, 1)));
    let window = Some((at(60, 5), at(120, 0)));
    assert!(!in_check_window(window, at(60, 4)));
    assert!(in_check_window(window, at(60, 5)));
    assert!(in_check_window(window, at(119, 999_999_999)));
}
