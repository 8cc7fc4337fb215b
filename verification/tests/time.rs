use uptime_kuma_rs::time::{
    days_before, fmt_time, parse_kuma_time, parse_stored_time, seconds_between, Timestamp,
    MAX_UTC_SECS, MIN_UTC_SECS, YEAR_0_SECS, YEAR_10000_SECS,
};

#[test]
fn chrono_range_bounds() {
    assert_eq!(chrono::DateTime::<chrono::Utc>::MIN_UTC.timestamp(), MIN_UTC_SECS);
    assert_eq!(chrono::DateTime::<chrono::Utc>::MAX_UTC.timestamp(), MAX_UTC_SECS);
    assert!(Timestamp::new(MIN_UTC_SECS, 0).is_some());
    assert!(Timestamp::new(MIN_UTC_SECS - 1, 0).is_none());
    assert!(Timestamp::new(MAX_UTC_SECS, 999_999_999).is_some());
    assert!(Timestamp::new(MAX_UTC_SECS + 1, 0).is_none());
    // leap seconds only on a :59 second
    assert!(Timestamp::new(59, 1_500_000_000).is_some());
    assert!(Timestamp::new(58, 1_500_000_000).is_none());
    assert!(Timestamp::new(-1, 1_000_000_000).is_some());
    assert!(Timestamp::new(59, 2_000_000_000).is_none());
    for (secs, nanos) in [(59i64, 1_500_000_000u32), (-1, 1_000_000_000), (58, 1_500_000_000), (0, 0)] {
        assert_eq!(
            Timestamp::new(secs, nanos).is_some(),
            chrono::DateTime::from_timestamp(secs, nanos).is_some()
        );
    }
}

#[test]
fn stored_time_is_fixed_width_and_parses_back() {
    let t = parse_kuma_time("2026-06-28 15:59:49.191").unwrap();
    let s = fmt_time(t);
    assert_eq!(s, "2026-06-28T15:59:49.191Z");
    assert_eq!(parse_stored_time(&s).unwrap(), t);
    let early = Timestamp::new(0, 5_000_000).unwrap();
    assert_eq!(fmt_time(early), "1970-01-01T00:00:00.005Z");
    assert!(fmt_time(early) < s);
}

#[test]
fn stored_time_with_offset_is_taken_to_utc() {
    let t = parse_stored_time("2026-06-28T17:59:49+02:00").unwrap();
    assert_eq!(fmt_time(t), "2026-06-28T15:59:49.000Z");
    assert!(parse_stored_time("2026-06-28 15:59:49").is_err());
}

#[test]
fn seconds_between_rounds_toward_zero() {
    let a = Timestamp::new(100, 900_000_000).unwrap();
    let b = Timestamp::new(90, 0).unwrap();
    assert_eq!(seconds_between(a, b), 10);
    assert_eq!(seconds_between(b, a), -10);
    let c = Timestamp::new(90, 500_000_000).unwrap();
    assert_eq!(seconds_between(b, c), 0);
}

#[test]
fn leap_second_arithmetic_follows_chrono() {
    let leap = Timestamp::new(86_399, 1_500_000_000).unwrap();
    let next = Timestamp::new(86_400, 0).unwrap();
    let before = Timestamp::new(86_398, 0).unwrap();
    let l = chrono::DateTime::from_timestamp(86_399, 1_500_000_000).unwrap();
    let n = chrono::DateTime::from_timestamp(86_400, 0).unwrap();
    let b = chrono::DateTime::from_timestamp(86_398, 0).unwrap();
    assert_eq!(seconds_between(next, leap), (n - l).num_seconds());
    assert_eq!(seconds_between(leap, before), (l - b).num_seconds());
    assert_eq!(seconds_between(leap, next), (l - n).num_seconds());
    let back = days_before(leap, 1).unwrap();
    let expected = l - chrono::TimeDelta::days(1);
    assert_eq!((back.secs, back.nanos), (expected.timestamp(), expected.timestamp_subsec_nanos()));
    assert_eq!((back.secs, back.nanos), (0, 500_000_000));
    assert_eq!(days_before(leap, 0), Some(leap));
}

#[test]
fn ordering_is_chronological() {
    let a = Timestamp::new(10, 5).unwrap();
    let b = Timestamp::new(10, 6).unwrap();
    let c = Timestamp::new(11, 0).unwrap();
    assert!(a.is_before(&b) && b.is_before(&c) && !c.is_before(&a) && !a.is_before(&a));
}

#[test]
fn four_digit_year_bounds() {
    let first = Timestamp::new(YEAR_0_SECS, 0).unwrap();
    assert_eq!(fmt_time(first), "0000-01-01T00:00:00.000Z");
    let last = Timestamp::new(YEAR_10000_SECS - 1, 999_999_999).unwrap();
    assert_eq!(fmt_time(last), "9999-12-31T23:59:59.999Z");
    assert_eq!(parse_stored_time(&fmt_time(first)).unwrap(), first);
    assert!(fmt_time(first) < fmt_time(last));
    let past = Timestamp::new(YEAR_10000_SECS, 0).unwrap();
    assert!(fmt_time(past).starts_with('+'));
}

#[test]
fn stored_text_sorts_chronologically_to_the_millisecond() {
    let times = [
        Timestamp::new(-1, 999_999_999).unwrap(),
        Timestamp::new(0, 0).unwrap(),
        Timestamp::new(0, 1_000_000).unwrap(),
        Timestamp::new(59, 999_000_000).unwrap(),
        // a leap second renders as second 60
        Timestamp::new(59, 1_000_000_000).unwrap(),
        Timestamp::new(59, 1_999_999_999).unwrap(),
        Timestamp::new(60, 0).unwrap(),
        Timestamp::new(86_400 * 365, 0).unwrap(),
    ];
    for i in 0..times.len() {
        for j in (i + 1)..times.len() {
            assert!(fmt_time(times[i]) < fmt_time(times[j]), "{i} {j}");
        }
    }
    assert_eq!(fmt_time(times[4]), "1970-01-01T00:00:60.000Z");
    // same millisecond, same text
    let a = Timestamp::new(60, 7_000_001).unwrap();
    let b = Timestamp::new(60, 7_999_999).unwrap();
    assert_eq!(fmt_time(a), fmt_time(b));
}

#[test]
fn stored_text_reads_back_to_the_millisecond() {
    for (secs, nanos) in [(59i64, 1_234_567_891u32), (1_782_662_389, 191_999_999), (-86_400, 1)] {
        let t = Timestamp::new(secs, nanos).unwrap();
        let back = parse_stored_time(&fmt_time(t)).unwrap();
        assert_eq!((back.secs, back.nanos), (secs, nanos / 1_000_000 * 1_000_000));
    }
}
