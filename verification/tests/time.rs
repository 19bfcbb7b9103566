use shitmail_jmap_filter::time::{Interval, Timestamp};

fn at(secs: i64, nanos: u32) -> Timestamp {
    Timestamp::new(secs, nanos).unwrap()
}

const DAY: i64 = 86_400;

#[test]
fn timestamps_have_the_range_of_chrono() {
    let first = chrono::DateTime::<chrono::Utc>::MIN_UTC.timestamp();
    let last = chrono::DateTime::<chrono::Utc>::MAX_UTC.timestamp();
    assert_eq!(first, -8_334_601_228_800);
    assert_eq!(last, 8_210_266_876_799);
    assert!(Timestamp::new(first, 0).is_some());
    assert!(Timestamp::new(first - 1, 0).is_none());
    assert!(Timestamp::new(last, 999_999_999).is_some());
    assert!(Timestamp::new(last + 1, 0).is_none());
    assert!(Timestamp::new(i64::MAX, 0).is_none());
    assert!(Timestamp::new(i64::MIN, 0).is_none());
}

#[test]
fn leap_seconds_stand_at_the_end_of_a_minute() {
    assert!(Timestamp::new(59, 1_500_000_000).is_some());
    assert!(Timestamp::new(58, 1_500_000_000).is_none());
    assert!(Timestamp::new(60, 1_000_000_000).is_none());
    assert!(Timestamp::new(-1, 1_000_000_000).is_some());
    assert!(Timestamp::new(59, 2_000_000_000).is_none());
    assert_eq!(at(59, 1_500_000_000).secs(), 59);
    assert_eq!(at(59, 1_500_000_000).nanos(), 1_500_000_000);
}

#[test]
fn order_is_by_seconds_and_nanoseconds() {
    assert!(at(5, 7).is_not_after(&at(5, 7)));
    assert!(at(5, 6).is_not_after(&at(5, 7)));
    assert!(!at(5, 7).is_not_after(&at(5, 6)));
    assert!(at(4, 999_999_999).is_not_after(&at(5, 0)));
    assert!(!at(5, 0).is_not_after(&at(4, 999_999_999)));
    assert!(at(-1, 0).is_not_after(&at(0, 0)));
}

#[test]
fn elapsed_time_matches_chrono() {
    let samples = [
        (0, 0),
        (59, 999_999_999),
        (59, 1_000_000_001),
        (119, 1_999_999_999),
        (60, 0),
        (-1, 1_250_000_000),
        (-86_401, 1),
        (1_700_000_000, 123_456_789),
        (1_700_000_039, 1_123_456_789),
        (-8_334_601_228_800, 0),
        (8_210_266_876_799, 999_999_999),
    ];
    for a in samples {
        for b in samples {
            let x = chrono::DateTime::from_timestamp(a.0, a.1).unwrap();
            let y = chrono::DateTime::from_timestamp(b.0, b.1).unwrap();
            let delta = x.signed_duration_since(y);
            let nanos = delta.num_seconds() as i128 * 1_000_000_000 + delta.subsec_nanos() as i128;
            assert_eq!(at(a.0, a.1).nanos_since(&at(b.0, b.1)), nanos, "{:?} {:?}", a, b);
            assert_eq!(at(a.0, a.1).days_since(&at(b.0, b.1)), delta.num_days(), "{:?} {:?}", a, b);
        }
    }
}

#[test]
fn days_are_rounded_toward_zero() {
    assert_eq!(at(DAY, 0).days_since(&at(0, 0)), 1);
    assert_eq!(at(DAY - 1, 999_999_999).days_since(&at(0, 0)), 0);
    assert_eq!(at(0, 0).days_since(&at(DAY - 1, 0)), 0);
    assert_eq!(at(0, 0).days_since(&at(DAY, 0)), -1);
    assert_eq!(at(365 * DAY, 0).days_since(&at(0, 1)), 364);
    assert_eq!(at(365 * DAY, 0).days_since(&at(0, 0)), 365);
}

#[test]
fn delay_moves_a_timestamp_on() {
    let t = at(10, 999_999_999).after(&Interval::new(5, 2).unwrap());
    assert_eq!((t.secs(), t.nanos()), (16, 1));
    let t = at(0, 0).after(&Interval::from_secs(900));
    assert_eq!((t.secs(), t.nanos()), (900, 0));
}

#[test]
fn delay_within_and_past_a_leap_second() {
    let leap = at(59, 1_300_000_000);
    let t = leap.after(&Interval::new(0, 500_000_000).unwrap());
    assert_eq!((t.secs(), t.nanos()), (59, 1_800_000_000));
    let t = leap.after(&Interval::new(0, 900_000_000).unwrap());
    let expected = chrono::DateTime::from_timestamp(59, 1_300_000_000).unwrap()
        + chrono::TimeDelta::milliseconds(900);
    assert_eq!((t.secs(), t.nanos()), (expected.timestamp(), expected.timestamp_subsec_nanos()));
    assert_eq!((t.secs(), t.nanos()), (60, 200_000_000));
}

#[test]
fn delay_has_to_end_in_range() {
    let last = at(8_210_266_876_799, 0);
    assert!(last.reaches(&Interval::new(0, 999_999_999).unwrap()));
    assert!(!last.reaches(&Interval::from_secs(1)));
    assert!(at(0, 0).reaches(&Interval::from_secs(8_210_266_876_799)));
    assert!(!at(0, 0).reaches(&Interval::from_secs(8_210_266_876_800)));
}

#[test]
fn delay_that_chrono_cannot_hold_counts_as_none() {
    let too_long = Interval::from_secs(9_223_372_036_854_776);
    assert!(chrono::TimeDelta::from_std(std::time::Duration::from_secs(9_223_372_036_854_776)).is_err());
    assert!(at(7, 8).reaches(&too_long));
    assert_eq!(at(7, 8).after(&too_long), at(7, 8));
    let edge = Interval::new(9_223_372_036_854_775, 807_000_001).unwrap();
    assert_eq!(at(7, 8).after(&edge), at(7, 8));
    let longest = Interval::new(9_223_372_036_854_775, 807_000_000).unwrap();
    assert!(!at(7, 8).reaches(&longest));
}

#[test]
fn intervals_know_their_length() {
    assert_eq!(Interval::from_secs(900).as_nanos(), 900_000_000_000);
    assert_eq!(Interval::new(3, 5).unwrap().as_nanos(), 3_000_000_005);
    assert_eq!(Interval::new(3, 999_999_999).unwrap().as_secs(), 3);
    assert!(Interval::new(3, 1_000_000_000).is_none());
    assert_eq!(Interval::from_secs(u64::MAX).as_secs(), u64::MAX);
}

#[test]
fn delay_has_passed_exactly_at_its_end() {
    let start = at(100, 5);
    let end = start.after(&Interval::from_secs(60));
    assert!(end.is_not_after(&at(160, 5)));
    assert!(!end.is_not_after(&at(160, 4)));
    assert_eq!(at(160, 5).nanos_since(&start), 60_000_000_000);
}
