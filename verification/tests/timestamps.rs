use event_cache::timestamp::{Timestamp, MAX_UNIX_NANOS, MIN_UNIX_NANOS, NANOS_PER_SECOND};

fn at(nanos: i128) -> Timestamp {
    Timestamp::from_unix_nanos(nanos).unwrap()
}

#[test]
fn from_unix_nanos_keeps_the_moment() {
    assert_eq!(at(0).unix_nanos(), 0);
    assert_eq!(at(1_546_300_800_000_000_000).unix_nanos(), 1_546_300_800_000_000_000);
    assert_eq!(at(-1).unix_nanos(), -1);
}

#[test]
fn from_unix_nanos_accepts_both_ends_of_the_range() {
    assert_eq!(at(MIN_UNIX_NANOS).unix_nanos(), MIN_UNIX_NANOS);
    assert_eq!(at(MAX_UNIX_NANOS).unix_nanos(), MAX_UNIX_NANOS);
}

#[test]
fn from_unix_nanos_refuses_what_lies_outside_the_range() {
    assert!(Timestamp::from_unix_nanos(MIN_UNIX_NANOS - 1).is_none());
    assert!(Timestamp::from_unix_nanos(MAX_UNIX_NANOS + 1).is_none());
    assert!(Timestamp::from_unix_nanos(i128::MIN).is_none());
    assert!(Timestamp::from_unix_nanos(i128::MAX).is_none());
}

#[test]
fn range_is_the_years_from_minus_9999_to_9999() {
    assert_eq!(MIN_UNIX_NANOS, -377_705_116_800 * NANOS_PER_SECOND);
    assert_eq!(MAX_UNIX_NANOS, 253_402_300_799 * NANOS_PER_SECOND + 999_999_999);
}

#[test]
fn saturating_sub_secs_moves_back_by_whole_seconds() {
    let ten = at(10 * NANOS_PER_SECOND + 123);
    assert_eq!(ten.saturating_sub_secs(3).unix_nanos(), 7 * NANOS_PER_SECOND + 123);
    assert_eq!(ten.saturating_sub_secs(0).unix_nanos(), 10 * NANOS_PER_SECOND + 123);
    assert_eq!(ten.saturating_sub_secs(11).unix_nanos(), -NANOS_PER_SECOND + 123);
}

#[test]
fn saturating_sub_secs_with_a_negative_interval_moves_forward() {
    let ten = at(10 * NANOS_PER_SECOND);
    assert_eq!(ten.saturating_sub_secs(-5).unix_nanos(), 15 * NANOS_PER_SECOND);
}

#[test]
fn saturating_sub_secs_crosses_days_and_years() {
    let start_of_2019 = at(1_546_300_800 * NANOS_PER_SECOND);
    assert_eq!(
        start_of_2019.saturating_sub_secs(86_400 * 365).unix_nanos(),
        1_514_764_800 * NANOS_PER_SECOND
    );
    assert_eq!(
        start_of_2019.saturating_sub_secs(1).unix_nanos(),
        1_546_300_799 * NANOS_PER_SECOND
    );
}

#[test]
fn saturating_sub_secs_stops_at_the_start_of_the_range() {
    assert_eq!(at(0).saturating_sub_secs(i64::MAX).unix_nanos(), MIN_UNIX_NANOS);
    assert_eq!(at(0).saturating_sub_secs(377_705_116_801).unix_nanos(), MIN_UNIX_NANOS);
    assert_eq!(at(0).saturating_sub_secs(377_705_116_800).unix_nanos(), MIN_UNIX_NANOS);
    assert_eq!(
        at(0).saturating_sub_secs(377_705_116_799).unix_nanos(),
        MIN_UNIX_NANOS + NANOS_PER_SECOND
    );
    assert_eq!(at(MIN_UNIX_NANOS).saturating_sub_secs(0).unix_nanos(), MIN_UNIX_NANOS);
    assert_eq!(at(MIN_UNIX_NANOS).saturating_sub_secs(1).unix_nanos(), MIN_UNIX_NANOS);
    assert_eq!(at(MIN_UNIX_NANOS + 5).saturating_sub_secs(1).unix_nanos(), MIN_UNIX_NANOS);
}

#[test]
fn saturating_sub_secs_stops_at_the_end_of_the_range() {
    assert_eq!(at(0).saturating_sub_secs(i64::MIN).unix_nanos(), MAX_UNIX_NANOS);
    assert_eq!(at(0).saturating_sub_secs(-253_402_300_800).unix_nanos(), MAX_UNIX_NANOS);
    assert_eq!(
        at(0).saturating_sub_secs(-253_402_300_799).unix_nanos(),
        MAX_UNIX_NANOS - 999_999_999
    );
    assert_eq!(at(MAX_UNIX_NANOS).saturating_sub_secs(0).unix_nanos(), MAX_UNIX_NANOS);
    assert_eq!(at(MAX_UNIX_NANOS).saturating_sub_secs(-1).unix_nanos(), MAX_UNIX_NANOS);
    assert_eq!(at(MAX_UNIX_NANOS - 5).saturating_sub_secs(-1).unix_nanos(), MAX_UNIX_NANOS);
}

#[test]
fn now_is_a_moment_of_this_age() {
    let now = Timestamp::now().unix_nanos();
    assert!(now >= 1_546_300_800 * NANOS_PER_SECOND);
    assert!(now <= MAX_UNIX_NANOS);
}

#[test]
fn now_does_not_run_backwards_by_much() {
    let first = Timestamp::now().unix_nanos();
    let second = Timestamp::now().unix_nanos();
    assert!(second + NANOS_PER_SECOND > first);
}
