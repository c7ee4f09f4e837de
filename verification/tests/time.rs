use rehydrate::clock::{millis_of_nanos, Stamp};

#[test]
fn stamps_are_rfc3339_and_milliseconds() {
    let t = time::OffsetDateTime::from_unix_timestamp_nanos(1_767_323_045_123_456_789).unwrap();
    let s = Stamp::of(&t);
    assert_eq!(s.at, "2026-01-02T03:04:05.123456789Z");
    assert_eq!(s.millis, 1_767_323_045_123);
    assert!(Stamp::now().millis > 1_600_000_000_000);
}

#[test]
fn milliseconds_round_towards_zero_and_are_clamped() {
    assert_eq!(millis_of_nanos(1_999_999), 1);
    assert_eq!(millis_of_nanos(-1_999_999), -1);
    assert_eq!(millis_of_nanos(0), 0);
    assert_eq!(millis_of_nanos(i128::MAX), i64::MAX);
}
