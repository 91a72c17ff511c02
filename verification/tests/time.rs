use ush::time::{duration_terms, format_duration, format_go_duration, format_rfc3339_nano, Duration, SystemTime};

#[test]
fn test_format_duration() {
    assert_eq!(format_duration(Duration::from_secs(0)), "0s");
    assert_eq!(format_duration(Duration::from_secs(1)), "1s");
    assert_eq!(format_duration(Duration::from_millis(100)), "100ms");
    assert_eq!(format_duration(Duration::from_millis(120)), "120ms");
    assert_eq!(format_duration(Duration::from_millis(1500)), "1.5s");
    assert_eq!(format_duration(Duration::from_nanos(3_200_000_000)), "3.2s");
    assert_eq!(format_duration(Duration::from_nanos(1_234_567)), "1ms");
    assert_eq!(format_duration(Duration::from_secs(18)), "18s");
    assert_eq!(format_duration(Duration::from_secs(90)), "1m30s");
    assert_eq!(format_duration(Duration::from_secs(483)), "8m3s");
    assert_eq!(format_duration(Duration::from_secs(3661)), "1h1m1s");
    assert_eq!(format_duration(Duration::from_secs(9907)), "2h45m7s");
    assert_eq!(format_duration(Duration::from_micros(1)), "1µs");
    assert_eq!(format_duration(Duration::from_nanos(1)), "1ns");
}

#[test]
fn test_format_go_duration() {
    assert_eq!(format_go_duration(Duration::from_secs(0)), "0s");
    assert_eq!(format_go_duration(Duration::from_secs(1)), "1s");
    assert_eq!(format_go_duration(Duration::from_millis(100)), "100ms");
    assert_eq!(format_go_duration(Duration::from_millis(1500)), "1.5s");
    assert_eq!(format_go_duration(Duration::from_nanos(1_234_567)), "1.234567ms");
    assert_eq!(format_go_duration(Duration::from_secs(90)), "1m30s");
    assert_eq!(format_go_duration(Duration::from_secs(3661)), "1h1m1s");
    assert_eq!(format_go_duration(Duration::from_micros(1)), "1µs");
    assert_eq!(format_go_duration(Duration::from_nanos(1)), "1ns");
    assert_eq!(format_go_duration(Duration::from_nanos(1500)), "1.5µs");
}

#[test]
fn test_format_rfc3339_nano() {
    let t = SystemTime::from_unix(Duration::new(1_000_000_000, 123_456_789));
    assert_eq!(format_rfc3339_nano(t), "2001-09-09T01:46:40.123456789Z");

    let t = SystemTime::from_unix(Duration::new(0, 0));
    assert_eq!(format_rfc3339_nano(t), "1970-01-01T00:00:00Z");
}

#[test]
fn rfc3339_trims_trailing_zeros_and_handles_leap_days() {
    let t = SystemTime::from_unix(Duration::new(951_782_400, 500_000_000));
    assert_eq!(format_rfc3339_nano(t), "2000-02-29T00:00:00.5Z");
    let t = SystemTime::from_unix(Duration::new(4_102_444_799, 0));
    assert_eq!(format_rfc3339_nano(t), "2099-12-31T23:59:59Z");
}

#[test]
fn go_duration_of_fractions_and_hours() {
    assert_eq!(format_go_duration(Duration::from_nanos(999)), "999ns");
    assert_eq!(format_go_duration(Duration::from_millis(59_999)), "59.999s");
    assert_eq!(format_go_duration(Duration::new(7200, 500_000_000)), "2h0m0.5s");
}

#[test]
fn short_duration_units() {
    assert_eq!(format_duration(Duration::from_nanos(999_999)), "999µs");
    assert_eq!(format_duration(Duration::from_nanos(1_500_000)), "2ms");
    assert_eq!(format_duration(Duration::from_secs(60)), "1m");
    assert_eq!(format_duration(Duration::from_secs(3600)), "1h");
}

#[test]
fn duration_terms_split_number_and_unit() {
    let terms = duration_terms("1h1m1.5s").unwrap();
    assert_eq!(terms.len(), 3);
    assert_eq!(terms[0].number, "1");
    assert_eq!(terms[0].unit_nanos, 3_600_000_000_000);
    assert_eq!(terms[1].unit_nanos, 60_000_000_000);
    assert_eq!(terms[2].number, "1.5");
    assert_eq!(terms[2].unit_nanos, 1_000_000_000);
    let terms = duration_terms("100ms").unwrap();
    assert_eq!(terms[0].number, "100");
    assert_eq!(terms[0].unit_nanos, 1_000_000);
    assert_eq!(duration_terms("5µs").unwrap()[0].unit_nanos, 1_000);
    assert_eq!(duration_terms("5us").unwrap()[0].unit_nanos, 1_000);
}

#[test]
fn duration_terms_reject_bad_units() {
    assert!(duration_terms("5").is_none());
    assert!(duration_terms("5d").is_none());
    assert!(duration_terms("ms").is_none());
}

#[test]
fn duration_accessors() {
    let d = Duration::new(3, 250);
    assert_eq!(d.as_secs(), 3);
    assert_eq!(d.subsec_nanos(), 250);
    assert_eq!(d.as_nanos(), 3_000_000_250);
    assert!(Duration::zero().is_zero());
    assert_eq!(Duration::from_nanos_u128(5_000_000_001).as_secs(), 5);
    let a = SystemTime::from_unix(Duration::from_secs(10));
    let b = SystemTime::from_unix(Duration::from_secs(4));
    assert_eq!(a.duration_since(b).unwrap().as_secs(), 6);
    assert!(b.duration_since(a).is_none());
    assert_eq!(SystemTime::unix_epoch().since_epoch().as_nanos(), 0);
}
