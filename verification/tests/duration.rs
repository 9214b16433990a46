use tracing_experiment::duration::format_duration;

#[test]
fn nanoseconds_below_one_thousand() {
    assert_eq!(format_duration(0, 0), "0ns");
    assert_eq!(format_duration(0, 500), "500ns");
    assert_eq!(format_duration(0, 999), "999ns");
}

#[test]
fn microseconds_with_scaled_precision() {
    assert_eq!(format_duration(0, 1_000), "1.000us");
    assert_eq!(format_duration(0, 1_500), "1.500us");
    assert_eq!(format_duration(0, 2_500), "2.500us");
    assert_eq!(format_duration(0, 9_999), "9.999us");
    assert_eq!(format_duration(0, 15_500), "15.50us");
    assert_eq!(format_duration(0, 123_456), "123.5us");
    assert_eq!(format_duration(0, 999_999), "1000.0us");
}

#[test]
fn milliseconds_with_scaled_precision() {
    assert_eq!(format_duration(0, 1_000_000), "1.000ms");
    assert_eq!(format_duration(0, 123_456_789), "123.5ms");
    assert_eq!(format_duration(0, 999_999_999), "1000.0ms");
}

#[test]
fn seconds_and_above() {
    assert_eq!(format_duration(1, 0), "1.000s");
    assert_eq!(format_duration(12, 340_000_000), "12.34s");
    assert_eq!(format_duration(123, 400_000_000), "123.4s");
    assert_eq!(format_duration(9_999, 0), "9999s");
}

#[test]
fn oversized_duration_falls_back_to_whole_seconds() {
    assert_eq!(format_duration(u64::MAX, 0), "18446744073709551615s");
    assert_eq!(format_duration(20_000_000_000, 0), "20000000000s");
}
