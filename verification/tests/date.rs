use akshually::date;
use akshually::date::format_millis;
use std::time::Duration;

#[test]
fn test_format() {
    assert_eq!(date::format(Duration::from_secs(59)), "59s");
    assert_eq!(date::format(Duration::from_secs(61)), "1m1s");
    assert_eq!(date::format(Duration::from_secs(121)), "2m1s");
    assert_eq!(date::format(Duration::from_secs(3600 + 1)), "1h1s");
    assert_eq!(date::format(Duration::from_secs(24 * 3600 + 1)), "1d1s");
}

#[test]
fn format_hours_minutes_seconds() {
    let duration = Duration::from_secs(3600 + 300 + 12);
    assert_eq!(date::format(duration), "1h5m12s");
}

#[test]
fn format_zero_is_empty() {
    assert_eq!(date::format(Duration::from_secs(0)), "");
    assert_eq!(format_millis(0), "");
}

#[test]
fn format_reads_whole_milliseconds() {
    assert_eq!(date::format(Duration::from_millis(1)), "1ms");
    assert_eq!(date::format(Duration::from_millis(999)), "999ms");
    assert_eq!(date::format(Duration::from_millis(1000)), "1s");
    assert_eq!(date::format(Duration::from_millis(1001)), "1s1ms");
    assert_eq!(date::format(Duration::from_micros(1999)), "1ms");
    assert_eq!(date::format(Duration::from_nanos(999_999)), "");
}

#[test]
fn format_all_units() {
    let millis = 2 * 86_400_000 + 3 * 3_600_000 + 4 * 60_000 + 5 * 1_000 + 6;
    assert_eq!(format_millis(millis), "2d3h4m5s6ms");
    assert_eq!(date::format(Duration::from_millis(millis as u64)), "2d3h4m5s6ms");
    assert_eq!(format_millis(86_399_999), "23h59m59s999ms");
    assert_eq!(format_millis(86_400_000), "1d");
}

#[test]
fn format_many_days() {
    assert_eq!(format_millis(1234 * 86_400_000 + 100), "1234d100ms");
    assert_eq!(date::format(Duration::from_secs(100 * 86_400)), "100d");
    assert_eq!(date::format(Duration::MAX), "213503982334601d7h15s999ms");
    assert_eq!(format_millis(u128::MAX), "3938453320844195178974243141571d9h23m31s455ms");
}

#[test]
fn format_digits_with_zeros() {
    assert_eq!(format_millis(10), "10ms");
    assert_eq!(format_millis(100), "100ms");
    assert_eq!(format_millis(105), "105ms");
    assert_eq!(format_millis(10 * 60_000), "10m");
    assert_eq!(format_millis(20 * 3_600_000 + 30 * 1_000), "20h30s");
}
