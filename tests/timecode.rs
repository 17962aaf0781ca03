use ai_media_cutter::timecode::{parse_timestamp_to_seconds_raw, TimeOffset, TimestampError};

fn seconds(ts: &str) -> f64 {
    parse_timestamp_to_seconds_raw(ts).unwrap().millis as f64 / 1000.0
}

#[test]
fn test_parse_normal() {
    assert_eq!(seconds("00:00:10"), 10.0);
    assert_eq!(seconds("01:00:00"), 3600.0);
    assert_eq!(seconds("00:01:30"), 90.0);
}

#[test]
fn test_parse_milliseconds() {
    assert_eq!(seconds("00:00:10.5"), 10.5);
    assert_eq!(seconds("00:00:10.500"), 10.5);
    assert_eq!(seconds("00:00:10.05"), 10.05);
}

#[test]
fn test_parse_overflow_fix() {
    assert_eq!(seconds("00:00:60"), 60.0);
    assert_eq!(seconds("00:00:90"), 90.0);
    assert_eq!(seconds("00:60:00"), 3600.0);
}

#[test]
fn test_parse_weird_formats() {
    assert_eq!(seconds(".500"), 0.5);
    assert_eq!(seconds("00:00:01500"), 1.5);
}

#[test]
fn test_errors() {
    assert!(parse_timestamp_to_seconds_raw("").is_err());
    assert!(parse_timestamp_to_seconds_raw("abc").is_err());
    assert!(parse_timestamp_to_seconds_raw("-10:00").is_err());
}

#[test]
fn timestamp_errors_name_the_field() {
    assert_eq!(parse_timestamp_to_seconds_raw("  \t"), Err(TimestampError::Empty));
    assert_eq!(parse_timestamp_to_seconds_raw("x:00:00"), Err(TimestampError::InvalidHour));
    assert_eq!(parse_timestamp_to_seconds_raw("00:x:00"), Err(TimestampError::InvalidMinute));
    assert_eq!(parse_timestamp_to_seconds_raw("x:00"), Err(TimestampError::InvalidMinute));
    assert_eq!(parse_timestamp_to_seconds_raw("abc"), Err(TimestampError::InvalidSecond));
    assert_eq!(parse_timestamp_to_seconds_raw("1:2:3:4"), Err(TimestampError::InvalidFormat));
    assert_eq!(parse_timestamp_to_seconds_raw("-10:00"), Err(TimestampError::Negative));
    assert_eq!(
        parse_timestamp_to_seconds_raw("00:00:9999999999999.5"),
        Err(TimestampError::InvalidSecond)
    );
}

#[test]
fn timestamp_spaces_and_short_forms() {
    assert_eq!(
        parse_timestamp_to_seconds_raw("  01 : 02 : 03.4 \n"),
        Ok(TimeOffset { millis: 3_723_400 })
    );
    assert_eq!(seconds("75"), 75.0);
    assert_eq!(seconds("2:05"), 125.0);
    assert_eq!(seconds("+2:05"), 125.0);
    assert_eq!(seconds("1:2.3456"), 62.345);
    assert_eq!(seconds("1.x"), 1.0);
    assert_eq!(seconds("00:999"), 0.999);
    assert_eq!(seconds("-1:90"), 30.0);
    assert_eq!(seconds("00:00:99999999999"), 99_999_999.999);
    assert_eq!(
        parse_timestamp_to_seconds_raw("00:00:-5.5"),
        Err(TimestampError::Negative)
    );
}
