use logdrain::event_time::{parse_event_ms, scale_epoch, trim};

#[test]
fn scale_epoch_detects_unit_by_magnitude() {
    assert_eq!(scale_epoch(1_700_000_000), Some(1_700_000_000_000)); // seconds
    assert_eq!(scale_epoch(1_700_000_000_000), Some(1_700_000_000_000)); // millis
    assert_eq!(scale_epoch(1_700_000_000_000_000), Some(1_700_000_000_000)); // micros
    assert_eq!(scale_epoch(1_700_000_000_000_000_000), Some(1_700_000_000_000)); // nanos
    assert_eq!(scale_epoch(-1), None);
}

#[test]
fn scale_epoch_unit_boundaries() {
    assert_eq!(scale_epoch(0), Some(0));
    assert_eq!(scale_epoch(99_999_999_999), Some(99_999_999_999_000));
    assert_eq!(scale_epoch(100_000_000_000), Some(100_000_000_000));
    assert_eq!(scale_epoch(100_000_000_000_000), Some(100_000_000_000));
    assert_eq!(scale_epoch(100_000_000_000_000_000), Some(100_000_000_000));
    assert_eq!(scale_epoch(i64::MAX), Some(9_223_372_036_854));
}

#[test]
fn parse_event_ms_autodetects_and_honors_format() {
    assert_eq!(parse_event_ms("60", None), Some(60_000)); // epoch seconds
    assert_eq!(parse_event_ms("1970-01-01T00:01:00Z", None), Some(60_000)); // RFC 3339
    assert_eq!(parse_event_ms("1970-01-01 00:01:00", Some("%Y-%m-%d %H:%M:%S")), Some(60_000)); // explicit format, naive -> UTC
    assert_eq!(parse_event_ms("not a time", None), None);
    assert_eq!(parse_event_ms("nope", Some("%Y")), None);
}

#[test]
fn parse_event_ms_trims_and_rejects_pre_epoch() {
    assert_eq!(parse_event_ms("  +60 \n", None), Some(60_000));
    assert_eq!(parse_event_ms("-5", None), None);
    assert_eq!(parse_event_ms("1969-12-31T23:59:00Z", None), None);
    assert_eq!(parse_event_ms("1970-01-01 00:00:02 +0000", Some("%Y-%m-%d %H:%M:%S %z")), Some(2_000));
}

#[test]
fn trim_strips_unicode_whitespace() {
    assert_eq!(trim("\u{3000} a b \t"), "a b");
    assert_eq!(trim("   "), "");
    assert_eq!(trim("x"), "x");
}
