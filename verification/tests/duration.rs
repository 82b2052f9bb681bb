use std::time::Duration;

use vigild::duration::{parse_duration, parse_duration_millis};

#[test]
fn basic() {
    assert_eq!(parse_duration("500ms").unwrap(), Duration::from_millis(500));
    assert_eq!(parse_duration("5s").unwrap(), Duration::from_secs(5));
    assert_eq!(parse_duration("1m").unwrap(), Duration::from_secs(60));
    assert_eq!(parse_duration("1h").unwrap(), Duration::from_secs(3600));
    assert_eq!(parse_duration("1m30s").unwrap(), Duration::from_secs(90));
    assert_eq!(parse_duration("2h5m").unwrap(), Duration::from_secs(7500));
}

#[test]
fn errors() {
    assert!(parse_duration("").is_err());
    assert!(parse_duration("5x").is_err());
    assert!(parse_duration("abc").is_err());
}

#[test]
fn duration_error_messages() {
    assert_eq!(parse_duration("").unwrap_err(), "empty duration string");
    assert_eq!(parse_duration("5x").unwrap_err(), "unknown duration suffix in \"5x\"");
    assert_eq!(parse_duration("abc").unwrap_err(), "expected digit in duration: \"abc\"");
    assert_eq!(parse_duration("5s ").unwrap_err(), "expected digit in duration: \" \"");
    assert_eq!(
        parse_duration("99999999999999999999ms").unwrap_err(),
        "number overflow in duration: \"99999999999999999999ms\""
    );
    assert_eq!(
        parse_duration("18446744073709551615h").unwrap_err(),
        "overflow: \"18446744073709551615h\""
    );
}

#[test]
fn duration_millis_sums_components() {
    assert_eq!(parse_duration_millis("1h1m1s1ms").unwrap(), 3_661_001);
    assert_eq!(parse_duration_millis("0s").unwrap(), 0);
    assert_eq!(parse_duration_millis("10ms10ms").unwrap(), 20);
}
