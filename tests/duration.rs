use go_duration::nanoseconds;
use go_duration::{GoDuration, GoDurationParseError, GoDurationVisitor};

#[test]
fn test_try_from_trait() {
    let output = GoDuration::try_from("42ns");
    assert!(output.is_ok());
    assert_eq!(GoDuration(42), output.unwrap());
}

#[test]
fn test_from_trait() {
    let output = GoDuration::from(-23);
    assert_eq!(GoDuration(-23), output);
}

#[test]
fn test_duration_abs() {
    let cases = [
        (i64::MIN, i64::MAX),
        (i64::MAX, i64::MAX),
        (0, 0),
        (-42, 42),
    ];

    for (input, expected) in cases {
        let output = GoDuration(input).abs();
        assert_eq!(expected, output.nanoseconds(), "{input}");
    }
}

#[test]
fn constants_and_default() {
    assert_eq!(GoDuration::zero(), GoDuration(0));
    assert_eq!(GoDuration::min_value(), GoDuration(i64::MIN));
    assert_eq!(GoDuration::max_value(), GoDuration(i64::MAX));
    assert_eq!(GoDuration::default(), GoDuration(0));
    assert!(GoDuration(-1) < GoDuration(0));
    assert_eq!(GoDuration::from_str("1m"), Ok(GoDuration(60_000_000_000)));
}

#[test]
fn nanoseconds_mode_round_trip() {
    let d = nanoseconds::deserialize(9_000_000);
    assert_eq!(d.nanoseconds(), 9_000_000);
    assert_eq!(nanoseconds::serialize(&d), 9_000_000);
}

#[test]
fn visitor_tokens() {
    assert_eq!(GoDurationVisitor.visit_i64(-5), Ok(GoDuration(-5)));
    assert_eq!(GoDurationVisitor.visit_u64(11), Ok(GoDuration(11)));
    assert_eq!(GoDurationVisitor.visit_u64(i64::MAX as u64), Ok(GoDuration(i64::MAX)));
    assert_eq!(
        GoDurationVisitor.visit_u64(u64::MAX),
        Err(GoDurationParseError::InvalidDuration)
    );
    assert_eq!(GoDurationVisitor.visit_str("20ns"), Ok(GoDuration(20)));
    assert_eq!(GoDurationVisitor.visit_str("0"), Err(GoDurationParseError::MissingUnit));
    assert_eq!(
        GoDurationVisitor.visit_str("10z"),
        Err(GoDurationParseError::UnknownUnit("z".to_string()))
    );
    assert_eq!(GoDurationVisitor.expecting(), "Go-lang style `time.Duration` string");
}
