use go_duration::{go_duration, parse_go_duration, GoDuration, GoDurationParseError};

#[test]
fn test_parse_valid() {
    let cases = [
        ("0s", 0),
        ("+42ns", 42),
        (".1us", 100),
        (".1ns0.9ns", 0),
        ("1ns9ns", 10),
        ("1.ns", 1),
        ("2ns", 2),
        ("2us", 2000),
        ("-2us", -2000),
        ("0.2us", 200),
        ("0.0000000000003h", 1),
        ("1ns", 1),
        ("1us", 1_000),
        ("1\u{00B5}s", 1_000),
        ("1\u{03BC}s", 1_000),
        ("1ms", 1_000_000),
        ("1s", 1_000_000_000),
        ("1m", 60_000_000_000),
        ("1h", 3_600_000_000_000),
        ("9223372036854775807ns", 9_223_372_036_854_775_807),
        ("-9223372036854775808ns", -9_223_372_036_854_775_808),
    ];

    for (input, expected) in cases {
        let output = parse_go_duration(input);
        let output = output.expect(&format!("{input}"));
        assert_eq!(expected, output.0, "{input}");
    }
}

#[test]
fn test_parse_invalid() {
    let cases = [
        ("", GoDurationParseError::InvalidDuration),
        ("0", GoDurationParseError::MissingUnit),
        (
            "-1m-30s",
            GoDurationParseError::UnknownUnit("m-".to_string()),
        ),
        ("-2", GoDurationParseError::MissingUnit),
        ("0z", GoDurationParseError::UnknownUnit("z".to_string())),
        (
            "1m-30s",
            GoDurationParseError::UnknownUnit("m-".to_string()),
        ),
        (
            "1m+30s",
            GoDurationParseError::UnknownUnit("m+".to_string()),
        ),
        (
            "-1m+30s",
            GoDurationParseError::UnknownUnit("m+".to_string()),
        ),
        (
            "9223372036854775808ns",
            GoDurationParseError::InvalidDuration,
        ),
        (
            "-9223372036854775809ns",
            GoDurationParseError::InvalidDuration,
        ),
        ("-", GoDurationParseError::InvalidDuration),
        ("+", GoDurationParseError::InvalidDuration),
        (" ", GoDurationParseError::InvalidDuration),
        ("-1 m", GoDurationParseError::UnknownUnit(" m".to_string())),
        ("17h ", GoDurationParseError::UnknownUnit("h ".to_string())),
        (" 42s", GoDurationParseError::InvalidDuration),
    ];

    for (input, expected) in cases {
        let output = parse_go_duration(input);
        assert!(output.is_err(), "{input} {output:?}");

        let output = output.unwrap_err();
        assert_eq!(output, expected, "{input}");
    }
}

#[test]
fn parse_boundaries() {
    assert_eq!(parse_go_duration("9223372036854775807ns"), Ok(GoDuration(i64::MAX)));
    assert_eq!(
        parse_go_duration("9223372036854775808ns"),
        Err(GoDurationParseError::InvalidDuration)
    );
    assert_eq!(parse_go_duration("-9223372036854775808ns"), Ok(GoDuration(i64::MIN)));
    assert_eq!(
        parse_go_duration("-9223372036854775809ns"),
        Err(GoDurationParseError::InvalidDuration)
    );
}

#[test]
fn parse_sums_segments() {
    assert_eq!(parse_go_duration("1ns9ns"), Ok(GoDuration(10)));
    assert_eq!(parse_go_duration("1h30m"), Ok(GoDuration(5_400_000_000_000)));
    assert_eq!(parse_go_duration("1s1ms1us1ns"), Ok(GoDuration(1_001_001_001)));
    assert_eq!(parse_go_duration("-1m30s"), Ok(GoDuration(-90_000_000_000)));
}

#[test]
fn parse_error_kinds() {
    assert_eq!(parse_go_duration("0"), Err(GoDurationParseError::MissingUnit));
    assert_eq!(
        parse_go_duration("0z"),
        Err(GoDurationParseError::UnknownUnit("z".to_string()))
    );
    for input in ["", "-", "+", " "] {
        assert_eq!(
            parse_go_duration(input),
            Err(GoDurationParseError::InvalidDuration),
            "{input}"
        );
    }
}

#[test]
fn parse_malformed_numbers() {
    assert_eq!(parse_go_duration("1..ns"), Err(GoDurationParseError::MissingUnit));
    assert_eq!(parse_go_duration("1.5.3s"), Err(GoDurationParseError::MissingUnit));
    assert_eq!(parse_go_duration("1s."), Err(GoDurationParseError::InvalidDuration));
    assert_eq!(parse_go_duration(".s"), Err(GoDurationParseError::InvalidDuration));
    assert_eq!(
        parse_go_duration("18446744073709551616ns"),
        Err(GoDurationParseError::InvalidDuration)
    );
    assert_eq!(
        parse_go_duration("1ns18446744073709551616ns"),
        Err(GoDurationParseError::InvalidDuration)
    );
    assert_eq!(
        parse_go_duration("1\u{00B5}"),
        Err(GoDurationParseError::UnknownUnit("\u{00B5}".to_string()))
    );
}

#[test]
fn parse_saturates_before_range_check() {
    assert_eq!(
        parse_go_duration("18446744073709551615h"),
        Err(GoDurationParseError::InvalidDuration)
    );
    assert_eq!(
        parse_go_duration("5000000000000000000ns5000000000000000000ns"),
        Err(GoDurationParseError::InvalidDuration)
    );
}

#[test]
fn parse_fraction_truncates() {
    assert_eq!(parse_go_duration("1.9999ns"), Ok(GoDuration(1)));
    assert_eq!(parse_go_duration("0.5us"), Ok(GoDuration(500)));
    assert_eq!(parse_go_duration("1.5h"), Ok(GoDuration(5_400_000_000_000)));
    assert_eq!(parse_go_duration("0.0009999us"), Ok(GoDuration(0)));
    assert_eq!(parse_go_duration("0.000000000999999999999s"), Ok(GoDuration(0)));
    assert_eq!(parse_go_duration("0.0000000010s"), Ok(GoDuration(1)));
}

#[test]
fn go_duration_leaves_rest() {
    let (rest, d) = go_duration("1s.x").unwrap();
    assert_eq!(rest, ".x");
    assert_eq!(d, GoDuration(1_000_000_000));
    let (rest, d) = go_duration("-2ms").unwrap();
    assert_eq!(rest, "");
    assert_eq!(d, GoDuration(-2_000_000));
    assert_eq!(go_duration("x"), Err(GoDurationParseError::InvalidDuration));
    assert_eq!(parse_go_duration("1s.x"), Err(GoDurationParseError::InvalidDuration));
}

#[test]
fn error_messages() {
    assert_eq!(GoDurationParseError::InvalidDuration.message(), "time: invalid duration");
    assert_eq!(GoDurationParseError::MissingUnit.message(), "time: missing unit in duration");
    assert_eq!(
        GoDurationParseError::UnknownUnit("z".to_string()).message(),
        "time: unknown unit \"z\" in duration"
    );
}
