use go_duration::format::{
    NANOS_PER_HOUR, NANOS_PER_MICROSECOND, NANOS_PER_MILLISECOND, NANOS_PER_MINUTE,
    NANOS_PER_SECOND,
};
use go_duration::{parse_go_duration, GoDuration};

#[test]
fn test_format() {
    let cases = [
        (4000 * NANOS_PER_SECOND as i64, "1h6m40s"),
        (90 * NANOS_PER_MINUTE as i64, "1h30m0s"),
        (-1, "-1ns"),
        (0, "0s"),
        (1, "1ns"),
        (NANOS_PER_MICROSECOND as i64 - 1, "999ns"),
        (NANOS_PER_MICROSECOND as i64, "1\u{00B5}s"),
        (NANOS_PER_MICROSECOND as i64 + 1, "1.001\u{00B5}s"),
        (NANOS_PER_MILLISECOND as i64 - 1, "999.999\u{00B5}s"),
        (NANOS_PER_MILLISECOND as i64, "1ms"),
        (NANOS_PER_MILLISECOND as i64 + 1, "1.000001ms"),
        (NANOS_PER_SECOND as i64 - 1, "999.999999ms"),
        (NANOS_PER_SECOND as i64, "1s"),
        (NANOS_PER_SECOND as i64 + 1, "1.000000001s"),
        (NANOS_PER_MINUTE as i64 - 1, "59.999999999s"),
        (NANOS_PER_MINUTE as i64, "1m0s"),
        (NANOS_PER_MINUTE as i64 + 1, "1m0.000000001s"),
        (NANOS_PER_HOUR as i64 - 1, "59m59.999999999s"),
        (NANOS_PER_HOUR as i64, "1h0m0s"),
        (NANOS_PER_HOUR as i64 + 1, "1h0m0.000000001s"),
        (i64::MIN, "-2562047h47m16.854775808s"),
        (i64::MAX, "2562047h47m16.854775807s"),
    ];
    for (input, expected) in cases {
        let output = GoDuration(input).to_string();
        assert_eq!(expected, output, "{input}");
    }
}

#[test]
fn format_trims_fraction() {
    assert_eq!(GoDuration(1_500_000_000).to_string(), "1.5s");
    assert_eq!(GoDuration(1_210_000_000).to_string(), "1.21s");
    assert_eq!(GoDuration(-2_000).to_string(), "-2\u{00B5}s");
    assert_eq!(GoDuration(10_000_000).to_string(), "10ms");
}

#[test]
fn format_is_stable_under_reparse() {
    let values = [
        0,
        1,
        -1,
        999,
        1_001,
        1_500_000_000,
        90_000_000_000,
        3_600_000_000_001,
        i64::MIN,
        i64::MAX,
        -123_456_789_012_345,
    ];
    for v in values {
        let text = GoDuration(v).to_string();
        let back = parse_go_duration(&text).unwrap();
        assert_eq!(back, GoDuration(v), "{text}");
        assert_eq!(back.to_string(), text);
        assert_eq!(GoDuration(v).to_string(), text);
    }
}

#[test]
fn end_to_end_scenarios() {
    let d = parse_go_duration("90s").unwrap();
    assert_eq!(d.nanoseconds(), 90_000_000_000);
    assert_eq!(d.to_string(), "1m30s");

    let d = parse_go_duration("4000ns").unwrap();
    assert_eq!(d.nanoseconds(), 4000);
    assert_eq!(d.to_string(), "4\u{00B5}s");

    let d = parse_go_duration("60m").unwrap();
    assert_eq!(d.nanoseconds(), 3_600_000_000_000);
    assert_eq!(d.to_string(), "1h0m0s");
}
