use logtripwire::duration::{parse_duration, Duration, DurationError, MAX_NANOS};

#[test]
fn parses_milliseconds() {
    assert_eq!(parse_duration("200ms").unwrap(), Duration::from_millis(200));
}

#[test]
fn parses_seconds() {
    assert_eq!(parse_duration("30s").unwrap(), Duration::from_secs(30));
}

#[test]
fn parses_minutes() {
    assert_eq!(parse_duration("5m").unwrap(), Duration::from_secs(300));
}

#[test]
fn bare_number_is_seconds() {
    assert_eq!(parse_duration("10").unwrap(), Duration::from_secs(10));
}

#[test]
fn rejects_garbage() {
    assert!(parse_duration("banana").is_err());
}

#[test]
fn rejects_negative() {
    assert!(parse_duration("-5s").is_err());
}

#[test]
fn parses_hours() {
    assert_eq!(parse_duration("2h").unwrap(), Duration::from_secs(7200));
}

#[test]
fn units_are_case_insensitive() {
    assert_eq!(parse_duration("200MS").unwrap(), Duration::from_millis(200));
    assert_eq!(parse_duration("5M").unwrap(), Duration::from_secs(300));
    assert_eq!(parse_duration("2H").unwrap(), Duration::from_secs(7200));
    assert_eq!(parse_duration("30S").unwrap(), Duration::from_secs(30));
}

#[test]
fn fractional_values_are_exact() {
    assert_eq!(parse_duration("1.5s").unwrap(), Duration::from_millis(1500));
    assert_eq!(parse_duration("0.25m").unwrap(), Duration::from_secs(15));
    assert_eq!(parse_duration(".5s").unwrap(), Duration::from_millis(500));
    assert_eq!(parse_duration("2.s").unwrap(), Duration::from_secs(2));
    assert_eq!(parse_duration("1.1h").unwrap(), Duration::from_secs(3960));
}

#[test]
fn fractions_round_to_the_nearest_nanosecond() {
    // 0.0000000004 s is 0.4 ns, 0.0000000005 s is half a nanosecond.
    assert_eq!(parse_duration("0.0000000004s").unwrap(), Duration::from_nanos(0));
    assert_eq!(parse_duration("0.0000000005s").unwrap(), Duration::from_nanos(1));
    assert_eq!(parse_duration("0.0000016ms").unwrap(), Duration::from_nanos(2));
    assert_eq!(
        parse_duration("1.333333333333333333333s").unwrap(),
        Duration::from_nanos(1_333_333_333)
    );
}

#[test]
fn whitespace_around_and_inside_is_ignored() {
    assert_eq!(parse_duration("  30s \n").unwrap(), Duration::from_secs(30));
    assert_eq!(parse_duration("5 m").unwrap(), Duration::from_secs(300));
    assert_eq!(parse_duration("\u{a0}7\u{3000}").unwrap(), Duration::from_secs(7));
}

#[test]
fn a_plus_sign_and_negative_zero_are_accepted() {
    assert_eq!(parse_duration("+3s").unwrap(), Duration::from_secs(3));
    assert_eq!(parse_duration("-0s").unwrap(), Duration::from_nanos(0));
    assert_eq!(parse_duration("-0.000").unwrap(), Duration::from_nanos(0));
}

#[test]
fn each_error_has_its_input() {
    assert_eq!(parse_duration("   "), Err(DurationError::Empty));
    assert_eq!(parse_duration(""), Err(DurationError::Empty));
    assert_eq!(parse_duration("ms"), Err(DurationError::MissingNumber));
    assert_eq!(parse_duration(" h "), Err(DurationError::MissingNumber));
    assert_eq!(parse_duration("banana"), Err(DurationError::Malformed));
    assert_eq!(parse_duration("1..2s"), Err(DurationError::Malformed));
    assert_eq!(parse_duration("."), Err(DurationError::Malformed));
    assert_eq!(parse_duration("-"), Err(DurationError::Malformed));
    assert_eq!(parse_duration("1e"), Err(DurationError::Malformed));
    assert_eq!(parse_duration("e5"), Err(DurationError::Malformed));
    assert_eq!(parse_duration(".e5"), Err(DurationError::Malformed));
    assert_eq!(parse_duration("1e+"), Err(DurationError::Malformed));
    assert_eq!(parse_duration("1e2e3"), Err(DurationError::Malformed));
    assert_eq!(parse_duration("1e2.5"), Err(DurationError::Malformed));
    assert_eq!(parse_duration("-5s"), Err(DurationError::NotNonNegative));
    assert_eq!(parse_duration("-0.001ms"), Err(DurationError::NotNonNegative));
    assert_eq!(parse_duration("inf"), Err(DurationError::NotNonNegative));
    assert_eq!(parse_duration("-Infinity"), Err(DurationError::NotNonNegative));
    assert_eq!(parse_duration("NaN s"), Err(DurationError::NotNonNegative));
    assert_eq!(parse_duration("18446744073709551616s"), Err(DurationError::TooLarge));
    assert_eq!(
        parse_duration("99999999999999999999999999999999999999999999h"),
        Err(DurationError::TooLarge)
    );
    assert_eq!(parse_duration("1e20h"), Err(DurationError::TooLarge));
    assert_eq!(parse_duration("2e19"), Err(DurationError::TooLarge));
    assert_eq!(parse_duration("1e99999999999999999999999999999"), Err(DurationError::TooLarge));
    assert_eq!(parse_duration("-2e-3"), Err(DurationError::NotNonNegative));
}

#[test]
fn exponent_notation_is_read_as_f64_reads_it() {
    assert_eq!(parse_duration("1e3").unwrap(), Duration::from_secs(1000));
    assert_eq!(parse_duration("1e19s").unwrap(), Duration::from_secs(10_000_000_000_000_000_000));
    assert_eq!(parse_duration("2.5E-1m").unwrap(), Duration::from_secs(15));
    assert_eq!(parse_duration("1.5e+2ms").unwrap(), Duration::from_millis(150));
    assert_eq!(parse_duration("12e-1").unwrap(), Duration::from_millis(1200));
    assert_eq!(parse_duration("0.0012e4s").unwrap(), Duration::from_secs(12));
    assert_eq!(parse_duration(".5e1").unwrap(), Duration::from_secs(5));
    assert_eq!(parse_duration("5.e0").unwrap(), Duration::from_secs(5));
    assert_eq!(parse_duration("1e-9").unwrap(), Duration::from_nanos(1));
    assert_eq!(parse_duration("4e-10").unwrap(), Duration::from_nanos(0));
    assert_eq!(parse_duration("5e-10").unwrap(), Duration::from_nanos(1));
    assert_eq!(parse_duration("1e-400s").unwrap(), Duration::from_nanos(0));
    assert_eq!(parse_duration("1e-99999999999999999999999999999").unwrap(), Duration::from_nanos(0));
    assert_eq!(parse_duration("0e99999999999999999999999999999").unwrap(), Duration::from_nanos(0));
    assert_eq!(parse_duration("-0e5").unwrap(), Duration::from_nanos(0));
    assert_eq!(parse_duration("1.8446744073709551615999999999e19s").unwrap().as_nanos(), MAX_NANOS);
    assert_eq!(parse_duration("000001e0000003").unwrap(), Duration::from_secs(1000));
}

#[test]
fn the_largest_span_parses_and_one_more_nanosecond_does_not() {
    let max = parse_duration("18446744073709551615.999999999s").unwrap();
    assert_eq!(max.as_nanos(), MAX_NANOS);
    assert_eq!(max.as_secs(), u64::MAX);
    assert_eq!(max.subsec_nanos(), 999_999_999);
    assert_eq!(
        parse_duration("18446744073709551615.9999999995s"),
        Err(DurationError::TooLarge)
    );
}

#[test]
fn duration_constructors_agree() {
    assert_eq!(Duration::new(1, 500_000_000), Duration::from_millis(1500));
    assert_eq!(Duration::from_secs(2).as_nanos(), 2_000_000_000);
    assert_eq!(Duration::try_from_nanos(MAX_NANOS + 1), None);
    assert_eq!(Duration::try_from_nanos(7), Some(Duration::from_nanos(7)));
    assert!(Duration::from_secs(1).is_longer_than(&Duration::from_millis(999)));
    assert!(!Duration::from_secs(1).is_longer_than(&Duration::from_millis(1000)));
}

#[test]
fn a_bare_number_reads_as_that_number_of_seconds() {
    for bare in ["10", " 2.5 ", "+.75", "0", "-0", "3\t"] {
        let with_unit = format!("{bare}s");
        assert_eq!(parse_duration(bare), parse_duration(&with_unit), "{bare:?}");
    }
    assert_eq!(parse_duration(" 2.5 ").unwrap(), Duration::from_millis(2500));
}

#[test]
fn a_string_reads_as_its_lower_case_form() {
    for s in ["5M", "200Ms", "1.5H", "INFINITY", "Banana", "  7S "] {
        assert_eq!(parse_duration(s), parse_duration(&s.to_ascii_lowercase()), "{s:?}");
    }
}
