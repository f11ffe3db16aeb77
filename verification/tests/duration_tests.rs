use lucid::duration::{duration_as_str, duration_from_text, Dur};
use lucid::error::LucidError;

#[test]
fn test_duration_from_float() {
    assert_eq!(Ok(Dur::from_secs(14)), duration_from_text("14.0"));
    assert_eq!(Ok(Dur::from_secs(14)), duration_from_text("14.0001"));

    assert_eq!(Ok(Dur::from_secs(0)), duration_from_text("0.0"));

    assert_eq!(Ok(Dur::from_millis(12345)), duration_from_text("12.345"));
    assert_eq!(Ok(Dur::from_millis(12345)), duration_from_text("12.3454"));
    assert_eq!(Ok(Dur::from_millis(12346)), duration_from_text("12.3456"));

    assert_eq!(Ok(Dur::from_millis(1)), duration_from_text("0.001"));
    assert_eq!(Ok(Dur::from_millis(1100)), duration_from_text("1.1"));

    assert_eq!(Err(LucidError::DurationNegative), duration_from_text("-1.2"));
}

#[test]
fn test_parse_plain_and_signed_forms() {
    assert_eq!(Ok(Dur::from_millis(5000)), duration_from_text("5"));
    assert_eq!(Ok(Dur::from_millis(5000)), duration_from_text("5."));
    assert_eq!(Ok(Dur::from_millis(500)), duration_from_text(".5"));
    assert_eq!(Ok(Dur::from_millis(1500)), duration_from_text("+1.5"));
    assert_eq!(Ok(Dur::from_millis(0)), duration_from_text("0"));
}

#[test]
fn test_parse_rounds_half_away_from_zero() {
    // Exactly half a millisecond goes up.
    assert_eq!(Ok(Dur::from_millis(1)), duration_from_text("0.0005"));
    // Just below half stays down, however long the tail.
    assert_eq!(Ok(Dur::from_millis(0)), duration_from_text("0.0004999"));
    // Rounding can carry into the next second.
    assert_eq!(Ok(Dur::from_millis(1000)), duration_from_text("0.9995"));
    assert_eq!(Ok(Dur::from_millis(999)), duration_from_text("0.9994999"));
}

#[test]
fn test_parse_rejects_non_numbers() {
    assert_eq!(Err(LucidError::DurationParseError), duration_from_text(""));
    assert_eq!(Err(LucidError::DurationParseError), duration_from_text("abc"));
    assert_eq!(Err(LucidError::DurationParseError), duration_from_text("."));
    assert_eq!(Err(LucidError::DurationParseError), duration_from_text("-"));
    assert_eq!(Err(LucidError::DurationParseError), duration_from_text("1.2.3"));
    assert_eq!(Err(LucidError::DurationParseError), duration_from_text("1.2x"));
    assert_eq!(Err(LucidError::DurationParseError), duration_from_text("-abc"));
    assert_eq!(Err(LucidError::DurationParseError), duration_from_text("1e3"));
    assert_eq!(Err(LucidError::DurationParseError), duration_from_text("inf"));
    assert_eq!(Err(LucidError::DurationParseError), duration_from_text("NaN"));
}

#[test]
fn test_parse_rejects_every_negative() {
    assert_eq!(Err(LucidError::DurationNegative), duration_from_text("-0.0"));
    assert_eq!(Err(LucidError::DurationNegative), duration_from_text("-0"));
    assert_eq!(Err(LucidError::DurationNegative), duration_from_text("-0.0000001"));
    assert_eq!(Err(LucidError::DurationNegative), duration_from_text("-12345.678"));
}

#[test]
fn test_parse_clips_beyond_the_counter() {
    // Far past what 64 bits of milliseconds can hold.
    assert_eq!(
        Ok(Dur::from_millis(u64::MAX)),
        duration_from_text("99999999999999999999999999")
    );
    assert_eq!(Ok(Dur::from_millis(u64::MAX)), duration_from_text("18446744073709551615999"));
}

#[test]
fn test_duration_as_str_exact_text() {
    assert_eq!("0.000s", duration_as_str(&Dur::from_millis(0)));
    assert_eq!("12.345s", duration_as_str(&Dur::from_millis(12345)));
    assert_eq!("1.100s", duration_as_str(&Dur::from_millis(1100)));
    assert_eq!("0.001s", duration_as_str(&Dur::from_millis(1)));
    assert_eq!("4.080s", duration_as_str(&Dur::from_millis(4080)));
}

#[test]
fn test_parse_round_trip_of_rendered_seconds() {
    for millis in [0u64, 1, 999, 1000, 1001, 4807, 12345, 86_400_000] {
        let d = Dur::from_millis(millis);
        let text = duration_as_str(&d);
        let seconds = &text[..text.len() - 1];
        assert_eq!(Ok(d), duration_from_text(seconds));
    }
}

#[test]
fn test_duration_accessors() {
    let d = Dur::from_millis(12345);
    assert_eq!(12, d.as_secs());
    assert_eq!(345, d.subsec_millis());
    assert_eq!(Dur::from_millis(14000), Dur::from_secs(14));
    assert_eq!(Dur::from_millis(u64::MAX), Dur::from_secs(u64::MAX));
}
