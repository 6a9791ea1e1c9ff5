use ivf_fraud::vector::{
    days_is_defined, days_since_epoch, hour_weekday, parse_rfc3339, parse_rfc3339_checked,
    parse_u32, IntErrorKind, TimestampError,
};

#[test]
fn parses_rfc3339_utc() {
    assert_eq!(parse_rfc3339(b"2026-03-11T18:45:53Z"), Ok(1773254753));
    assert_eq!(parse_rfc3339(b"2026-01-01T00:00:00+00:00"), Ok(1767225600));
    assert_eq!(parse_rfc3339(b"2026-01-01T00:00:00ZZ"), Ok(1767225600));
    assert_eq!(parse_rfc3339(b"1971-01-01T00:00:00"), Ok(31536000));
}

#[test]
fn rfc3339_errors() {
    assert_eq!(parse_rfc3339(b"2026-01-01 00:00:00"), Err(TimestampError::InvalidFormat));
    assert_eq!(parse_rfc3339(b"2026-01-01T00:00:00T"), Err(TimestampError::InvalidFormat));
    assert_eq!(parse_rfc3339(b"2026-01T00:00:00"), Err(TimestampError::InvalidParts));
    assert_eq!(
        parse_rfc3339(b"2026-0a-01T00:00:00"),
        Err(TimestampError::ParseInt(IntErrorKind::InvalidDigit))
    );
    assert_eq!(
        parse_rfc3339(b"2026--01T00:00:00"),
        Err(TimestampError::ParseInt(IntErrorKind::Empty))
    );
    assert_eq!(
        parse_rfc3339(b"99999999999-01-01T00:00:00"),
        Err(TimestampError::ParseInt(IntErrorKind::PosOverflow))
    );
    // the Julian-day arithmetic overflows `i32` for this year
    assert_eq!(parse_rfc3339_checked(b"4000000000-01-01T00:00:00"), None);
}

#[test]
fn u32_fields_follow_std() {
    for text in ["0", "+7", "4294967295", "4294967296", "", "+", "-1", "1a", "00012"] {
        let expected = text.parse::<u32>();
        let got = parse_u32(text.as_bytes(), 0, text.len());
        match (expected, got) {
            (Ok(a), Ok(b)) => assert_eq!(a, b),
            (Err(_), Err(_)) => {}
            (a, b) => panic!("{text:?}: {a:?} vs {b:?}"),
        }
    }
}

#[test]
fn days_since_1970() {
    assert_eq!(days_since_epoch(1970, 1, 1), 0);
    assert_eq!(days_since_epoch(2026, 3, 11), 20523);
    assert!(days_is_defined(2026, 3, 11));
    assert!(!days_is_defined(4_000_000_000, 1, 1));
}

#[test]
fn hour_and_weekday_of_seconds() {
    assert_eq!(hour_weekday(0), (0, 3)); // 1970-01-01 was a Thursday
    assert_eq!(hour_weekday(1773254753), (18, 2)); // Wednesday
    assert_eq!(hour_weekday(1773465312), (5, 5)); // Saturday
}
