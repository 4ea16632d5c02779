use std::str::FromStr;

use mynotes::config::field_duration::{CfgDuration, DurationError};

#[test]
fn parse_ok() {
    for (input, expected) in [
        ("0", CfgDuration::from_secs(0)),
        ("5", CfgDuration::from_secs(5)),
        ("30s", CfgDuration::from_secs(30)),
        ("60 sec", CfgDuration::from_secs(60)),
        ("2m", CfgDuration::from_minutes(2)),
        ("5min", CfgDuration::from_minutes(5)),
        ("3h", CfgDuration::from_hours(3)),
        ("12hours", CfgDuration::from_hours(12)),
        ("1day", CfgDuration::from_days(1)),
        ("10d", CfgDuration::from_days(10)),
        ("2 weeks", CfgDuration::from_weeks(2)),
        ("3M", CfgDuration::from_months(3)),
        ("10y", CfgDuration::from_years(10)),
        ("25ms", CfgDuration::from_nanos(25_000_000)),
        ("50us", CfgDuration::from_nanos(50_000)),
        ("7µs", CfgDuration::from_nanos(7_000)),
        ("125ns", CfgDuration::from_nanos(125)),
        (
            "1y3weeks2d 35min 7s",
            CfgDuration::from_secs((365 + 3 * 7 + 2) * 24 * 60 * 60 + 35 * 60 + 7),
        ),
    ] {
        assert_eq!(CfgDuration::from_str(input).unwrap(), expected);
    }
}

#[test]
fn parse_invalid_str() {
    for input in [
        "s",                    // no number
        "2Z",                   //invalid suffix
        "18446744073709551616", // number overflow
        "584942417356y",        // mult overflow
        "584942417355y11M",     // add overflow
    ] {
        assert!(CfgDuration::from_str(input).is_err());
    }
}

#[test]
fn parse_errors_are_told_apart() {
    assert_eq!(CfgDuration::parse("s"), Err(DurationError::InvalidFormat));
    assert_eq!(CfgDuration::parse("2Z"), Err(DurationError::InvalidFormat));
    assert_eq!(CfgDuration::parse(""), Err(DurationError::InvalidFormat));
    assert_eq!(CfgDuration::parse("5s "), Err(DurationError::InvalidFormat));
    assert_eq!(CfgDuration::parse("5mins"), Err(DurationError::InvalidFormat));
    assert_eq!(
        CfgDuration::parse("18446744073709551616"),
        Err(DurationError::NumberTooLarge)
    );
    assert_eq!(CfgDuration::parse("584942417356y"), Err(DurationError::Overflow));
    assert_eq!(CfgDuration::parse("584942417355y11M"), Err(DurationError::Overflow));
}

#[test]
fn fields_are_added() {
    // `1m30` is `90` seconds
    assert_eq!(CfgDuration::parse("1m30"), Ok(CfgDuration::from_secs(90)));
    assert_eq!(CfgDuration::parse("1m 30s"), Ok(CfgDuration::from_secs(90)));
    assert_eq!(
        CfgDuration::parse("1d6h"),
        Ok(CfgDuration::from_secs(86_400 + 6 * 3_600))
    );
    // whitespace after a number without unit, and around fields
    assert_eq!(CfgDuration::parse(" 5 "), Ok(CfgDuration::from_secs(5)));
    assert_eq!(CfgDuration::parse("1 2"), Ok(CfgDuration::from_secs(3)));
    // the largest duration, and one nanosecond more
    assert_eq!(
        CfgDuration::parse("18446744073709551615s 999999999ns").map(|d| d.as_duration()),
        Ok(std::time::Duration::new(u64::MAX, 999_999_999))
    );
    assert_eq!(
        CfgDuration::parse("18446744073709551615s 1000000000ns"),
        Err(DurationError::Overflow)
    );
}

#[test]
fn units_by_their_full_names() {
    assert_eq!(CfgDuration::parse("2 years"), Ok(CfgDuration::from_years(2)));
    assert_eq!(CfgDuration::parse("1 month"), Ok(CfgDuration::from_months(1)));
    assert_eq!(CfgDuration::parse("1months"), Ok(CfgDuration::from_months(1)));
    assert_eq!(CfgDuration::parse("4 days"), Ok(CfgDuration::from_days(4)));
    assert_eq!(CfgDuration::parse("1hour"), Ok(CfgDuration::from_hours(1)));
    assert_eq!(CfgDuration::parse("3 millisec"), Ok(CfgDuration::from_nanos(3_000_000)));
    assert_eq!(CfgDuration::parse("3 microsec"), Ok(CfgDuration::from_nanos(3_000)));
    assert_eq!(CfgDuration::parse("3 nanosec"), Ok(CfgDuration::from_nanos(3)));
}

#[test]
fn constructors_agree() {
    assert_eq!(CfgDuration::from_minutes(2), CfgDuration::from_secs(120));
    assert_eq!(CfgDuration::from_hours(1), CfgDuration::from_secs(3_600));
    assert_eq!(CfgDuration::from_days(1), CfgDuration::from_hours(24));
    assert_eq!(CfgDuration::from_weeks(1), CfgDuration::from_days(7));
    assert_eq!(CfgDuration::from_months(1), CfgDuration::from_days(30));
    assert_eq!(CfgDuration::from_years(1), CfgDuration::from_days(365));
    assert_eq!(CfgDuration::from_nanos(1_500_000_000).as_duration(), std::time::Duration::from_millis(1_500));
    assert_eq!(CfgDuration::default(), CfgDuration::from_secs(0));
}
