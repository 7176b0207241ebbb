use snd_review::rfc3339::{
    civil_from_days, days_from_civil, format_rfc3339, parse_rfc3339, parse_rfc3339_would_panic, Timestamp,
};

#[test]
fn rfc3339_round_trips_epoch_and_nanos() {
    let t = Timestamp {
        secs: 1_693_612_800,
        nanos: 123_456_789,
    };
    let text = format_rfc3339(t);
    assert!(text.ends_with('Z'));
    assert_eq!(parse_rfc3339(&text).unwrap(), t);
    assert_eq!(
        parse_rfc3339("1970-01-01T00:00:00Z").unwrap(),
        Timestamp { secs: 0, nanos: 0 }
    );
}

#[test]
fn formats_whole_and_fractional_seconds() {
    assert_eq!(
        format_rfc3339(Timestamp { secs: 0, nanos: 0 }),
        "1970-01-01T00:00:00Z"
    );
    assert_eq!(
        format_rfc3339(Timestamp {
            secs: 1_693_612_800,
            nanos: 5
        }),
        "2023-09-02T00:00:00.000000005Z"
    );
}

#[test]
fn parse_accepts_lowercase_separators_and_whitespace() {
    assert_eq!(
        parse_rfc3339("  2023-09-02t00:00:01.5z ").unwrap(),
        Timestamp {
            secs: 1_693_612_801,
            nanos: 500_000_000
        }
    );
}

#[test]
fn parse_rejects_local_times_and_bad_dates() {
    assert!(parse_rfc3339("2023-09-02T00:00:00")
        .unwrap_err()
        .contains("must be UTC"));
    assert!(parse_rfc3339("2023-13-02T00:00:00Z")
        .unwrap_err()
        .contains("invalid calendar date"));
    assert!(parse_rfc3339("1969-12-31T23:59:59Z")
        .unwrap_err()
        .contains("before Unix epoch"));
    assert!(parse_rfc3339("garbage").is_err());
}

#[test]
fn civil_fields_of_a_known_day() {
    assert_eq!(civil_from_days(1_693_612_800 + 3_661), (2023, 9, 2, 1, 1, 1));
    assert_eq!(days_from_civil(2023, 9, 2), Ok(19_602));
    assert!(days_from_civil(2023, 0, 2).is_err());
}

#[test]
fn panic_test_flags_only_a_split_fraction() {
    assert!(!parse_rfc3339_would_panic("2023-09-02T00:00:00.123456789Z"));
    assert!(!parse_rfc3339_would_panic("2023-09-02T00:00:00Z"));
    assert!(!parse_rfc3339_would_panic("not a timestamp"));
    assert!(parse_rfc3339_would_panic("2023-09-02T00:00:00.12345678éZ"));
    assert!(!parse_rfc3339_would_panic("2023-09-02T00:00:00.1234567é8Z"));
    assert!(parse_rfc3339_would_panic("2023-09-02T00:00:00.12345678€Z"));
    assert!(!parse_rfc3339_would_panic("2023-09-02T00:00.12345678€Z"));
}
