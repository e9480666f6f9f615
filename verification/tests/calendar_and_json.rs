use healthstatus::{civil_from_days, fmt_duration, json_escape, parse_wmi_date};

#[test]
fn civil_from_days_epoch_and_leap_days() {
    assert_eq!(civil_from_days(0), Some((1970, 1, 1)));
    assert_eq!(civil_from_days(-1), Some((1969, 12, 31)));
    assert_eq!(civil_from_days(59), Some((1970, 3, 1)));
    // 2000-02-29 is 11016 days after the epoch; 2000 is a leap year.
    assert_eq!(civil_from_days(11_016), Some((2000, 2, 29)));
    assert_eq!(civil_from_days(11_017), Some((2000, 3, 1)));
    // 1900 is not a leap year: 1900-02-28 is followed by 1900-03-01.
    assert_eq!(civil_from_days(-25_509), Some((1900, 2, 28)));
    assert_eq!(civil_from_days(-25_508), Some((1900, 3, 1)));
    assert_eq!(civil_from_days(-719_468), Some((0, 3, 1)));
}

#[test]
fn civil_from_days_overflow_is_none() {
    assert_eq!(civil_from_days(i64::MAX), None);
    assert!(civil_from_days(i64::MAX - 719_468).is_some());
}

#[test]
fn wmi_dates_before_the_epoch_and_around_the_text() {
    // One millisecond before the epoch is still 1969-12-31.
    assert_eq!(parse_wmi_date("/Date(-1)/").as_deref(), Some("1969-12-31"));
    assert_eq!(
        parse_wmi_date("x /Date(+86400000)/ y").as_deref(),
        Some("1970-01-02")
    );
    assert_eq!(parse_wmi_date("/Date(0)").as_deref(), None);
    assert_eq!(parse_wmi_date("/Date()/"), None);
    // Year 0 and negative years are zero padded with the sign first.
    assert_eq!(
        parse_wmi_date("/Date(-62167219200000)/").as_deref(),
        Some("0000-01-01")
    );
    assert_eq!(
        parse_wmi_date("/Date(-62198755200000)/").as_deref(),
        Some("-001-01-01")
    );
}

#[test]
fn duration_edges() {
    assert_eq!(fmt_duration(0), "0m 0s");
    assert_eq!(fmt_duration(86_400), "1d 0h 0m");
    assert_eq!(fmt_duration(3_600), "1h 0m");
}

#[test]
fn json_escape_short_and_unicode_escapes() {
    assert_eq!(json_escape("plain"), "plain");
    assert_eq!(json_escape("a\"b\\c"), "a\\\"b\\\\c");
    assert_eq!(json_escape("l1\nl2\r\t"), "l1\\nl2\\r\\t");
    assert_eq!(json_escape("\u{1}\u{7f}\u{9f}"), "\\u0001\\u007f\\u009f");
    assert_eq!(json_escape("é✓"), "é✓");
}

#[test]
fn plain_text_is_not_escaped() {
    assert_eq!(json_escape("Ubuntu 22.04 LTS / x86_64"), "Ubuntu 22.04 LTS / x86_64");
    assert_eq!(json_escape("naïve ☃"), "naïve ☃");
}
