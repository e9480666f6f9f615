use healthstatus::{fmt_duration, parse_wmi_date};

#[test]
fn formats_duration() {
    assert_eq!(fmt_duration(59), "0m 59s");
    assert_eq!(fmt_duration(60), "1m 0s");
    assert_eq!(fmt_duration(3661), "1h 1m");
    assert_eq!(fmt_duration(90_061), "1d 1h 1m");
}

#[test]
fn parses_wmi_dates() {
    assert_eq!(
        parse_wmi_date("/Date(1587340800000)/").as_deref(),
        Some("2020-04-20")
    );
    assert_eq!(parse_wmi_date("not a date"), None);
    assert_eq!(parse_wmi_date("/Date(nope)/"), None);
}
