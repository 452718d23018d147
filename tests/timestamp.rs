use gh_notify_bridge::timestamp::{
    civil_from_unix, cutoff, MAX_FOUR_DIGIT_SECS, format_unix_to_iso, parse_wire, render_wire, wire_less, WireTime,
};

fn wt(year: u64, month: u64, day: u64, hour: u64, minute: u64, second: u64) -> WireTime {
    WireTime { year, month, day, hour, minute, second }
}

#[test]
fn formats_epoch() {
    assert_eq!(format_unix_to_iso(0), "1970-01-01T00:00:00Z");
}

#[test]
fn formats_known_instant() {
    assert_eq!(format_unix_to_iso(1705147200), "2024-01-13T12:00:00Z");
}

#[test]
fn formats_leap_day() {
    assert_eq!(format_unix_to_iso(1709164800), "2024-02-29T00:00:00Z");
    assert_eq!(format_unix_to_iso(951827696), "2000-02-29T12:34:56Z");
}

#[test]
fn formats_year_boundary() {
    assert_eq!(format_unix_to_iso(1704067199), "2023-12-31T23:59:59Z");
    assert_eq!(format_unix_to_iso(1704067200), "2024-01-01T00:00:00Z");
}

#[test]
fn century_year_is_not_leap() {
    assert_eq!(format_unix_to_iso(4107542399), "2100-02-28T23:59:59Z");
    assert_eq!(format_unix_to_iso(4107542400), "2100-03-01T00:00:00Z");
}

#[test]
fn formats_last_four_digit_second() {
    assert_eq!(format_unix_to_iso(253402300799), "9999-12-31T23:59:59Z");
    assert_eq!(format_unix_to_iso(253402300800), "10000-01-01T00:00:00Z");
}

#[test]
fn civil_form_of_leap_day() {
    assert_eq!(civil_from_unix(951827696), wt(2000, 2, 29, 12, 34, 56));
}

#[test]
fn render_pads_fields() {
    assert_eq!(render_wire(&wt(2024, 3, 5, 7, 8, 9)), "2024-03-05T07:08:09Z");
}

#[test]
fn round_trip_components() {
    for secs in [0u64, 951827696, 1704067199, 1704067200, 1709164800, 4107542400, 253402300799] {
        let s = format_unix_to_iso(secs);
        assert_eq!(parse_wire(&s), Some(civil_from_unix(secs)));
    }
}

#[test]
fn parses_wire_timestamp() {
    assert_eq!(parse_wire("2024-01-13T12:00:00Z"), Some(wt(2024, 1, 13, 12, 0, 0)));
    assert_eq!(parse_wire("10000-01-01T00:00:00Z"), Some(wt(10000, 1, 1, 0, 0, 0)));
}

#[test]
fn parse_rejects_malformed() {
    assert_eq!(parse_wire(""), None);
    assert_eq!(parse_wire("2024-01-13 12:00:00Z"), None);
    assert_eq!(parse_wire("2024-01-13T12:00:00"), None);
    assert_eq!(parse_wire("202a-01-13T12:00:00Z"), None);
    assert_eq!(parse_wire("024-01-13T12:00:00Z"), None);
}

#[test]
fn parse_rejects_impossible_dates() {
    assert_eq!(parse_wire("2024-13-01T00:00:00Z"), None);
    assert_eq!(parse_wire("2023-02-29T00:00:00Z"), None);
    assert_eq!(parse_wire("2024-04-31T00:00:00Z"), None);
    assert_eq!(parse_wire("2024-01-01T24:00:00Z"), None);
    assert_eq!(parse_wire("2024-01-01T00:60:00Z"), None);
    assert_eq!(parse_wire("99999999999999999999-01-01T00:00:00Z"), None);
}

#[test]
fn cutoff_is_window_before_now() {
    assert_eq!(cutoff(1705147200, 60), "2024-01-13T11:59:00Z");
    assert_eq!(cutoff(1704067200, 1), "2023-12-31T23:59:59Z");
}

#[test]
fn cutoff_sorts_before_now() {
    for now in [60u64, 1704067200, 1709164800, 253402300799] {
        assert!(now <= MAX_FOUR_DIGIT_SECS);
        let c = cutoff(now, 60);
        let n = format_unix_to_iso(now);
        assert!(c <= n);
        assert!(wire_less(&c, &n));
    }
}

#[test]
fn wire_less_is_character_order() {
    assert!(wire_less("2024-01-13T11:59:00Z", "2024-01-13T12:00:00Z"));
    assert!(!wire_less("2024-01-13T12:00:00Z", "2024-01-13T12:00:00Z"));
    assert!(!wire_less("2024-01-13T12:00:01Z", "2024-01-13T12:00:00Z"));
    assert!(wire_less("", "a"));
    assert!(wire_less("ab", "abc"));
    assert!(!wire_less("abc", "ab"));
}

#[test]
fn five_digit_years_break_string_order() {
    let now = 253402300830u64;
    assert_eq!(cutoff(now, 60), "9999-12-31T23:59:30Z");
    assert_eq!(format_unix_to_iso(now), "10000-01-01T00:00:30Z");
    assert!(!wire_less(&cutoff(now, 60), &format_unix_to_iso(now)));
}
