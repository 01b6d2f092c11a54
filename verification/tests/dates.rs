use logbook::{is_date_shaped, is_valid_date};

#[test]
fn recognizes_date_shape() {
    for valid in ["2026-05-16", "0001-01-01", "9999-12-31"] {
        assert!(is_date_shaped(valid), "{valid}");
    }
    for invalid in [
        "",
        "2026-5-16",
        "2026-05-16T00:00:00",
        "banana1234",
        "2026/05/16",
        "2O26-05-16",
        "20-2605-16",
        "2026-0516-",
    ] {
        assert!(!is_date_shaped(invalid), "{invalid}");
    }
}

#[test]
fn validates_calendar_dates() {
    assert!(is_valid_date("2024-02-29"));
    assert!(!is_valid_date("2023-02-29"));
    assert!(!is_valid_date("2026-13-01"));
    assert!(!is_valid_date("banana"));
}

#[test]
fn calendar_rules_cover_month_lengths_and_centuries() {
    assert!(is_valid_date("2000-02-29"));
    assert!(!is_valid_date("1900-02-29"));
    assert!(is_valid_date("2026-04-30"));
    assert!(!is_valid_date("2026-04-31"));
    assert!(is_valid_date("2026-12-31"));
    assert!(!is_valid_date("2026-00-10"));
    assert!(!is_valid_date("2026-01-00"));
    assert!(!is_valid_date("2026-1-01"));
    assert!(is_valid_date("0001-01-01"));
}

#[test]
fn a_non_ascii_ten_character_value_is_not_a_date() {
    assert!(!is_date_shaped("２０２６-05-16"));
    assert!(!is_valid_date("２０２６-05-16"));
}
