use remind4f::date::{parse_date, render_date, Date};

#[test]
fn parses_iso_dates() {
    assert_eq!(parse_date("2030-01-01"), Some(Date { year: 2030, month: 1, day: 1 }));
    assert_eq!(parse_date("0000-01-01"), Some(Date { year: 0, month: 1, day: 1 }));
    assert_eq!(parse_date("9999-12-31"), Some(Date { year: 9999, month: 12, day: 31 }));
}

#[test]
fn rejects_non_dates() {
    assert_eq!(parse_date("2024-13-40"), None);
    assert_eq!(parse_date("2024-00-10"), None);
    assert_eq!(parse_date("2024-01-32"), None);
    assert_eq!(parse_date("2024-04-31"), None);
    assert_eq!(parse_date("24-01-01"), None);
    assert_eq!(parse_date("2024/01/01"), None);
    assert_eq!(parse_date("2024-1-1"), None);
    assert_eq!(parse_date(""), None);
    assert_eq!(parse_date("2024-01-01 "), None);
}

#[test]
fn knows_leap_years() {
    assert!(parse_date("2024-02-29").is_some());
    assert_eq!(parse_date("2023-02-29"), None);
    assert!(parse_date("2000-02-29").is_some());
    assert_eq!(parse_date("1900-02-29"), None);
}

#[test]
fn renders_dates_zero_padded() {
    assert_eq!(render_date(&Date { year: 2024, month: 1, day: 9 }), "2024-01-09");
    assert_eq!(render_date(&Date { year: 42, month: 11, day: 30 }), "0042-11-30");
}

#[test]
fn render_parse_round_trip() {
    let d = Date::new(2028, 2, 29).unwrap();
    assert_eq!(parse_date(&render_date(&d)), Some(d));
}

#[test]
fn day_numbers_order_dates() {
    let a = Date::new(2029, 12, 30).unwrap();
    let b = Date::new(2030, 1, 1).unwrap();
    assert_eq!(b.day_number_exec() - a.day_number_exec(), 2);
    let c = Date::new(2024, 2, 28).unwrap();
    let d = Date::new(2024, 3, 1).unwrap();
    assert_eq!(d.day_number_exec() - c.day_number_exec(), 2);
    let e = Date::new(2023, 2, 28).unwrap();
    let f = Date::new(2023, 3, 1).unwrap();
    assert_eq!(f.day_number_exec() - e.day_number_exec(), 1);
}

#[test]
fn rejects_invalid_triples() {
    assert_eq!(Date::new(2024, 2, 30), None);
    assert_eq!(Date::new(2024, 13, 1), None);
    assert_eq!(Date::new(10000, 1, 1), None);
    assert!(Date::new(2024, 12, 31).is_some());
}
