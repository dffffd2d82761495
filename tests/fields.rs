use perdcomp_csv_to_xlsx::{monetary_text, string_as_date, Date, DateError};

fn amount(s: &str) -> Result<f64, std::num::ParseFloatError> {
    monetary_text(s).parse::<f64>()
}

fn jan_20_2024() -> Date {
    Date { year: 2024, month: 1, day: 20 }
}

#[test]
fn test_valid_string_with_european_format() {
    assert_eq!(monetary_text("1.234.567,89"), "1234567.89");
    assert_eq!(amount("1.234.567,89").unwrap(), 1234567.89);
}

#[test]
fn test_valid_string_with_no_separators() {
    assert_eq!(amount("1234567").unwrap(), 1234567.0);
}

#[test]
fn test_empty_string() {
    assert!(amount("").is_err());
}

#[test]
fn test_invalid_string() {
    assert!(amount("abc").is_err());
}

#[test]
fn test_string_with_leading_and_trailing_whitespace() {
    assert_eq!(amount("  1.234,56  ").unwrap(), 1234.56);
}

#[test]
fn monetary_text_turns_only_last_comma() {
    assert_eq!(monetary_text("1,2,3"), "1,2.3");
    assert!(amount("1,2,3").is_err());
    assert_eq!(monetary_text("-0,5"), "-0.5");
}

#[test]
fn test_deserialize_some_date_fmt1() {
    assert_eq!(string_as_date(Some("20/01/2024")).unwrap(), Some(jan_20_2024()));
}

#[test]
fn test_deserialize_some_date_fmt2() {
    assert_eq!(string_as_date(Some("2024-1-20")).unwrap(), Some(jan_20_2024()));
}

#[test]
fn test_deserialize_some_date_with_hyphens() {
    assert_eq!(string_as_date(Some("20-1-2024")).unwrap(), Some(jan_20_2024()));
}

#[test]
fn test_deserialize_none_date() {
    assert_eq!(string_as_date(None).unwrap(), None);
}

#[test]
fn test_deserialize_some_date_with_time() {
    assert_eq!(string_as_date(Some("20/1/2024 12:30:00")).unwrap(), Some(jan_20_2024()));
}

#[test]
fn test_deserialize_some_date_with_time_t_separator() {
    assert_eq!(string_as_date(Some("20/1/2024T12:30:00")).unwrap(), Some(jan_20_2024()));
}

#[test]
fn test_deserialize_invalid_date() {
    assert!(matches!(
        string_as_date(Some("invalid date")),
        Err(DateError::Unrecognized { .. })
    ));
}

#[test]
fn empty_date_field_is_no_date() {
    assert_eq!(string_as_date(Some("")).unwrap(), None);
    assert_eq!(string_as_date(Some("  \t ")).unwrap(), None);
}

#[test]
fn time_without_date_is_an_error() {
    assert!(matches!(string_as_date(Some(" 12:30")), Err(DateError::Empty)));
}

#[test]
fn impossible_date_is_rejected() {
    assert!(string_as_date(Some("31/02/2024")).is_err());
}
