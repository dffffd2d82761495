use perdcomp_csv_to_xlsx::period::{first_four_digit_number, parse_u32};
use perdcomp_csv_to_xlsx::Period;

fn period_after(label: &str, ano: Option<u32>) -> Period {
    let mut p = Period { trimestre_de_apuracao: Some(label.to_string()), ano };
    p.get_year();
    p
}

#[test]
fn quarter_label_with_de() {
    let p = period_after("3º TRIMESTRE de 2021", None);
    assert_eq!(p.trimestre_de_apuracao, Some("3º TRIMESTRE".to_string()));
    assert_eq!(p.ano, Some(2021));
}

#[test]
fn quarter_label_with_space() {
    let p = period_after("4º Trimestre 2024", None);
    assert_eq!(p.trimestre_de_apuracao, Some("4º Trimestre".to_string()));
    assert_eq!(p.ano, Some(2024));
}

#[test]
fn quarter_label_with_slash() {
    let p = period_after("4º trimestre/2023", Some(1999));
    assert_eq!(p.trimestre_de_apuracao, Some("4º trimestre".to_string()));
    assert_eq!(p.ano, Some(2023));
}

#[test]
fn date_label_gives_year_only() {
    let p = period_after("25/05/2023 12:39:04", None);
    assert_eq!(p.trimestre_de_apuracao, Some("25/05/2023 12:39:04".to_string()));
    assert_eq!(p.ano, Some(2023));
}

#[test]
fn four_digit_number_gives_year_only() {
    let p = period_after("Exercício 2022 (ajuste)", None);
    assert_eq!(p.trimestre_de_apuracao, Some("Exercício 2022 (ajuste)".to_string()));
    assert_eq!(p.ano, Some(2022));
}

#[test]
fn label_without_year_changes_nothing() {
    let p = period_after("sem ano", Some(7));
    assert_eq!(p.trimestre_de_apuracao, Some("sem ano".to_string()));
    assert_eq!(p.ano, Some(7));
}

#[test]
fn missing_label_changes_nothing() {
    let mut p = Period { trimestre_de_apuracao: None, ano: Some(5) };
    p.get_year();
    assert_eq!(p.trimestre_de_apuracao, None);
    assert_eq!(p.ano, Some(5));
}

#[test]
fn parse_u32_reads_ascii_digits() {
    assert_eq!(parse_u32("2021"), Some(2021));
    assert_eq!(parse_u32("4294967295"), Some(u32::MAX));
    assert_eq!(parse_u32("4294967296"), None);
    assert_eq!(parse_u32(""), None);
    assert_eq!(parse_u32("12a"), None);
}

#[test]
fn first_four_digit_number_skips_longer_numbers() {
    assert_eq!(first_four_digit_number("abc 12345 2021x"), Some(2021));
    assert_eq!(first_four_digit_number("123"), None);
    assert_eq!(first_four_digit_number("0042"), Some(42));
}
