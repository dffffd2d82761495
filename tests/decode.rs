use perdcomp_csv_to_xlsx::{get_first_line, get_string_utf8};

#[test]
fn utf8_line_is_returned_unchanged() {
    let text = "Período Apuração Crédito";
    assert_eq!(get_string_utf8(text.as_bytes(), 1, "f.csv").unwrap(), text);
}

#[test]
fn windows_1252_line_is_decoded() {
    let bytes: Vec<u8> = vec![0x43, 0x72, 0xE9, 0x64, 0x69, 0x74, 0x6F, 0x20, 0x80, 0x20, 0xBA];
    assert_eq!(get_string_utf8(&bytes, 2, "f.csv").unwrap(), "Crédito € º");
}

#[test]
fn empty_line_decodes_to_empty_text() {
    assert_eq!(get_string_utf8(&[], 3, "f.csv").unwrap(), "");
}

#[test]
fn first_line_is_trimmed_then_decoded() {
    let bytes = b"  PER/DCOMP;Tipo Cr\xe9dito\r\n";
    assert_eq!(get_first_line(bytes, "f.csv").unwrap(), "PER/DCOMP;Tipo Crédito");
}

#[test]
fn first_line_of_blank_bytes_is_empty() {
    assert_eq!(get_first_line(b" \t\r\n", "f.csv").unwrap(), "");
}

#[test]
fn windows_1252_periodo_is_decoded() {
    let bytes: Vec<u8> = vec![0x50, 0x65, 0x72, 0xED, 0x6F, 0x64, 0x6F];
    let text = get_string_utf8(&bytes, 4, "f.csv").unwrap();
    assert_eq!(text, "Período");
    assert_eq!(text.chars().count(), bytes.len());
}

#[test]
fn windows_1252_table_bytes_are_decoded() {
    let bytes: Vec<u8> = vec![0x81, 0x8A, 0x9F, 0xFF];
    assert_eq!(get_string_utf8(&bytes, 1, "f.csv").unwrap(), "\u{81}\u{160}\u{178}\u{ff}");
}
