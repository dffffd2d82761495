use perdcomp_csv_to_xlsx::{format_input_csv_file, monetary_text, normalize_line, Arguments};

fn args_with(delimiter: char) -> Arguments {
    Arguments::build(delimiter, false, "input.csv".to_string(), false, false, false)
}

#[test]
fn end_to_end_header_and_amounts() {
    let content = "PER/DCOMP;foo;Período Apuração Crédito;Tipo Crédito;Valor Total Crédito;foo\n\
                   123;x;3º TRIMESTRE de 2021;IPI;1.234,56;y\n\
                   456;z;4º Trimestre 2024;PIS;7,5;w\n";
    let out = format_input_csv_file(&args_with(';'), content.as_bytes(), "input.csv").unwrap();
    let first = out.lines().next().unwrap();
    assert_eq!(
        first,
        "PER/DCOMP;foo;Período Apuração Crédito;Tipo Crédito;Valor Total Crédito;foo [2]"
    );

    let mut reader = csv::ReaderBuilder::new()
        .delimiter(b';')
        .trim(csv::Trim::All)
        .from_reader(out.as_bytes());
    let headers = reader.headers().unwrap().clone();
    let column = headers.iter().position(|h| h == "Valor Total Crédito").unwrap();
    let values: Vec<f64> = reader
        .records()
        .map(|r| monetary_text(&r.unwrap()[column]).parse::<f64>().unwrap())
        .collect();
    assert_eq!(values, vec![1234.56, 7.5]);
}

#[test]
fn misspelled_column_is_corrected() {
    let content = "UA Detentor Crédito,x\n1,2\n";
    let out = format_input_csv_file(&args_with(','), content.as_bytes(), "f.csv").unwrap();
    assert_eq!(out, "UA Detentor do Crédito,x\n1,2\n");
}

#[test]
fn last_line_without_newline_is_kept() {
    let out = format_input_csv_file(&args_with(','), b"a,b\n1,2", "f.csv").unwrap();
    assert_eq!(out, "a,b\n1,2\n");
}

#[test]
fn blank_inner_line_is_kept() {
    let out = format_input_csv_file(&args_with(','), b"a\n\n3\n", "f.csv").unwrap();
    assert_eq!(out, "a\n\n3\n");
}

#[test]
fn empty_file_gives_empty_output() {
    assert_eq!(format_input_csv_file(&args_with(','), b"", "f.csv").unwrap(), "");
}

#[test]
fn mixed_encodings_come_out_as_utf8() {
    let content = b"Tipo Cr\xc3\xa9dito,Situa\xc3\xa7\xc3\xa3o\nD\xe9bito,ok\n";
    let out = format_input_csv_file(&args_with(','), content, "f.csv").unwrap();
    assert_eq!(out, "Tipo Crédito,Situação\nDébito,ok\n");
}

#[test]
fn body_lines_are_not_deduplicated() {
    assert_eq!(normalize_line(1, "a,a,a", &args_with(',')), "a,a,a");
    assert_eq!(normalize_line(0, "a,a,a", &args_with(',')), "a,a [2],a [3]");
}

#[test]
fn end_to_end_comma_delimited_three_lines() {
    let content = "PER/DCOMP,foo,Período Apuração Crédito,Tipo Crédito,Valor Total Crédito,foo\n\
                   1,a,3º TRIMESTRE de 2021,IPI,\"1.234,56\",b\n\
                   2,c,4º Trimestre 2024,PIS,\"7,5\",d\n";
    let out = format_input_csv_file(&args_with(','), content.as_bytes(), "input.csv").unwrap();
    let lines: Vec<&str> = out.lines().collect();
    assert_eq!(lines.len(), 3);
    assert_eq!(
        lines[0],
        "PER/DCOMP,foo,Período Apuração Crédito,Tipo Crédito,Valor Total Crédito,foo [2]"
    );
    assert_eq!(lines[1], "1,a,3º TRIMESTRE de 2021,IPI,\"1.234,56\",b");
    assert_eq!(lines[2], "2,c,4º Trimestre 2024,PIS,\"7,5\",d");
}

#[test]
fn windows_1252_body_line_never_fails() {
    let out = format_input_csv_file(&args_with(','), b"a\nPer\xedodo\n", "f.csv").unwrap();
    assert_eq!(out, "a\nPeríodo\n");
}
