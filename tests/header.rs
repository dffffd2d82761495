use perdcomp_csv_to_xlsx::{
    deduplicate, get_fields_without_duplication, get_frequency, join_fields, parse_line, Arguments,
};

fn strings(names: &[&str]) -> Vec<String> {
    names.iter().map(|s| s.to_string()).collect()
}

fn comma_args() -> Arguments {
    Arguments::build(',', false, "input.csv".to_string(), false, false, false)
}

#[test]
fn parse_line_keeps_quoted_text_and_trims() {
    let line: &str = r#"a, b, "foo \nbar",def , the other"#;
    let cols = parse_line(line, ',');
    assert_eq!(cols, vec!["a", "b", "\"foo \\nbar\"", "def", "the other"]);
}

#[test]
fn parse_line_quoted_field_holds_delimiter() {
    let cols = parse_line("x;\"a;b\";y", ';');
    assert_eq!(cols, vec!["x", "a;b", "y"]);
}

#[test]
fn parse_line_empty_line_gives_no_fields() {
    assert!(parse_line("", ',').is_empty());
}

#[test]
fn deduplicate_numbers_repeats() {
    let cols = strings(&["A", "B", "A", "A"]);
    assert_eq!(deduplicate(&cols), strings(&["A", "B", "A [2]", "A [3]"]));
}

#[test]
fn deduplicate_unique_names_unchanged() {
    let cols = strings(&["PER/DCOMP", "Tipo Crédito", "Ano", "Motivo"]);
    assert_eq!(deduplicate(&cols), cols);
}

#[test]
fn deduplicate_twice_without_collision_is_stable() {
    let once = deduplicate(&strings(&["A", "B", "A", "B", "A"]));
    assert_eq!(once, strings(&["A", "B", "A [2]", "B [2]", "A [3]"]));
    assert_eq!(deduplicate(&once), once);
}

#[test]
fn deduplicate_twice_with_collision_changes() {
    let once = deduplicate(&strings(&["A", "A", "A [2]"]));
    assert_eq!(once, strings(&["A", "A [2]", "A [2]"]));
    let twice = deduplicate(&once);
    assert_eq!(twice, strings(&["A", "A [2]", "A [2] [2]"]));
}

#[test]
fn deduplicate_counts_past_nine() {
    let cols = strings(&["X"; 12]);
    let out = deduplicate(&cols);
    assert_eq!(out[0], "X");
    assert_eq!(out[9], "X [10]");
    assert_eq!(out[11], "X [12]");
}

#[test]
fn frequency_counts_each_name_once() {
    let cols = strings(&["A", "B", "A", "A"]);
    let table = get_frequency(&cols);
    assert_eq!(table.len(), 2);
    assert_eq!(table[0].name, "A");
    assert_eq!(table[0].count, 3);
    assert_eq!(table[1].name, "B");
    assert_eq!(table[1].count, 1);
}

#[test]
fn frequency_of_empty_header_is_empty() {
    assert!(get_frequency(&Vec::new()).is_empty());
}

#[test]
fn join_quotes_field_holding_delimiter() {
    let fields = strings(&["a,b", "c", "say \"hi\", ok"]);
    assert_eq!(join_fields(&fields, ','), "\"a,b\",c,\"say \\\"hi\\\", ok\"");
}

#[test]
fn join_without_delimiter_in_fields() {
    assert_eq!(join_fields(&strings(&["a", "b", "c"]), ';'), "a;b;c");
    assert_eq!(join_fields(&Vec::new(), ';'), "");
}

#[test]
fn header_line_numbers_and_rejoins() {
    let line = "A, B ,A,\"C,D\",A";
    assert_eq!(
        get_fields_without_duplication(line, &comma_args()),
        "A,B,A [2],\"C,D\",A [3]"
    );
}

#[test]
fn header_line_of_delimiter_only_header() {
    assert_eq!(get_fields_without_duplication(",", &comma_args()), ", [2]");
}
