use csv_schema::field::collect_fields;
use csv_schema::utils::clean_line;

#[test]
fn test_collect() {
    let ans = vec!["aidan,inc", "other", "0.12", "00"];
    let input = "\"aidan,inc\",other,0.12,00";
    let sep = ',';
    assert_eq!(collect_fields(input, &sep), ans);
}

#[test]
fn empty_line_gives_one_empty_field() {
    assert_eq!(collect_fields("", &','), vec![""]);
}

#[test]
fn delimiters_at_both_ends_give_empty_fields() {
    assert_eq!(collect_fields(",a,", &','), vec!["", "a", ""]);
}

#[test]
fn unbalanced_quote_keeps_the_rest_in_one_field() {
    assert_eq!(collect_fields("a,\"b,c", &','), vec!["a", "b,c"]);
}

#[test]
fn other_delimiter_and_trimming() {
    assert_eq!(collect_fields(" x ; y\r\n", &';'), vec!["x", "y"]);
}

#[test]
fn clean_line_drops_unwanted_characters() {
    assert_eq!(clean_line("  \"a\\b\u{e9}c\"\t\r\n"), "abc");
    assert_eq!(clean_line("   "), "");
    assert_eq!(clean_line("a b"), "a b");
}

#[test]
fn rejoined_fields_tokenize_the_same() {
    let fields = collect_fields("\"aidan,inc\", other ,0.12,00", &',');
    let joined: Vec<String> = fields
        .iter()
        .map(|f| if f.contains(',') { format!("\"{}\"", f) } else { f.clone() })
        .collect();
    let line = joined.join(",");
    assert_eq!(collect_fields(&line, &','), fields);
}
