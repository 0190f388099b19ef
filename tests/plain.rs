use csv_schema::csv::{collect_fields, csv_line_to_json, csv_line_to_payment, field_to_value, is_digit, DigitType};
use csv_schema::schema::{DataType, FieldSpec, Schema};
use csv_schema::validate::TypedValue;

fn split_like_std(line: &str, sep: &str) -> Vec<String> {
    line.split(sep).map(|s| s.trim().to_string()).collect()
}

#[test]
fn plain_split_matches_std() {
    for (line, sep) in [("a,,b", ","), ("x::y::", "::"), ("aaa", "aa"), ("ab", ""), ("", ""), ("", ","), ("a b", " ")] {
        assert_eq!(collect_fields(line, sep), split_like_std(line, sep), "{:?} {:?}", line, sep);
    }
}

#[test]
fn plain_split_ignores_quotes() {
    assert_eq!(collect_fields("\"a,b\",c", ","), vec!["a", "b", "c"]);
}

#[test]
fn digit_kinds() {
    assert_eq!(is_digit("123"), Some(DigitType::Integer));
    assert_eq!(is_digit("-12"), Some(DigitType::Integer));
    assert_eq!(is_digit("1.5"), Some(DigitType::Float));
    assert_eq!(is_digit("-"), None);
    assert_eq!(is_digit("1-2"), None);
    assert_eq!(is_digit("1.2.3"), None);
    assert_eq!(is_digit(""), None);
    assert_eq!(is_digit("12a"), None);
}

#[test]
fn plain_values() {
    assert_eq!(field_to_value("42"), TypedValue::Int(42));
    assert_eq!(field_to_value("-0.5"), TypedValue::Float("-0.5".to_string()));
    assert_eq!(field_to_value("true"), TypedValue::Bool(true));
    assert_eq!(field_to_value("false"), TypedValue::Bool(false));
    assert_eq!(field_to_value("-"), TypedValue::Null);
    assert_eq!(field_to_value("null"), TypedValue::Null);
    assert_eq!(field_to_value(""), TypedValue::Null);
    assert_eq!(field_to_value("."), TypedValue::Str(".".to_string()));
    assert_eq!(field_to_value("hello"), TypedValue::Str("hello".to_string()));
}

#[test]
fn plain_line_object() {
    let headers = vec!["a".to_string(), "b".to_string(), "a".to_string()];
    let rec = csv_line_to_json("1,x,2,extra", ",", &headers);
    assert_eq!(rec, vec![("a".to_string(), TypedValue::Int(2)), ("b".to_string(), TypedValue::Str("x".to_string()))]);
}

fn field(name: &str, ty: DataType, optional: bool, aliases: &[&str]) -> FieldSpec {
    FieldSpec {
        name: name.to_string(),
        field_type: ty,
        default: None,
        default_value: None,
        optional,
        aliases: aliases.iter().map(|a| a.to_string()).collect(),
    }
}

#[test]
fn checked_line() {
    let schema = Schema::new(vec![
        field("amount", DataType::Int, false, &["amt", "total"]),
        field("note", DataType::String, true, &["note"]),
    ])
    .unwrap();
    let headers = vec!["amt".to_string(), "note".to_string(), "other".to_string(), "total".to_string()];
    let rec = csv_line_to_payment("5,,x,7", ",", &headers, &schema).unwrap();
    assert_eq!(rec, vec![("amount".to_string(), TypedValue::Int(7)), ("note".to_string(), TypedValue::Null)]);
    assert_eq!(csv_line_to_payment("five,hi", ",", &headers, &schema), None);
    let rec = csv_line_to_payment("1", ",", &headers, &schema).unwrap();
    assert_eq!(rec, vec![("amount".to_string(), TypedValue::Int(1))]);
}
