use csv_schema::parser::{CSVParser, ParseError};
use csv_schema::schema::{DataType, FieldSpec, Schema, SchemaError};
use csv_schema::validate::{date_value, validate_field, TypedValue};

fn spec(name: &str, ty: DataType, optional: bool, default: Option<&str>, aliases: &[&str]) -> FieldSpec {
    FieldSpec {
        name: name.to_string(),
        field_type: ty,
        default: default.map(|d| d.to_string()),
        default_value: None,
        optional,
        aliases: aliases.iter().map(|a| a.to_string()).collect(),
    }
}

fn lines(ls: &[&str]) -> Vec<String> {
    ls.iter().map(|l| l.to_string()).collect()
}

fn amt_schema() -> Schema {
    Schema::new(vec![spec("amt", DataType::Float, false, None, &["amt"])]).unwrap()
}

#[test]
fn float_field_parses() {
    let schema = amt_schema();
    let mut p = CSVParser::new(lines(&["amt", "12.5"]), &schema, &',');
    let rec = p.next().unwrap();
    assert_eq!(rec.len(), 1);
    assert_eq!(rec[0].0, "amt");
    match &rec[0].1 {
        TypedValue::Float(t) => assert_eq!(t.parse::<f64>().unwrap(), 12.5),
        other => panic!("unexpected {:?}", other),
    }
}

#[test]
fn empty_line_is_bad_float() {
    let schema = amt_schema();
    let mut p = CSVParser::new(lines(&["amt", ""]), &schema, &',');
    match p.next() {
        Err(ParseError::BadField(info)) => {
            assert_eq!(info.field_name, "amt");
            assert_eq!(info.field_type, DataType::Float);
            assert_eq!(info.value, "");
        }
        other => panic!("unexpected {:?}", other),
    }
}

#[test]
fn bad_float_token() {
    let schema = amt_schema();
    let mut p = CSVParser::new(lines(&["amt", "abc"]), &schema, &',');
    match p.next() {
        Err(ParseError::BadField(info)) => {
            assert_eq!(info.field_type, DataType::Float);
            assert_eq!(info.value, "abc");
        }
        other => panic!("unexpected {:?}", other),
    }
}

#[test]
fn end_of_input_repeats() {
    let schema = amt_schema();
    let mut p = CSVParser::new(lines(&["amt", "1"]), &schema, &',');
    assert!(p.next().is_ok());
    assert!(matches!(p.next(), Err(ParseError::EndOfInput)));
    assert!(matches!(p.next(), Err(ParseError::EndOfInput)));
}

#[test]
fn errors_do_not_end_the_stream() {
    let schema = amt_schema();
    let mut p = CSVParser::new(lines(&["amt", "x", "2"]), &schema, &',');
    assert!(matches!(p.next(), Err(ParseError::BadField(_))));
    assert!(p.next().is_ok());
    assert!(matches!(p.next(), Err(ParseError::EndOfInput)));
}

#[test]
fn optional_int_without_column_is_null() {
    let schema = Schema::new(vec![
        spec("id", DataType::Int, false, None, &["ID"]),
        spec("n", DataType::Int, true, None, &[]),
    ])
    .unwrap();
    let mut p = CSVParser::new(lines(&["ID", "-42"]), &schema, &',');
    let rec = p.next().unwrap();
    assert_eq!(rec, vec![("id".to_string(), TypedValue::Int(-42)), ("n".to_string(), TypedValue::Null)]);
}

#[test]
fn default_replaces_rejected_token() {
    let schema = Schema::new(vec![spec("n", DataType::Uint, false, Some("7"), &["n"])]).unwrap();
    let mut p = CSVParser::new(lines(&["n", "oops"]), &schema, &',');
    let rec = p.next().unwrap();
    assert_eq!(rec, vec![("n".to_string(), TypedValue::Uint(7))]);
}

#[test]
fn missing_required_field() {
    let schema = Schema::new(vec![
        spec("a", DataType::String, false, None, &["a"]),
        spec("b", DataType::String, false, Some("x"), &["bee"]),
    ])
    .unwrap();
    let mut p = CSVParser::new(lines(&["a,zzz", "hello,1"]), &schema, &',');
    match p.next() {
        Err(ParseError::MissingField(n)) => assert_eq!(n, "b"),
        other => panic!("unexpected {:?}", other),
    }
}

#[test]
fn bad_field_wins_over_missing_field() {
    let schema = Schema::new(vec![
        spec("a", DataType::String, false, None, &["a"]),
        spec("b", DataType::Int, false, None, &["b"]),
    ])
    .unwrap();
    let mut p = CSVParser::new(lines(&["b", "x"]), &schema, &',');
    assert!(matches!(p.next(), Err(ParseError::BadField(_))));
}

#[test]
fn first_column_of_a_field_wins() {
    let schema = Schema::new(vec![spec("v", DataType::Int, false, None, &["x", "y"])]).unwrap();
    let mut p = CSVParser::new(lines(&["x,y", "1,bad"]), &schema, &',');
    let rec = p.next().unwrap();
    assert_eq!(rec, vec![("v".to_string(), TypedValue::Int(1))]);
}

#[test]
fn later_spec_wins_a_shared_alias() {
    let schema = Schema::new(vec![
        spec("first", DataType::String, true, None, &["col"]),
        spec("second", DataType::String, true, None, &["col"]),
    ])
    .unwrap();
    assert_eq!(schema.resolve(&"col".to_string()), Some(1));
    assert_eq!(schema.resolve(&"first".to_string()), None);
    assert_eq!(schema.resolve(&"none".to_string()), None);
    let mut p = CSVParser::new(lines(&["col", "v"]), &schema, &',');
    let rec = p.next().unwrap();
    assert_eq!(
        rec,
        vec![("second".to_string(), TypedValue::Str("v".to_string())), ("first".to_string(), TypedValue::Null)]
    );
}

#[test]
fn invalid_default_fails_schema() {
    match Schema::new(vec![spec("n", DataType::Int, false, Some("1.5"), &[])]) {
        Err(SchemaError::InvalidDefault { name, default, field_type }) => {
            assert_eq!(name, "n");
            assert_eq!(default, "1.5");
            assert_eq!(field_type, DataType::Int);
        }
        other => panic!("unexpected {:?}", other.is_ok()),
    }
}

#[test]
fn quoted_delimiter_in_data() {
    let schema = Schema::new(vec![
        spec("name", DataType::String, false, None, &["name"]),
        spec("country", DataType::Country, false, None, &["country"]),
    ])
    .unwrap();
    let mut p = CSVParser::new(lines(&["name,country\n", "\"aidan, inc\",IE\n"]), &schema, &',');
    let rec = p.next().unwrap();
    assert_eq!(
        rec,
        vec![
            ("name".to_string(), TypedValue::Str("aidan, inc".to_string())),
            ("country".to_string(), TypedValue::Str("IE".to_string())),
        ]
    );
}

fn check(tok: &str, ty: DataType, optional: bool) -> Option<TypedValue> {
    validate_field(tok, &spec("f", ty, optional, None, &[]))
}

#[test]
fn float_syntax() {
    for ok in ["1", "1.", ".5", "-1.5e10", "+2E-3", "007", "1.e5", "+.5", "1e05"] {
        assert_eq!(check(ok, DataType::Float, false), Some(TypedValue::Float(ok.to_string())), "{}", ok);
        assert!(ok.parse::<f64>().is_ok());
    }
    for word in ["inf", "-Infinity", "NaN", "-nan", "INFINITY"] {
        assert!(word.parse::<f64>().is_ok());
        assert_eq!(check(word, DataType::Float, false), None, "{}", word);
    }
    for bad in ["", ".", "e5", "1e", "1.2.3", "--1", "1e+", "abc", " 1", "in", ".e5", "1e5.0", "infx", "+"] {
        assert_eq!(check(bad, DataType::Float, true), None, "{}", bad);
        assert!(bad.parse::<f64>().is_err());
    }
}

#[test]
fn integer_syntax() {
    assert_eq!(check("+12", DataType::Int, false), Some(TypedValue::Int(12)));
    assert_eq!(check("-170141183460469231731687303715884105728", DataType::Int, false), Some(TypedValue::Int(i128::MIN)));
    assert_eq!(check("170141183460469231731687303715884105728", DataType::Int, false), None);
    assert_eq!(check("-1", DataType::Uint, false), None);
    assert_eq!(check("340282366920938463463374607431768211455", DataType::Uint, false), Some(TypedValue::Uint(u128::MAX)));
    assert_eq!(check("1.0", DataType::Int, false), None);
}

#[test]
fn string_and_bool() {
    assert_eq!(check("", DataType::String, true), Some(TypedValue::Null));
    assert_eq!(check("", DataType::String, false), None);
    assert_eq!(check("hi", DataType::String, false), Some(TypedValue::Str("hi".to_string())));
    assert_eq!(check("true", DataType::Bool, false), Some(TypedValue::Bool(true)));
    assert_eq!(check("false", DataType::Bool, false), Some(TypedValue::Bool(false)));
    assert_eq!(check("yes", DataType::Bool, false), None);
}

#[test]
fn dates() {
    match check("2021-05-01", DataType::Date, false) {
        Some(TypedValue::Str(s)) => assert!(s.contains("2021")),
        other => panic!("unexpected {:?}", other),
    }
    assert_eq!(check("not a date", DataType::Date, true), None);
    assert_eq!(check("10:00 +9900", DataType::Date, false), None);
    assert_eq!(check("10:00 +2400", DataType::Date, false), None);
}

#[test]
fn date_value_from_parser_result() {
    assert_eq!(date_value(Some("2021-05-01 00:00:00 UTC".to_string())), Some(TypedValue::Str("2021-05-01 00:00:00 UTC".to_string())));
    assert_eq!(date_value(None), None);
}

#[test]
fn name_alone_does_not_match_a_header() {
    let schema = Schema::new(vec![spec("n", DataType::Int, false, None, &[])]).unwrap();
    let mut p = CSVParser::new(lines(&["n", "1"]), &schema, &',');
    match p.next() {
        Err(ParseError::MissingField(n)) => assert_eq!(n, "n"),
        other => panic!("unexpected {:?}", other),
    }
}

#[test]
fn duplicate_names_fail_schema() {
    match Schema::new(vec![
        spec("a", DataType::Int, false, None, &["x"]),
        spec("a", DataType::String, true, None, &["y"]),
    ]) {
        Err(SchemaError::DuplicateName { name }) => assert_eq!(name, "a"),
        other => panic!("unexpected {:?}", other.is_ok()),
    }
}

#[test]
fn rejected_token_after_field_is_set_is_ignored() {
    let schema = Schema::new(vec![spec("d", DataType::Date, false, None, &["d1", "d2"])]).unwrap();
    let mut p = CSVParser::new(lines(&["d1,d2", "2021-05-01,10:00 +9900"]), &schema, &',');
    assert!(p.next().is_ok());
}
