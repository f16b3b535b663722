use rust_json_parser::grammar::{ErrorKind, ParseError};
use rust_json_parser::json::{parse_from_string, Json, JsonValue};
use rust_json_parser::parser::Parser;

fn parse(s: &str) -> Result<Json, ParseError> {
    parse_from_string(s.to_string())
}

fn object(s: &str) -> Vec<(String, JsonValue)> {
    match parse(s) {
        Ok(Json::Object(m)) => m,
        other => panic!("not an object: {:?}", other),
    }
}

fn array(s: &str) -> Vec<JsonValue> {
    match parse(s) {
        Ok(Json::Array(a)) => a,
        other => panic!("not an array: {:?}", other),
    }
}

fn lookup<'a>(m: &'a [(String, JsonValue)], k: &str) -> &'a JsonValue {
    &m.iter().find(|(key, _)| key == k).expect("missing key").1
}

fn fails(s: &str) -> ParseError {
    match parse(s) {
        Err(e) => e,
        Ok(j) => panic!("parsed: {:?}", j),
    }
}

#[test]
fn object_with_four_kinds_of_value() {
    let m = object(r#"{"name": "ok", "count": 3, "ratio": 1.5, "flag": true}"#);
    assert_eq!(m.len(), 4);
    assert_eq!(lookup(&m, "name"), &JsonValue::String("ok".to_string()));
    assert_eq!(lookup(&m, "count"), &JsonValue::Integer(3));
    match lookup(&m, "ratio") {
        JsonValue::Float(t) => assert_eq!(t.parse::<f64>().unwrap(), 1.5),
        other => panic!("not a float: {:?}", other),
    }
    assert_eq!(lookup(&m, "flag"), &JsonValue::Boolean(true));
}

#[test]
fn array_of_three_integers() {
    let a = array("[1, 2, 3]");
    assert_eq!(
        a,
        vec![JsonValue::Integer(1), JsonValue::Integer(2), JsonValue::Integer(3)]
    );
}

#[test]
fn trailing_comma_in_array() {
    assert_eq!(parse("[1,2,3,]"), parse("[1,2,3]"));
    assert_eq!(array("[1,2,3,]").len(), 3);
}

#[test]
fn trailing_comma_in_object() {
    assert_eq!(parse(r#"{"a":1,}"#), parse(r#"{"a":1}"#));
    assert_eq!(object(r#"{"a":1,}"#).len(), 1);
}

#[test]
fn duplicate_key_last_write_wins() {
    let m = object(r#"{"a":1,"a":2}"#);
    assert_eq!(m, vec![("a".to_string(), JsonValue::Integer(2))]);
}

#[test]
fn duplicate_key_keeps_its_place() {
    let m = object(r#"{"a":1,"b":2,"a":3}"#);
    assert_eq!(
        m,
        vec![
            ("a".to_string(), JsonValue::Integer(3)),
            ("b".to_string(), JsonValue::Integer(2)),
        ]
    );
}

#[test]
fn truncated_literal_is_fatal() {
    assert_eq!(fails("tru"), ParseError { line: 1, kind: ErrorKind::NotContainer });
    assert_eq!(fails("[tru]"), ParseError { line: 1, kind: ErrorKind::BadLiteral });
    assert_eq!(fails("[tru"), ParseError { line: 1, kind: ErrorKind::UnexpectedEnd });
}

#[test]
fn missing_colon_is_fatal() {
    assert_eq!(fails(r#"{"k" 1}"#), ParseError { line: 1, kind: ErrorKind::MissingColon });
}

#[test]
fn each_error_kind() {
    assert_eq!(fails(""), ParseError { line: 1, kind: ErrorKind::UnexpectedEnd });
    assert_eq!(fails("[1, 2"), ParseError { line: 1, kind: ErrorKind::UnexpectedEnd });
    assert_eq!(fails(r#"{"a": "b"#), ParseError { line: 1, kind: ErrorKind::UnexpectedEnd });
    assert_eq!(fails("42"), ParseError { line: 1, kind: ErrorKind::NotContainer });
    assert_eq!(fails("[x]"), ParseError { line: 1, kind: ErrorKind::UnexpectedValue });
    assert_eq!(fails("[fals]"), ParseError { line: 1, kind: ErrorKind::BadLiteral });
    assert_eq!(fails("[1.2.3]"), ParseError { line: 1, kind: ErrorKind::InvalidNumber });
    assert_eq!(fails("[-]"), ParseError { line: 1, kind: ErrorKind::InvalidNumber });
    assert_eq!(fails("[-.]"), ParseError { line: 1, kind: ErrorKind::InvalidNumber });
}

#[test]
fn error_reports_line() {
    assert_eq!(fails("[\n1,\n\n x]"), ParseError { line: 4, kind: ErrorKind::UnexpectedValue });
    assert_eq!(fails("{\n\"k\"\n 1}"), ParseError { line: 3, kind: ErrorKind::MissingColon });
}

#[test]
fn integer_limits() {
    assert_eq!(
        array("[9223372036854775807, -9223372036854775808, -0, 007]"),
        vec![
            JsonValue::Integer(i64::MAX),
            JsonValue::Integer(i64::MIN),
            JsonValue::Integer(0),
            JsonValue::Integer(7),
        ]
    );
    assert_eq!(
        fails("[9223372036854775808]"),
        ParseError { line: 1, kind: ErrorKind::InvalidNumber }
    );
    assert_eq!(
        fails("[-9223372036854775809]"),
        ParseError { line: 1, kind: ErrorKind::InvalidNumber }
    );
}

#[test]
fn float_literals() {
    let a = array("[-0.25, 1., 3.0]");
    let values: Vec<f64> = a
        .iter()
        .map(|v| match v {
            JsonValue::Float(t) => t.parse::<f64>().unwrap(),
            other => panic!("not a float: {:?}", other),
        })
        .collect();
    assert_eq!(values, vec![-0.25, 1.0, 3.0]);
    assert_eq!(a[0], JsonValue::Float("-0.25".to_string()));
}

#[test]
fn empty_containers_and_strings() {
    assert_eq!(parse("{}"), Ok(Json::Object(vec![])));
    assert_eq!(parse("[]"), Ok(Json::Array(vec![])));
    assert_eq!(array(r#"["", "a b"]"#), vec![
        JsonValue::String(String::new()),
        JsonValue::String("a b".to_string()),
    ]);
}

#[test]
fn backslash_does_not_escape() {
    assert_eq!(array(r#"["a\"]"#), vec![JsonValue::String("a\\".to_string())]);
}

#[test]
fn nested_containers() {
    let m = object(r#"{"list": [true, false, {"x": []}], "obj": {"y": "z"}}"#);
    assert_eq!(
        lookup(&m, "list"),
        &JsonValue::Array(vec![
            JsonValue::Boolean(true),
            JsonValue::Boolean(false),
            JsonValue::Object(vec![("x".to_string(), JsonValue::Array(vec![]))]),
        ])
    );
    assert_eq!(
        lookup(&m, "obj"),
        &JsonValue::Object(vec![("y".to_string(), JsonValue::String("z".to_string()))])
    );
}

#[test]
fn lenient_separators() {
    assert_eq!(parse("[1 2 3]"), parse("[1,2,3]"));
    assert_eq!(parse(r#"{"a":1 "b":2}"#), parse(r#"{"a":1,"b":2}"#));
    assert_eq!(parse(r#"{; "a":1}"#), parse(r#"{"a":1}"#));
}

#[test]
fn text_after_the_root_is_not_read() {
    assert_eq!(parse("[1] trailing"), parse("[1]"));
}

#[test]
fn whitespace_between_tokens_does_not_matter() {
    let tight = r#"{"a":[1,2.5,"s",true],"b":{"c":false}}"#;
    let loose = " \n{ \t\"a\" :\r\n [ 1 ,\n2.5\t, \"s\" , true ] ,\n \"b\"\t:{\"c\"  :  false } }\n";
    assert_eq!(parse(tight), parse(loose));
}

#[test]
fn parser_new_then_parse() {
    let mut p = Parser::new("  [true]".to_string());
    assert_eq!(p.parse(), Ok(Json::Array(vec![JsonValue::Boolean(true)])));
}
