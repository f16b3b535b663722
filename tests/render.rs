use rust_json_parser::json::{parse_from_string, Json, JsonValue};

#[test]
fn renders_array_document() {
    let j = Json::Array(vec![
        JsonValue::Integer(1),
        JsonValue::Integer(-20),
        JsonValue::Array(vec![JsonValue::Boolean(false)]),
    ]);
    assert_eq!(j.to_text(), "[\n  1,\n  -20,\n  [\n    false,\n  ],\n]\n");
}

#[test]
fn renders_object_document() {
    let j = Json::Object(vec![
        ("s".to_string(), JsonValue::String("hi".to_string())),
        ("f".to_string(), JsonValue::Float("1.50".to_string())),
        (
            "o".to_string(),
            JsonValue::Object(vec![("t".to_string(), JsonValue::Boolean(true))]),
        ),
    ]);
    assert_eq!(
        j.to_text(),
        "{\n  \"s\": \"hi\",\n  \"f\": 1.50,\n  \"o\": {\n    \"t\": true,\n  },\n}\n"
    );
}

#[test]
fn renders_empty_containers() {
    assert_eq!(Json::Array(vec![]).to_text(), "[\n]\n");
    assert_eq!(Json::Object(vec![]).to_text(), "{\n}\n");
    let j = Json::Array(vec![JsonValue::Object(vec![])]);
    assert_eq!(j.to_text(), "[\n  {\n  },\n]\n");
}

#[test]
fn renders_integer_extremes() {
    let j = Json::Array(vec![
        JsonValue::Integer(i64::MIN),
        JsonValue::Integer(i64::MAX),
        JsonValue::Integer(0),
    ]);
    assert_eq!(
        j.to_text(),
        "[\n  -9223372036854775808,\n  9223372036854775807,\n  0,\n]\n"
    );
}

#[test]
fn rendered_text_parses_back() {
    let j = Json::Object(vec![
        ("name".to_string(), JsonValue::String("ok".to_string())),
        ("n".to_string(), JsonValue::Integer(-3)),
        ("r".to_string(), JsonValue::Float("-0.5".to_string())),
        (
            "list".to_string(),
            JsonValue::Array(vec![
                JsonValue::Boolean(true),
                JsonValue::Object(vec![("k".to_string(), JsonValue::Array(vec![]))]),
                JsonValue::String(String::new()),
            ]),
        ),
    ]);
    let text = j.to_text();
    assert_eq!(parse_from_string(text), Ok(j));
}

#[test]
fn whitespace_around_rendered_text_does_not_matter() {
    let j = Json::Array(vec![
        JsonValue::Integer(5),
        JsonValue::Object(vec![("k".to_string(), JsonValue::Float("2.5".to_string()))]),
    ]);
    let text = format!(" \t\r\n{}  \n trailing text", j.to_text());
    assert_eq!(parse_from_string(text), Ok(j));
}

#[test]
fn rendering_then_parsing_twice_is_stable() {
    let first = parse_from_string(r#"{"a": [1, 2.0, {"b": "c"}], "d": false}"#.to_string()).unwrap();
    let text = first.to_text();
    let second = parse_from_string(text.clone()).unwrap();
    assert_eq!(second.to_text(), text);
    assert_eq!(second, first);
}
