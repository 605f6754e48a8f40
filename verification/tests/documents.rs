use json_parser_lib::json::{ParseError, ParseErrorKind};
use json_parser_lib::parse;
use json_parser_lib::value::{NumberValue, Value};

fn check(input: &str, expected: Value) {
    let actual = parse(input).unwrap();
    assert_eq!(actual, expected);
}

fn check_error_kind(input: &str, expected: ParseErrorKind) {
    let actual: ParseError = parse(input).unwrap_err();
    assert_eq!(actual.kind, expected);
}

fn object(pairs: Vec<(&str, Value)>) -> Value {
    Value::Object(pairs.into_iter().map(|(k, v)| (String::from(k), v)).collect())
}

#[test]
fn lib_just_null() {
    check("null", Value::Null);
}

#[test]
fn lib_just_true() {
    check("true", Value::Boolean(true));
}

#[test]
fn lib_just_false() {
    check("false", Value::Boolean(false));
}

#[test]
fn lib_array_with_null() {
    check("[null]", Value::Array(vec![Value::Null]))
}

#[test]
fn lib_array_with_true_false() {
    check(
        "[true,false]",
        Value::Array(vec![Value::Boolean(true), Value::Boolean(false)]),
    )
}

#[test]
fn lib_array_with_numbers() {
    check(
        "[1, 2, 3]",
        Value::Array(vec![
            Value::Number(NumberValue::UInt(1)),
            Value::Number(NumberValue::UInt(2)),
            Value::Number(NumberValue::UInt(3)),
        ]),
    )
}

#[test]
fn lib_array_with_object() {
    check(
        r#"[{"key": null}]"#,
        Value::Array(vec![object(vec![("key", Value::Null)])]),
    )
}

#[test]
fn lib_empty_object() {
    check("{}", object(vec![]))
}

#[test]
fn lib_object_with_number() {
    check(
        r#"{"key": 1}"#,
        object(vec![("key", Value::Number(NumberValue::UInt(1)))]),
    );
}

#[test]
fn lib_object_with_string() {
    check(
        r#"{"key": "value"}"#,
        object(vec![("key", Value::String("value".to_string()))]),
    );
}

#[test]
fn lib_object_with_null() {
    check(r#"{"key": null}"#, object(vec![("key", Value::Null)]));
}

#[test]
fn lib_object_with_true() {
    check(r#"{"key": true}"#, object(vec![("key", Value::Boolean(true))]))
}

#[test]
fn lib_object_with_false() {
    check(r#"{"key": false}"#, object(vec![("key", Value::Boolean(false))]))
}

#[test]
fn lib_nested_object() {
    check(
        r#"{"key": { "innerkey": null } }"#,
        object(vec![("key", object(vec![("innerkey", Value::Null)]))]),
    )
}

#[test]
fn object_many_entries() {
    check(
        r#"{ "a": 1, "b": "ya like jazz?", "c": false }"#,
        object(vec![
            ("a", Value::Number(NumberValue::UInt(1))),
            ("b", Value::String("ya like jazz?".to_string())),
            ("c", Value::Boolean(false)),
        ]),
    );
}

#[test]
fn lib_err_expected_value() {
    check_error_kind("]", ParseErrorKind::ExpectedValue)
}

#[test]
fn lib_err_unclosed_array() {
    check_error_kind("[null", ParseErrorKind::UnclosedBracket)
}

#[test]
fn lib_err_unclosed_object() {
    check_error_kind(r#"{"key":"value""#, ParseErrorKind::UnclosedBrace)
}
