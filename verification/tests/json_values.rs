use json_parser_lib::combinator::Parser;
use json_parser_lib::json::{
    array_value, bool_value, false_value, json_value, null_value, number_value, object_pair,
    object_value, string_value, true_value,
};
use json_parser_lib::value::{NumberValue, Value};

#[test]
fn true_parser() {
    let expected = Ok((4, Value::Boolean(true)));
    let actual = true_value().parse("true", 0);
    assert_eq!(expected, actual);
}

#[test]
fn false_parser() {
    let expected = Ok((5, Value::Boolean(false)));
    let actual = false_value().parse("false", 0);
    assert_eq!(expected, actual);
}

#[test]
fn null_parser() {
    let expected = Ok((4, Value::Null));
    let actual = null_value().parse("null", 0);
    assert_eq!(expected, actual);
}

#[test]
fn bool_parser_tries_both_literals() {
    assert_eq!(Ok((4, Value::Boolean(true))), bool_value().parse("true", 0));
    assert_eq!(Ok((5, Value::Boolean(false))), bool_value().parse("false", 0));
    assert_eq!(Err(0), bool_value().parse("null", 0));
}

#[test]
fn string_parser() {
    let expected = Ok((5, Value::String("key".to_string())));
    let actual = string_value().parse("\"key\"", 0);
    assert_eq!(expected, actual)
}

#[test]
fn json_int_parser() {
    let expected = Ok((1, Value::Number(NumberValue::UInt(1))));
    let actual = number_value().parse("1", 0);
    assert_eq!(expected, actual);
}

#[test]
fn json_negative_number_parser() {
    let expected = Ok((3, Value::Number(NumberValue::Int(-42))));
    let actual = number_value().parse("-42", 0);
    assert_eq!(expected, actual);
}

#[test]
fn object_pair_parser() {
    let expected = Ok((11, ("key".to_string(), Value::Null)));
    let actual = object_pair().parse("\"key\": null", 0);
    assert_eq!(expected, actual);
}

#[test]
fn object_pair_underscore_parser() {
    let expected = Ok((15, ("key_key".to_string(), Value::Null)));
    let actual = object_pair().parse("\"key_key\": null", 0);
    assert_eq!(expected, actual);
}

#[test]
fn object_empty_parser() {
    let expected = Ok((2, Value::Object(vec![])));
    let actual = object_value().parse("{}", 0);
    assert_eq!(expected, actual);
}

#[test]
fn object_one_parser() {
    let expected = Ok((12, Value::Object(vec![("key".to_string(), Value::Null)])));
    let actual = object_value().parse("{\"key\":null}", 0);
    assert_eq!(expected, actual);
}

#[test]
fn object_many_parser() {
    let expected = Ok((
        21,
        Value::Object(vec![
            ("a".to_string(), Value::Boolean(true)),
            ("b".to_string(), Value::Boolean(false)),
        ]),
    ));
    let actual = object_value().parse(r#"{"a":true, "b":false}"#, 0);
    assert_eq!(expected, actual);
}

#[test]
fn array_empty_parser() {
    let expected = Ok((2, Value::Array(vec![])));
    let actual = array_value().parse("[]", 0);
    assert_eq!(expected, actual);
}

#[test]
fn array_one_parser() {
    let expected = Ok((6, Value::Array(vec![Value::Null])));
    let actual = array_value().parse("[null]", 0);
    assert_eq!(expected, actual);
}

#[test]
fn array_many_parser() {
    let expected = Ok((
        19,
        Value::Array(vec![Value::Null, Value::Boolean(true), Value::Boolean(false)]),
    ));
    let actual = array_value().parse("[null, true, false]", 0);
    assert_eq!(expected, actual);
}

#[test]
fn json_value_parser_trims_whitespace() {
    let expected = Ok((8, Value::Boolean(true)));
    let actual = json_value().parse("  true  ", 0);
    assert_eq!(expected, actual);
}
