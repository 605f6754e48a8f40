use json_parser_lib::parse;
use json_parser_lib::value::{NumberValue, Value};

#[test]
fn mod_empty_object() {
    let input = "{}";
    let expected = Value::Object(vec![]);
    let actual = parse(input).unwrap();
    assert_eq!(expected, actual);
}

#[test]
fn mod_simple_object() {
    let input = r#"{
            "a": "value",
            "b": true
        }"#;
    let expected = Value::Object(vec![
        ("a".to_string(), Value::String("value".to_string())),
        ("b".to_string(), Value::Boolean(true)),
    ]);
    let actual = parse(input).unwrap();
    assert_eq!(expected, actual);
}

#[test]
fn empty_array() {
    let input = "[]";
    let expected = Value::Array(vec![]);
    let actual = parse(input).unwrap();
    assert_eq!(expected, actual);
}

#[test]
fn simple_array() {
    let input = r#"[
            "value",
            true,
            false,
            null
        ]"#;
    let expected = Value::Array(vec![
        Value::String("value".to_string()),
        Value::Boolean(true),
        Value::Boolean(false),
        Value::Null,
    ]);
    let actual = parse(input).unwrap();
    assert_eq!(expected, actual);
}

#[test]
fn inner_object() {
    let input = r#"
        {
            "obj": {}
        }"#;
    let expected = Value::Object(vec![("obj".to_string(), Value::Object(vec![]))]);
    let actual = parse(input).unwrap();
    assert_eq!(expected, actual);
}

#[test]
fn inner_array() {
    let input = r#"
        {
            "arr": [
                "one",
                2,
                false
            ]
        }"#;
    let expected = Value::Object(vec![(
        "arr".to_string(),
        Value::Array(vec![
            Value::String("one".to_string()),
            Value::Number(NumberValue::UInt(2)),
            Value::Boolean(false),
        ]),
    )]);
    let actual = parse(input).unwrap();
    assert_eq!(expected, actual);
}

#[test]
fn all_primitives() {
    let input = r#"
            {
                "str_val": "value",
                "null_val": null,
                "true_val": true,
                "false_val": false,
                "int_val": 5
            }
        "#;

    let expected = Value::Object(vec![
        ("str_val".to_string(), Value::String("value".to_string())),
        ("null_val".to_string(), Value::Null),
        ("true_val".to_string(), Value::Boolean(true)),
        ("false_val".to_string(), Value::Boolean(false)),
        ("int_val".to_string(), Value::Number(NumberValue::UInt(5))),
    ]);

    let actual = parse(input).unwrap();
    assert_eq!(expected, actual);
}
