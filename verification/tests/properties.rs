use json_parser_lib::json::ParseErrorKind;
use json_parser_lib::lexer::LexErrorKind;
use json_parser_lib::parse;
use json_parser_lib::value::{NumberValue, Value};

// ---- round-trip-stable primitives ----

#[test]
fn primitives_consume_exactly_their_literal() {
    assert_eq!(parse("null"), Ok(Value::Null));
    assert_eq!(parse("true"), Ok(Value::Boolean(true)));
    assert_eq!(parse("false"), Ok(Value::Boolean(false)));
}

// ---- whitespace tolerance around punctuation and the document ----

#[test]
fn whitespace_between_tokens_changes_nothing() {
    let tight = parse("[true,false]").unwrap();
    assert_eq!(tight, parse("[ true , false ]").unwrap());
    assert_eq!(tight, parse(" [true,false] ").unwrap());
    assert_eq!(tight, parse("\n[\ttrue\n,\r\nfalse\t]\n").unwrap());
}

#[test]
fn whitespace_around_object_punctuation_changes_nothing() {
    let tight = parse("{\"a\":1}").unwrap();
    assert_eq!(tight, parse("{ \"a\" : 1 }").unwrap());
    assert_eq!(tight, parse("\t{\n\"a\"\n:\n1\n}\t").unwrap());
}

#[test]
fn whitespace_around_document_changes_nothing() {
    assert_eq!(parse("null"), parse("   null\n\t "));
    assert_eq!(parse("{}"), parse(" { } "));
    assert_eq!(parse("[]"), parse("\n[ ]\r\n"));
}

// ---- no trailing or leading commas ----

#[test]
fn trailing_and_leading_commas_fail() {
    assert!(parse("[1,]").is_err());
    assert!(parse("[,1]").is_err());
    assert!(parse("{\"a\":1,}").is_err());
    assert!(parse("{,\"a\":1}").is_err());
}

// ---- duplicate object keys: last write wins ----

#[test]
fn duplicate_keys_resolve_to_the_last_value() {
    let expected = Value::Object(vec![(
        "a".to_string(),
        Value::Number(NumberValue::UInt(2)),
    )]);
    assert_eq!(parse("{\"a\":1,\"a\":2}"), Ok(expected));
}

#[test]
fn duplicate_keys_keep_first_occurrence_order() {
    let expected = Value::Object(vec![
        ("a".to_string(), Value::Number(NumberValue::UInt(3))),
        ("b".to_string(), Value::Number(NumberValue::UInt(2))),
    ]);
    assert_eq!(parse("{\"a\":1,\"b\":2,\"a\":3}"), Ok(expected));
}

// ---- concrete scenarios ----

#[test]
fn scenario_null() {
    assert_eq!(parse("null"), Ok(Value::Null));
}

#[test]
fn scenario_bool_array() {
    assert_eq!(
        parse("[true, false]"),
        Ok(Value::Array(vec![Value::Boolean(true), Value::Boolean(false)]))
    );
}

#[test]
fn scenario_object_with_number() {
    assert_eq!(
        parse("{\"k\": 1}"),
        Ok(Value::Object(vec![(
            "k".to_string(),
            Value::Number(NumberValue::UInt(1))
        )]))
    );
}

#[test]
fn scenario_nested_object() {
    let inner = Value::Object(vec![("b".to_string(), Value::Null)]);
    let expected = Value::Object(vec![("a".to_string(), inner)]);
    assert_eq!(parse("{\"a\": {\"b\": null}}"), Ok(expected));
}

#[test]
fn scenario_trailing_comma_fails() {
    assert!(parse("[1, 2,]").is_err());
}

#[test]
fn scenario_unterminated_string_fails() {
    let err = parse("\"unterminated").unwrap_err();
    assert_eq!(err.kind, ParseErrorKind::LexError(LexErrorKind::UnclosedQuotes));
    assert_eq!(err.offset, 13);
}

// ---- the error taxonomy, one input for each kind ----

#[test]
fn error_early_eof() {
    let err = parse("").unwrap_err();
    assert_eq!(err.kind, ParseErrorKind::EarlyEOF);
    assert_eq!(err.offset, 0);
}

#[test]
fn error_expected_value() {
    let err = parse("]").unwrap_err();
    assert_eq!(err.kind, ParseErrorKind::ExpectedValue);
    assert_eq!(err.offset, 0);
}

#[test]
fn error_unclosed_bracket() {
    let err = parse("[null").unwrap_err();
    assert_eq!(err.kind, ParseErrorKind::UnclosedBracket);
    assert_eq!(err.offset, 5);
}

#[test]
fn error_unclosed_brace() {
    let err = parse("{\"key\":\"value\"").unwrap_err();
    assert_eq!(err.kind, ParseErrorKind::UnclosedBrace);
    assert_eq!(err.offset, 14);
}

#[test]
fn error_expected_colon() {
    let err = parse("{\"a\" 1}").unwrap_err();
    assert_eq!(err.kind, ParseErrorKind::ExpectedColon);
    assert_eq!(err.offset, 5);
}

#[test]
fn error_expected_comma() {
    let err = parse("[1 2]").unwrap_err();
    assert_eq!(err.kind, ParseErrorKind::ExpectedComma);
    assert_eq!(err.offset, 3);
}

#[test]
fn error_expected_property() {
    let err = parse("{1:2}").unwrap_err();
    assert_eq!(err.kind, ParseErrorKind::ExpectedProperty);
    assert_eq!(err.offset, 1);
}

#[test]
fn error_unexpected_token_after_document() {
    let err = parse("null x").unwrap_err();
    assert_eq!(err.kind, ParseErrorKind::UnexpectedToken);
    assert_eq!(err.offset, 5);
}

#[test]
fn error_unfinished_literals() {
    let err = parse("nul").unwrap_err();
    assert_eq!(err.kind, ParseErrorKind::LexError(LexErrorKind::UnfinishedNullValue));
    let err = parse("tru").unwrap_err();
    assert_eq!(
        err.kind,
        ParseErrorKind::LexError(LexErrorKind::UnfinishedBoolValue(true))
    );
    let err = parse("fals").unwrap_err();
    assert_eq!(
        err.kind,
        ParseErrorKind::LexError(LexErrorKind::UnfinishedBoolValue(false))
    );
}

#[test]
fn error_malformed_numbers() {
    let err = parse("-").unwrap_err();
    assert_eq!(err.kind, ParseErrorKind::LexError(LexErrorKind::ParseNumberError));
    assert_eq!(err.offset, 1);
    let err = parse("18446744073709551616").unwrap_err();
    assert_eq!(err.kind, ParseErrorKind::LexError(LexErrorKind::ParseNumberError));
    assert_eq!(err.offset, 0);
    let err = parse("-9223372036854775808").unwrap_err();
    assert_eq!(err.kind, ParseErrorKind::LexError(LexErrorKind::ParseNumberError));
    assert_eq!(err.offset, 0);
}

#[test]
fn error_locations_track_newlines() {
    let err = parse("[\n  x]").unwrap_err();
    assert_eq!(err.kind, ParseErrorKind::ExpectedValue);
    assert_eq!(err.offset, 4);
    assert_eq!(err.location.row, 1);
    assert_eq!(err.location.col, 2);
}

// ---- number boundaries ----

#[test]
fn number_boundaries_parse_exactly() {
    assert_eq!(
        parse("18446744073709551615"),
        Ok(Value::Number(NumberValue::UInt(u64::MAX)))
    );
    assert_eq!(
        parse("-9223372036854775807"),
        Ok(Value::Number(NumberValue::Int(-i64::MAX)))
    );
    assert_eq!(parse("-0"), Ok(Value::Number(NumberValue::Int(0))));
}

// ---- accessors and take ----

#[test]
fn accessors_answer_by_variant() {
    let v = parse("{\"a\": [1, \"s\", true, null]}").unwrap();
    assert!(v.is_object());
    assert!(!v.is_array());
    let pairs = v.as_object().unwrap();
    assert_eq!(pairs.len(), 1);
    let items = pairs[0].1.as_array().unwrap();
    assert!(pairs[0].1.is_array());
    assert_eq!(items.len(), 4);
    assert_eq!(items[1].as_string(), Some(&"s".to_string()));
    assert!(items[1].is_string());
    assert_eq!(items[2].as_boolean(), Some(true));
    assert!(items[2].is_boolean());
    assert_eq!(items[3].as_null(), Some(()));
    assert!(items[3].is_null());
    assert_eq!(items[0].as_null(), None);
    assert!(!items[0].is_null());
}

#[test]
fn take_leaves_null_behind() {
    let mut v = parse("[true]").unwrap();
    let taken = v.take();
    assert_eq!(taken, Value::Array(vec![Value::Boolean(true)]));
    assert_eq!(v, Value::Null);
}

// ---- strings are not unescaped ----

#[test]
fn strings_keep_backslashes_verbatim() {
    let expected = Value::String("a\\nb".to_string());
    assert_eq!(parse("\"a\\nb\""), Ok(expected));
}

#[test]
fn multibyte_text_is_never_split() {
    let expected = Value::String("héllo🌍".to_string());
    assert_eq!(parse("\"héllo🌍\""), Ok(expected));
}
