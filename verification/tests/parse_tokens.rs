use json_parser_lib::parse::{parse_tokens, TokenParseError};
use json_parser_lib::token::TokenKind;
use json_parser_lib::value::{NumberValue, Value};

fn kind_string(input: &str) -> TokenKind {
    TokenKind::String(String::from(input))
}

fn object(pairs: Vec<(&str, Value)>) -> Value {
    Value::Object(pairs.into_iter().map(|(k, v)| (String::from(k), v)).collect())
}

/// Helper to reduce boilerplate of asserting on the expected value.
fn check(input: Vec<TokenKind>, expected: Value) {
    let mut index = 0;
    let actual = parse_tokens(&input, &mut index).unwrap();
    assert_eq!(actual, expected);
}

fn check_error(input: Vec<TokenKind>, expected: TokenParseError) {
    let mut index = 0;
    let actual = parse_tokens(&input, &mut index).unwrap_err();
    assert_eq!(actual, expected);
}

#[test]
fn parses_null() {
    let input = vec![TokenKind::Null];
    let expected = Value::Null;

    check(input, expected);
}

#[test]
fn parses_false() {
    let input = vec![TokenKind::Bool(false)];
    let expected = Value::Boolean(false);

    check(input, expected);
}

#[test]
fn parses_true() {
    let input = vec![TokenKind::Bool(true)];
    let expected = Value::Boolean(true);

    check(input, expected);
}

#[test]
fn parses_number() {
    let input = vec![TokenKind::Number(1234)];
    let expected = Value::Number(NumberValue::UInt(1234));

    check(input, expected);
}

#[test]
fn parses_negative_number() {
    let input = vec![TokenKind::Number(-56)];
    let expected = Value::Number(NumberValue::Int(-56));

    check(input, expected);
}

#[test]
fn parses_string_no_escapes() {
    let input = vec![kind_string("hello world")];
    let expected = Value::String(String::from("hello world"));

    check(input, expected);
}

#[test]
fn parses_string_non_ascii() {
    let input = vec![kind_string("olá_こんにちは_नमस्ते_привіт")];
    let expected = Value::String(String::from("olá_こんにちは_नमस्ते_привіт"));

    check(input, expected);
}

#[test]
fn parses_string_with_unescaped_emoji() {
    let input = vec![kind_string("hello 💩 world")];
    let expected = Value::String(String::from("hello 💩 world"));

    check(input, expected);
}

#[test]
fn parses_empty_arrays() {
    // []
    let input = vec![TokenKind::LeftBracket, TokenKind::RightBracket];
    let expected = Value::Array(vec![]);

    check(input, expected);
}

#[test]
fn parses_array_one_element() {
    // [true]
    let input = vec![TokenKind::LeftBracket, TokenKind::Bool(true), TokenKind::RightBracket];
    let expected = Value::Array(vec![Value::Boolean(true)]);

    check(input, expected);
}

#[test]
fn parses_array_two_elements() {
    // [null, 16]
    let input = vec![
        TokenKind::LeftBracket,
        TokenKind::Null,
        TokenKind::Comma,
        TokenKind::Number(16),
        TokenKind::RightBracket,
    ];
    let expected = Value::Array(vec![Value::Null, Value::Number(NumberValue::UInt(16))]);

    check(input, expected);
}

#[test]
fn parses_nested_array() {
    // [null, [null]]
    let input = vec![
        TokenKind::LeftBracket,
        TokenKind::Null,
        TokenKind::Comma,
        TokenKind::LeftBracket,
        TokenKind::Null,
        TokenKind::RightBracket,
        TokenKind::RightBracket,
    ];
    let expected = Value::Array(vec![Value::Null, Value::Array(vec![Value::Null])]);

    check(input, expected);
}

#[test]
fn fails_array_leading_comma() {
    // [,true]
    let input = vec![
        TokenKind::LeftBracket,
        TokenKind::Comma,
        TokenKind::Bool(true),
        TokenKind::RightBracket,
    ];
    let expected = TokenParseError::ExpectedValue;

    check_error(input, expected);
}

#[test]
fn fails_array_trailing_comma() {
    // [true,]
    let input = vec![
        TokenKind::LeftBracket,
        TokenKind::Bool(true),
        TokenKind::Comma,
        TokenKind::RightBracket,
    ];
    let expected = TokenParseError::TrailingComma;

    check_error(input, expected);
}

#[test]
fn parses_empty_object() {
    let input = vec![TokenKind::LeftBrace, TokenKind::RightBrace];
    let expected = object(vec![]);

    check(input, expected);
}

#[test]
fn parses_object_one_string_value() {
    let input = vec![
        TokenKind::LeftBrace,
        kind_string("name"),
        TokenKind::Colon,
        kind_string("davimiku"),
        TokenKind::RightBrace,
    ];
    let expected = object(vec![("name", Value::String(String::from("davimiku")))]);

    check(input, expected);
}

#[test]
fn fails_object_without_colon() {
    let input = vec![
        TokenKind::LeftBrace,
        kind_string("name"),
        TokenKind::Null,
        TokenKind::RightBrace,
    ];
    let expected = TokenParseError::ExpectedColon;

    check_error(input, expected);
}

#[test]
fn fails_unclosed_structures() {
    check_error(vec![TokenKind::LeftBracket, TokenKind::Null], TokenParseError::UnclosedBracket);
    check_error(
        vec![TokenKind::LeftBrace, kind_string("key"), TokenKind::Colon, TokenKind::Null],
        TokenParseError::UnclosedBrace,
    );
    check_error(vec![], TokenParseError::EarlyEOF);
}

#[test]
fn tokenize_then_parse_tokens_agrees_with_parse() {
    let text = "{\"a\": [1, -2, null], \"a\": true}";
    let tokens = json_parser_lib::tokenize::tokenize(text).unwrap();
    let mut index = 0;
    let via_tokens = parse_tokens(&tokens, &mut index).unwrap();
    let direct = json_parser_lib::parse(text).unwrap();
    assert_eq!(via_tokens, direct);
    assert_eq!(index, tokens.len());
}
