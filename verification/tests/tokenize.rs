use json_parser_lib::token::TokenKind;
use json_parser_lib::tokenize::{tokenize, TokenizeError};

fn kind_string(input: &str) -> TokenKind {
    TokenKind::String(String::from(input))
}

#[test]
fn just_comma() {
    let input = ",";
    let expected = [TokenKind::Comma];

    let actual = tokenize(input).unwrap();

    assert_eq!(actual, expected);
}

#[test]
fn all_punctuation() {
    let input = "[{]},:";
    let expected = [
        TokenKind::LeftBracket,
        TokenKind::LeftBrace,
        TokenKind::RightBracket,
        TokenKind::RightBrace,
        TokenKind::Comma,
        TokenKind::Colon,
    ];

    let actual = tokenize(input).unwrap();

    assert_eq!(actual, expected);
}

#[test]
fn just_ken() {
    let input = "\"ken\"";
    let expected = [kind_string("ken")];

    let actual = tokenize(input).unwrap();

    assert_eq!(actual, expected);
}

#[test]
fn unclosed_string() {
    let input = "\"unclosed";
    let expected = Err(TokenizeError::UnclosedQuotes);

    let actual = tokenize(input);

    assert_eq!(actual, expected);
}

#[test]
fn tokenize_key_colon() {
    let input = "\"key\":";
    let expected = [kind_string("key"), TokenKind::Colon];

    let actual = tokenize(input).unwrap();

    assert_eq!(actual, expected);
}

#[test]
fn tokenize_simple_object() {
    let input = "{\"key\":\"value\"}";
    let expected = [
        TokenKind::LeftBrace,
        kind_string("key"),
        TokenKind::Colon,
        kind_string("value"),
        TokenKind::RightBrace,
    ];

    let actual = tokenize(input).unwrap();

    assert_eq!(actual, expected);
}

#[test]
fn tokenize_array_with_numbers() {
    let input = "[123, 567]";
    let expected = [
        TokenKind::LeftBracket,
        TokenKind::Number(123),
        TokenKind::Comma,
        TokenKind::Number(567),
        TokenKind::RightBracket,
    ];

    let actual = tokenize(input).unwrap();

    assert_eq!(actual, expected);
}

#[test]
fn tokenize_array_with_strings() {
    let input = "[\"A\", \"B\"]";
    let expected = [
        TokenKind::LeftBracket,
        kind_string("A"),
        TokenKind::Comma,
        kind_string("B"),
        TokenKind::RightBracket,
    ];

    let actual = tokenize(input).unwrap();

    assert_eq!(actual, expected);
}

#[test]
fn tokenize_empty_string() {
    let input = "[\"\"]";
    let expected = [TokenKind::LeftBracket, kind_string(""), TokenKind::RightBracket];

    let actual = tokenize(input).unwrap();

    assert_eq!(actual, expected);
}

#[test]
fn tokenize_just_null() {
    let input = "null";
    let expected = [TokenKind::Null];

    let actual = tokenize(input).unwrap();

    assert_eq!(actual, expected);
}

#[test]
fn tokenize_just_false() {
    let input = "false";
    let expected = [TokenKind::Bool(false)];

    let actual = tokenize(input).unwrap();

    assert_eq!(actual, expected);
}

#[test]
fn tokenize_just_true() {
    let input = "true";
    let expected = [TokenKind::Bool(true)];

    let actual = tokenize(input).unwrap();

    assert_eq!(actual, expected);
}

#[test]
fn true_comma() {
    let input = "true,";
    let expected = [TokenKind::Bool(true), TokenKind::Comma];

    let actual = tokenize(input).unwrap();

    assert_eq!(actual, expected);
}

#[test]
fn integer() {
    let input = "123";
    let expected = [TokenKind::Number(123)];

    let actual = tokenize(input).unwrap();

    assert_eq!(actual, expected);
}

#[test]
fn tokenize_negative_int() {
    let input = "-123";
    let expected = [TokenKind::Number(-123)];

    let actual = tokenize(input).unwrap();

    assert_eq!(actual, expected);
}

#[test]
fn tokenize_array_with_null() {
    let input = "[null]";
    let expected = [TokenKind::LeftBracket, TokenKind::Null, TokenKind::RightBracket];

    let actual = tokenize(input).unwrap();

    assert_eq!(actual, expected);
}

#[test]
fn tokenize_array_with_true_false() {
    let input = "[true, false]";
    let expected = [
        TokenKind::LeftBracket,
        TokenKind::Bool(true),
        TokenKind::Comma,
        TokenKind::Bool(false),
        TokenKind::RightBracket,
    ];

    let actual = tokenize(input).unwrap();

    assert_eq!(actual, expected);
}

#[test]
fn tokenize_unrecognized_character() {
    let input = "?";
    let expected = Err(TokenizeError::CharNotRecognized('?'));

    let actual = tokenize(input);

    assert_eq!(actual, expected);
}

#[test]
fn tokenize_unfinished_literal() {
    let input = "nul";
    let expected = Err(TokenizeError::UnfinishedLiteralValue);

    let actual = tokenize(input);

    assert_eq!(actual, expected);
}
