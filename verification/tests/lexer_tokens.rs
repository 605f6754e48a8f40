use json_parser_lib::lexer::Lexer;
use json_parser_lib::token::TokenKind;

fn lex(input: &str) -> Vec<TokenKind> {
    let mut lexer = Lexer::new(input);
    let mut kinds: Vec<TokenKind> = Vec::new();
    loop {
        match lexer.next_token() {
            Some(Ok(token)) => kinds.push(token.kind),
            Some(Err(_)) => break,
            None => break,
        }
    }
    kinds
}

#[test]
fn lexer_punctuation() {
    let input = "[]{},:";
    let expected: Vec<TokenKind> = vec![
        TokenKind::LeftBracket,
        TokenKind::RightBracket,
        TokenKind::LeftBrace,
        TokenKind::RightBrace,
        TokenKind::Comma,
        TokenKind::Colon,
    ];
    let actual = lex(input);

    assert_eq!(actual, expected);
}

#[test]
fn lexer_key() {
    let input = "\"key\"";
    let expected: Vec<TokenKind> = vec![TokenKind::String("key".to_string())];
    let actual = lex(input);

    assert_eq!(actual, expected);
}

#[test]
fn lexer_key_colon() {
    let input = "\"key\":";
    let expected: Vec<TokenKind> =
        vec![TokenKind::String("key".to_string()), TokenKind::Colon];
    let actual = lex(input);

    assert_eq!(actual, expected);
}

#[test]
fn lexer_simple_object() {
    let input = "{\"key\":\"value\"}";
    let expected: Vec<TokenKind> = vec![
        TokenKind::LeftBrace,
        TokenKind::String("key".to_string()),
        TokenKind::Colon,
        TokenKind::String("value".to_string()),
        TokenKind::RightBrace,
    ];
    let actual = lex(input);

    assert_eq!(actual, expected);
}

#[test]
fn lexer_array_with_strings() {
    let input = "[\"A\", \"B\"]";
    let expected: Vec<TokenKind> = vec![
        TokenKind::LeftBracket,
        TokenKind::String("A".to_string()),
        TokenKind::Comma,
        TokenKind::String("B".to_string()),
        TokenKind::RightBracket,
    ];
    let actual = lex(input);

    assert_eq!(actual, expected);
}

#[test]
fn lexer_array_with_numbers() {
    let input = "[1, 2]";
    let expected: Vec<TokenKind> = vec![
        TokenKind::LeftBracket,
        TokenKind::Number(1),
        TokenKind::Comma,
        TokenKind::Number(2),
        TokenKind::RightBracket,
    ];
    let actual = lex(input);

    assert_eq!(actual, expected);
}

#[test]
fn lexer_just_null() {
    let input = "null";
    let expected: Vec<TokenKind> = vec![TokenKind::Null];
    let actual = lex(input);

    assert_eq!(actual, expected);
}

#[test]
fn lexer_simple_int() {
    let input = "123";
    let expected: Vec<TokenKind> = vec![TokenKind::Number(123)];
    let actual = lex(input);

    assert_eq!(actual, expected);
}

#[test]
fn lexer_booleans() {
    let input = "[true, false]";
    let expected: Vec<TokenKind> = vec![
        TokenKind::LeftBracket,
        TokenKind::Bool(true),
        TokenKind::Comma,
        TokenKind::Bool(false),
        TokenKind::RightBracket,
    ];
    let actual = lex(input);

    assert_eq!(actual, expected);
}

#[test]
fn lexer_locations_and_errors() {
    let mut lexer = Lexer::new("null\n  ?");
    let first = lexer.next_token().unwrap().unwrap();
    assert_eq!(first.kind, TokenKind::Null);
    assert_eq!(first.location.row, 0);
    assert_eq!(first.location.col, 0);
    let second = lexer.next_token().unwrap().unwrap_err();
    assert_eq!(
        second.kind,
        json_parser_lib::lexer::LexErrorKind::CharNotRecognized('?')
    );
    assert_eq!(second.offset, 7);
    assert_eq!(second.location.row, 1);
    assert_eq!(second.location.col, 2);
}

#[test]
fn lexer_reports_end_of_input() {
    let mut lexer = Lexer::new("  \n ");
    assert!(lexer.next_token().is_none());
}

#[test]
fn lexer_unfinished_literals() {
    let mut lexer = Lexer::new("nul");
    let err = lexer.next_token().unwrap().unwrap_err();
    assert_eq!(err.kind, json_parser_lib::lexer::LexErrorKind::UnfinishedNullValue);
    assert_eq!(err.offset, 0);

    let mut lexer = Lexer::new("\"open");
    let err = lexer.next_token().unwrap().unwrap_err();
    assert_eq!(err.kind, json_parser_lib::lexer::LexErrorKind::UnclosedQuotes);
    assert_eq!(err.offset, 5);

    let mut lexer = Lexer::new("99999999999999999999");
    let err = lexer.next_token().unwrap().unwrap_err();
    assert_eq!(err.kind, json_parser_lib::lexer::LexErrorKind::ParseNumberError);
    assert_eq!(err.offset, 0);
}
