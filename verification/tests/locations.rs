use json_parser_lib::json::{ParseError, ParseErrorKind};
use json_parser_lib::lexer::{LexError, LexErrorKind, Lexer};
use json_parser_lib::location::{location_of, Location};

#[test]
fn location_moves_right_and_down() {
    let mut loc = Location::new();
    assert_eq!(loc, Location { row: 0, col: 0 });
    loc.move_right();
    loc.move_right();
    assert_eq!(loc, Location { row: 0, col: 2 });
    loc.move_down();
    assert_eq!(loc, Location { row: 1, col: 0 });
    loc.move_right();
    assert_eq!(loc, Location { row: 1, col: 1 });
}

#[test]
fn location_of_counts_newline_crossings() {
    let text = "ab\ncd\ne";
    assert_eq!(location_of(text, 0), Location { row: 0, col: 0 });
    assert_eq!(location_of(text, 2), Location { row: 0, col: 2 });
    assert_eq!(location_of(text, 3), Location { row: 1, col: 0 });
    assert_eq!(location_of(text, 5), Location { row: 1, col: 2 });
    assert_eq!(location_of(text, 7), Location { row: 2, col: 1 });
}

#[test]
fn from_lex_error_keeps_kind_and_position() {
    let mut lexer = Lexer::new("@");
    let lex_err: LexError = lexer.next_token().unwrap().unwrap_err();
    let parse_err = ParseError::from_lex_error(&lex_err);
    assert_eq!(
        parse_err.kind,
        ParseErrorKind::LexError(LexErrorKind::CharNotRecognized('@'))
    );
    assert_eq!(parse_err.offset, 0);
    assert_eq!(parse_err.location, Location { row: 0, col: 0 });
}
