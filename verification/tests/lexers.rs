use json_parser_lib::combinator::Parser;
use json_parser_lib::lexical::{
    any_char, match_literal, negative_int, quoted_string, space0, space1, trim, uint,
};

#[test]
fn quoted_string_parser() {
    let input = "\"Hello!\"";
    let expected = Ok((8, "Hello!".to_string()));
    let actual = quoted_string().parse(input, 0);
    assert_eq!(expected, actual);
}

#[test]
fn uint_parser() {
    let input = "123";
    let expected = Ok((3, 123_u64));
    let actual = uint().parse(input, 0);
    assert_eq!(expected, actual);
}

#[test]
fn lexers_int_parser() {
    let input = "-123";
    let expected = Ok((4, -123_i64));
    let actual = negative_int().parse(input, 0);
    assert_eq!(expected, actual);
}

#[test]
fn zero_to_many_spaces_parser() {
    assert_eq!(Ok((0, vec![])), space0().parse("", 0));
    assert_eq!(Ok((2, vec![' ', ' '])), space0().parse("  ", 0));
}

#[test]
fn one_to_many_spaces_parser() {
    assert_eq!(Err(0), space1().parse("", 0));
    assert_eq!(Ok((2, vec![' ', ' '])), space1().parse("  ", 0));
}

#[test]
fn trim_parser() {
    let input = "    $  ";
    let expected = Ok((7, ()));
    let actual = trim(match_literal("$")).parse(input, 0);
    assert_eq!(expected, actual);
}

#[test]
fn any_char_parser() {
    let input = "$";
    let expected = Ok((1, '$'));
    let actual = any_char().parse(input, 0);
    assert_eq!(expected, actual);
}

#[test]
fn literal_parser_error() {
    let input = "$$$";
    let expected = Err(0);
    assert_eq!(expected, match_literal("[").parse(input, 0))
}

#[test]
fn literal_parser() {
    let parse_joe = match_literal("Hello Joe!");
    assert_eq!(Ok((10, ())), parse_joe.parse("Hello Joe!", 0));
    assert_eq!(Ok((10, ())), parse_joe.parse("Hello Joe! Hello Robert!", 0));
    assert_eq!(Err(0), parse_joe.parse("Hello Mike!", 0));
}

#[test]
fn uint_rejects_overflow_and_keeps_max() {
    // the largest value that fits is kept exactly
    assert_eq!(Ok((20, u64::MAX)), uint().parse("18446744073709551615", 0));
    // one more fails instead of overflowing
    assert_eq!(Err(0), uint().parse("18446744073709551616", 0));
}

#[test]
fn negative_int_rejects_overflow_and_bare_sign() {
    assert_eq!(Ok((20, -i64::MAX)), negative_int().parse("-9223372036854775807", 0));
    assert_eq!(Err(0), negative_int().parse("-9223372036854775808", 0));
    // a bare sign fails just after the sign
    assert_eq!(Err(1), negative_int().parse("-", 0));
    assert_eq!(Err(1), negative_int().parse("-x", 0));
}

#[test]
fn quoted_string_without_escapes() {
    // no escape processing: the backslash is an ordinary character and
    // the first unescaped quote closes the string
    assert_eq!(Ok((4, "a\\".to_string())), quoted_string().parse("\"a\\\"x", 0));
    // unterminated string fails at the end of the input
    assert_eq!(Err(13), quoted_string().parse("\"unterminated", 0));
}
