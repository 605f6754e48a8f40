use json_parser_lib::combinator::{
    and_then, either, left, one_or_more, pred, right, zero_or_more, zero_or_one, Parser,
    ThenConst,
};
use json_parser_lib::lexical::{any_char, match_literal, quoted_string, uint, IsChar};

#[test]
fn left_combinator() {
    let test_parser = left(quoted_string(), match_literal("{"));
    assert_eq!(Ok((7, "test".to_string())), test_parser.parse("\"test\"{}", 0));
    assert_eq!(Err(0), test_parser.parse("bad", 0));
    assert_eq!(Err(5), test_parser.parse("\"bad\"}", 0));
}

#[test]
fn right_combinator() {
    let test_parser = right(match_literal("{"), quoted_string());
    assert_eq!(Ok((7, "test".to_string())), test_parser.parse("{\"test\"}", 0));
    assert_eq!(Err(0), test_parser.parse("bad", 0));
    assert_eq!(Err(1), test_parser.parse("{!bad", 0));
}

#[test]
fn zero_or_one_combinator() {
    let parser = zero_or_one(match_literal("yeet"));
    assert_eq!(Ok((0, vec![])), parser.parse("", 0));
    assert_eq!(Ok((0, vec![])), parser.parse("teey", 0));
    assert_eq!(Ok((4, vec![()])), parser.parse("yeet", 0));
    assert_eq!(Ok((4, vec![()])), parser.parse("yeetyeet", 0));
}

#[test]
fn zero_or_more_combinator() {
    let parser = zero_or_more(match_literal("ha"));
    assert_eq!(Ok((6, vec![(), (), ()])), parser.parse("hahaha", 0));
    assert_eq!(Ok((0, vec![])), parser.parse("ahah", 0));
    assert_eq!(Ok((0, vec![])), parser.parse("", 0));
}

#[test]
fn one_or_more_combinator() {
    let parser = one_or_more(match_literal("ha"));
    assert_eq!(Ok((6, vec![(), (), ()])), parser.parse("hahaha", 0));
    assert_eq!(Err(0), parser.parse("ahah", 0));
    assert_eq!(Err(0), parser.parse("", 0));
}

#[test]
fn predicate_combinator() {
    let parser = pred(any_char(), IsChar { value: 'o' });
    assert_eq!(Ok((1, 'o')), parser.parse("omg", 0));
    assert_eq!(Err(0), parser.parse("lol", 0));
}

#[test]
fn either_retries_second_parser_from_original_input() {
    let parser = either(match_literal("ha"), match_literal("ho"));
    // the first alternative fails on "ho", and the second sees the
    // untouched input, not a partially consumed one
    assert_eq!(Ok((2, ())), parser.parse("hoho", 0));
    assert_eq!(Ok((2, ())), parser.parse("haho", 0));
    assert_eq!(Err(0), parser.parse("hm", 0));
}

#[test]
fn and_then_continues_after_the_first_output() {
    let parser = and_then(match_literal("#"), ThenConst { next: uint() });
    assert_eq!(Ok((3, 12u64)), parser.parse("#12", 0));
    assert_eq!(Err(0), parser.parse("12", 0));
    assert_eq!(Err(1), parser.parse("#x", 0));
}

#[test]
fn pair_runs_in_series() {
    let parser = json_parser_lib::combinator::pair(match_literal("ab"), match_literal("cd"));
    assert_eq!(Ok((4, ((), ()))), parser.parse("abcd", 0));
    assert_eq!(Err(2), parser.parse("abab", 0));
}
