//! The JSON grammar: recursive-descent parsers for every JSON
//! production, composed from the lexical primitives and specified by
//! recursive functions over the input characters.
//!
//! Whitespace is trimmed at every value boundary, not only at the
//! document's edges.  Leading and trailing commas in arrays and
//! objects are rejected.  A repeated object key keeps the last value
//! (last write wins).  A document must hold exactly one value followed
//! by nothing but whitespace; trailing characters are rejected.
//!
//! Failure carries the most specific position at which parsing could
//! not continue, together with a [`ParseErrorKind`] naming what was
//! expected there.

use crate::combinator::{Either, MapFn, Mapped, Parser, either, mapped};
use crate::lexer::LexErrorKind;
use crate::lexical::{
    spec_digits_end, spec_int, spec_is_digit, spec_is_json_ws, spec_literal, spec_quoted, spec_string_end,
    spec_uint, spec_ws_end, spec_all_ws, lemma_ws_end, lemma_ws_end_skip, lemma_ws_end_embed,
    lemma_string_end, lemma_string_end_embed, lemma_digits_end, lemma_digits_end_embed,
    lemma_digits_val_embed, quoted_string, negative_int, uint, skip_ws, IntParser, MatchLiteral,
    QuotedString, UintParser, match_literal,
};
use crate::value::{
    NumberValue, SpecValue, Value, spec_obj_insert, spec_obj_keys_unique, spec_pairs_view,
    spec_seq_view, spec_value_wf, lemma_obj_insert_elems, lemma_obj_insert_preserves_unique,
    lemma_pairs_view_elems, lemma_seq_view_elems,
};
use vstd::prelude::*;
use vstd::string::StrSliceExecFns;

verus! {

broadcast use vstd::seq::group_seq_axioms;

/// The ways parsing a document can fail.
#[derive(Debug, Clone, Copy, PartialEq, Eq)]
pub enum ParseErrorKind {
    /// A lexical fault: a bad literal, string or number.
    LexError(LexErrorKind),
    /// The input ended where a value should begin.
    EarlyEOF,
    /// The input ended inside an unclosed array.
    UnclosedBracket,
    /// The input ended inside an unclosed object.
    UnclosedBrace,
    /// An object key was not followed by a colon.
    ExpectedColon,
    /// Array elements or object pairs not separated by a comma.
    ExpectedComma,
    /// No JSON value begins at this position.
    ExpectedValue,
    /// An object holds something other than a quoted key.
    ExpectedProperty,
    /// A complete value was followed by more than whitespace.
    UnexpectedToken,
}

/// A parse failure: what was expected, and where.
#[derive(Debug, Clone, Copy, PartialEq, Eq)]
pub struct ParseError {
    /// What was expected at the failure position.
    pub kind: ParseErrorKind,
    /// Character offset of the failure.
    pub offset: usize,
    /// Row and column of the failure.
    pub location: crate::location::Location,
}

impl ParseError {
    /// Carry a lexical failure over into the parse error taxonomy,
    /// keeping its position.
    pub fn from_lex_error(lex_err: &crate::lexer::LexError) -> (r: ParseError)
        ensures
            r.kind == ParseErrorKind::LexError(lex_err.kind),
            r.offset == lex_err.offset,
            r.location == lex_err.location,
    {
        ParseError {
            kind: ParseErrorKind::LexError(lex_err.kind),
            offset: lex_err.offset,
            location: lex_err.location,
        }
    }
}

/// A JSON value with the whitespace around it: whitespace, then a bare
/// value, then whitespace again.
pub open spec fn spec_json_value(s: Seq<char>, i: int) -> Result<
    (int, SpecValue),
    (int, ParseErrorKind),
>
    decreases s.len() - i, 1int,
{
    if !(0 <= i <= s.len()) {
        Err((i, ParseErrorKind::ExpectedValue))
    } else {
        let a = spec_ws_end(s, i);
        if !(i <= a <= s.len()) {
            Err((i, ParseErrorKind::ExpectedValue))
        } else {
            match spec_bare_value(s, a) {
                Ok((j, v)) => if j <= s.len() {
                    Ok((spec_ws_end(s, j), v))
                } else {
                    Ok((j, v))
                },
                Err(e) => Err(e),
            }
        }
    }
}

/// A bare JSON value, dispatched on its first character: an object, an
/// array, a string, one of the three literals, or a number.  The
/// alternatives begin with distinct characters, so no case shadows
/// another.
pub open spec fn spec_bare_value(s: Seq<char>, i: int) -> Result<
    (int, SpecValue),
    (int, ParseErrorKind),
>
    decreases s.len() - i, 0int,
{
    if !(0 <= i <= s.len()) {
        Err((i, ParseErrorKind::ExpectedValue))
    } else if i == s.len() {
        Err((i, ParseErrorKind::EarlyEOF))
    } else {
        let c = s[i];
        if c == '{' {
            spec_object_body(s, i + 1)
        } else if c == '[' {
            spec_array_body(s, i + 1)
        } else if c == '"' {
            match spec_quoted(s, i) {
                Ok((j, text)) => Ok((j, SpecValue::String(text))),
                Err(e) => Err((e, ParseErrorKind::LexError(LexErrorKind::UnclosedQuotes))),
            }
        } else if c == 't' {
            match spec_literal(s, i, "true"@) {
                Ok((j, _)) => Ok((j, SpecValue::Boolean(true))),
                Err(e) => Err(
                    (e, ParseErrorKind::LexError(LexErrorKind::UnfinishedBoolValue(true))),
                ),
            }
        } else if c == 'f' {
            match spec_literal(s, i, "false"@) {
                Ok((j, _)) => Ok((j, SpecValue::Boolean(false))),
                Err(e) => Err(
                    (e, ParseErrorKind::LexError(LexErrorKind::UnfinishedBoolValue(false))),
                ),
            }
        } else if c == 'n' {
            match spec_literal(s, i, "null"@) {
                Ok((j, _)) => Ok((j, SpecValue::Null)),
                Err(e) => Err((e, ParseErrorKind::LexError(LexErrorKind::UnfinishedNullValue))),
            }
        } else if c == '-' {
            match spec_int(s, i) {
                Ok((j, v)) => Ok((j, SpecValue::Number(NumberValue::Int(v)))),
                Err(e) => Err((e, ParseErrorKind::LexError(LexErrorKind::ParseNumberError))),
            }
        } else if spec_is_digit(c) {
            match spec_uint(s, i) {
                Ok((j, v)) => Ok((j, SpecValue::Number(NumberValue::UInt(v)))),
                Err(e) => Err((e, ParseErrorKind::LexError(LexErrorKind::ParseNumberError))),
            }
        } else {
            Err((i, ParseErrorKind::ExpectedValue))
        }
    }
}

/// The inside of an array, entered just after the `[`: either
/// whitespace and `]`, or one value followed by comma-separated
/// values, closed by `]`.
pub open spec fn spec_array_body(s: Seq<char>, i: int) -> Result<
    (int, SpecValue),
    (int, ParseErrorKind),
>
    decreases s.len() - i, 2int,
{
    if !(0 <= i <= s.len()) {
        Err((i, ParseErrorKind::ExpectedValue))
    } else {
        let a = spec_ws_end(s, i);
        if !(i <= a <= s.len()) {
            Err((i, ParseErrorKind::ExpectedValue))
        } else if a == s.len() {
            Err((a, ParseErrorKind::UnclosedBracket))
        } else if s[a] == ']' {
            Ok((a + 1, SpecValue::Array(Seq::empty())))
        } else {
            match spec_json_value(s, i) {
                Ok((j, v)) => if i < j <= s.len() {
                    spec_array_rest(s, j, seq![v])
                } else {
                    Err((i, ParseErrorKind::ExpectedValue))
                },
                Err(e) => Err(e),
            }
        }
    }
}

/// The remainder of an array after a complete element: repeatedly a
/// comma and a value, until the closing `]`.
pub open spec fn spec_array_rest(s: Seq<char>, k: int, acc: Seq<SpecValue>) -> Result<
    (int, SpecValue),
    (int, ParseErrorKind),
>
    decreases s.len() - k, 0int,
{
    if !(0 <= k <= s.len()) {
        Err((k, ParseErrorKind::ExpectedComma))
    } else if k == s.len() {
        Err((k, ParseErrorKind::UnclosedBracket))
    } else if s[k] == ']' {
        Ok((k + 1, SpecValue::Array(acc)))
    } else if s[k] == ',' {
        match spec_json_value(s, k + 1) {
            Ok((j, v)) => if k < j <= s.len() {
                spec_array_rest(s, j, acc.push(v))
            } else {
                Err((k, ParseErrorKind::ExpectedComma))
            },
            Err(e) => Err(e),
        }
    } else {
        Err((k, ParseErrorKind::ExpectedComma))
    }
}

/// The inside of an object, entered just after the `{`: either
/// whitespace and `}`, or one key/value pair followed by
/// comma-separated pairs, closed by `}`.
pub open spec fn spec_object_body(s: Seq<char>, i: int) -> Result<
    (int, SpecValue),
    (int, ParseErrorKind),
>
    decreases s.len() - i, 2int,
{
    if !(0 <= i <= s.len()) {
        Err((i, ParseErrorKind::ExpectedProperty))
    } else {
        let a = spec_ws_end(s, i);
        if !(i <= a <= s.len()) {
            Err((i, ParseErrorKind::ExpectedProperty))
        } else if a == s.len() {
            Err((a, ParseErrorKind::UnclosedBrace))
        } else if s[a] == '}' {
            Ok((a + 1, SpecValue::Object(Seq::empty())))
        } else {
            match spec_pair(s, i) {
                Ok((j, kv)) => if i < j <= s.len() {
                    spec_object_rest(s, j, seq![kv])
                } else {
                    Err((i, ParseErrorKind::ExpectedProperty))
                },
                Err(e) => Err(e),
            }
        }
    }
}

/// The remainder of an object after a complete pair: repeatedly a
/// comma and a pair, until the closing `}`.  A repeated key overwrites
/// the value it was bound to: last write wins.
pub open spec fn spec_object_rest(
    s: Seq<char>,
    k: int,
    acc: Seq<(Seq<char>, SpecValue)>,
) -> Result<(int, SpecValue), (int, ParseErrorKind)>
    decreases s.len() - k, 0int,
{
    if !(0 <= k <= s.len()) {
        Err((k, ParseErrorKind::ExpectedComma))
    } else if k == s.len() {
        Err((k, ParseErrorKind::UnclosedBrace))
    } else if s[k] == '}' {
        Ok((k + 1, SpecValue::Object(acc)))
    } else if s[k] == ',' {
        match spec_pair(s, k + 1) {
            Ok((j, kv)) => if k < j <= s.len() {
                spec_object_rest(s, j, spec_obj_insert(acc, kv.0, kv.1))
            } else {
                Err((k, ParseErrorKind::ExpectedComma))
            },
            Err(e) => Err(e),
        }
    } else {
        Err((k, ParseErrorKind::ExpectedComma))
    }
}

/// One object pair: a quoted key with whitespace around it, a colon,
/// and a value.
pub open spec fn spec_pair(s: Seq<char>, i: int) -> Result<
    (int, (Seq<char>, SpecValue)),
    (int, ParseErrorKind),
>
    decreases s.len() - i, 0int,
{
    if !(0 <= i <= s.len()) {
        Err((i, ParseErrorKind::ExpectedProperty))
    } else {
        let a = spec_ws_end(s, i);
        if !(i <= a <= s.len()) {
            Err((i, ParseErrorKind::ExpectedProperty))
        } else if a == s.len() {
            Err((a, ParseErrorKind::UnclosedBrace))
        } else if s[a] != '"' {
            Err((a, ParseErrorKind::ExpectedProperty))
        } else {
            match spec_quoted(s, a) {
                Err(e) => Err((e, ParseErrorKind::LexError(LexErrorKind::UnclosedQuotes))),
                Ok((j, key)) => {
                    let b = spec_ws_end(s, j);
                    if !(i <= b <= s.len()) {
                        Err((i, ParseErrorKind::ExpectedColon))
                    } else if b == s.len() {
                        Err((b, ParseErrorKind::UnclosedBrace))
                    } else if s[b] != ':' {
                        Err((b, ParseErrorKind::ExpectedColon))
                    } else {
                        match spec_json_value(s, b + 1) {
                            Ok((m, v)) => Ok((m, (key, v))),
                            Err(e) => Err(e),
                        }
                    }
                },
            }
        }
    }
}

/// A value consumes at least one character and stays within the
/// input; a failure position lies within the input.
pub proof fn lemma_json_value_bounds(s: Seq<char>, i: int)
    requires
        0 <= i <= s.len(),
    ensures
        spec_json_value(s, i) matches Ok((j, _)) ==> i < j <= s.len(),
        spec_json_value(s, i) matches Err((e, _)) ==> i <= e <= s.len(),
    decreases s.len() - i, 1int,
{
    lemma_ws_end(s, i);
    let a = spec_ws_end(s, i);
    lemma_bare_value_bounds(s, a);
    match spec_bare_value(s, a) {
        Ok((j, _)) => {
            lemma_ws_end(s, j);
        },
        Err(_) => {},
    }
}

/// A bare value consumes at least one character and stays within the
/// input; a failure position lies within the input.
pub proof fn lemma_bare_value_bounds(s: Seq<char>, i: int)
    requires
        0 <= i <= s.len(),
    ensures
        spec_bare_value(s, i) matches Ok((j, _)) ==> i < j <= s.len(),
        spec_bare_value(s, i) matches Err((e, _)) ==> i <= e <= s.len(),
    decreases s.len() - i, 0int,
{
    if i < s.len() {
        let c = s[i];
        if c == '{' {
            lemma_object_body_bounds(s, i + 1);
        } else if c == '[' {
            lemma_array_body_bounds(s, i + 1);
        } else if c == '"' {
            lemma_string_end(s, i + 1);
        } else if c == 't' || c == 'f' || c == 'n' {
            reveal_strlit("true");
            reveal_strlit("false");
            reveal_strlit("null");
        } else if c == '-' {
            lemma_digits_end(s, i + 1);
        } else if spec_is_digit(c) {
            lemma_digits_end(s, i);
        }
    }
}

/// An array body ends within the input, after at least one character;
/// a failure position lies within the input.
pub proof fn lemma_array_body_bounds(s: Seq<char>, i: int)
    requires
        0 <= i <= s.len(),
    ensures
        spec_array_body(s, i) matches Ok((j, _)) ==> i < j <= s.len(),
        spec_array_body(s, i) matches Err((e, _)) ==> i <= e <= s.len(),
    decreases s.len() - i, 2int,
{
    lemma_ws_end(s, i);
    let a = spec_ws_end(s, i);
    if a < s.len() && s[a] != ']' {
        lemma_json_value_bounds(s, i);
        if let Ok((j, v)) = spec_json_value(s, i) {
            lemma_array_rest_bounds(s, j, seq![v]);
        }
    }
}

/// The rest of an array ends within the input; a failure position lies
/// within the input.
pub proof fn lemma_array_rest_bounds(s: Seq<char>, k: int, acc: Seq<SpecValue>)
    requires
        0 <= k <= s.len(),
    ensures
        spec_array_rest(s, k, acc) matches Ok((j, _)) ==> k < j <= s.len(),
        spec_array_rest(s, k, acc) matches Err((e, _)) ==> k <= e <= s.len(),
    decreases s.len() - k, 0int,
{
    if k < s.len() && s[k] == ',' {
        lemma_json_value_bounds(s, k + 1);
        if let Ok((j, v)) = spec_json_value(s, k + 1) {
            lemma_array_rest_bounds(s, j, acc.push(v));
        }
    }
}

/// An object body ends within the input, after at least one character;
/// a failure position lies within the input.
pub proof fn lemma_object_body_bounds(s: Seq<char>, i: int)
    requires
        0 <= i <= s.len(),
    ensures
        spec_object_body(s, i) matches Ok((j, _)) ==> i < j <= s.len(),
        spec_object_body(s, i) matches Err((e, _)) ==> i <= e <= s.len(),
    decreases s.len() - i, 2int,
{
    lemma_ws_end(s, i);
    let a = spec_ws_end(s, i);
    if a < s.len() && s[a] != '}' {
        lemma_pair_bounds(s, i);
        if let Ok((j, kv)) = spec_pair(s, i) {
            lemma_object_rest_bounds(s, j, seq![kv]);
        }
    }
}

/// The rest of an object ends within the input; a failure position
/// lies within the input.
pub proof fn lemma_object_rest_bounds(s: Seq<char>, k: int, acc: Seq<(Seq<char>, SpecValue)>)
    requires
        0 <= k <= s.len(),
    ensures
        spec_object_rest(s, k, acc) matches Ok((j, _)) ==> k < j <= s.len(),
        spec_object_rest(s, k, acc) matches Err((e, _)) ==> k <= e <= s.len(),
    decreases s.len() - k, 0int,
{
    if k < s.len() && s[k] == ',' {
        lemma_pair_bounds(s, k + 1);
        if let Ok((j, kv)) = spec_pair(s, k + 1) {
            lemma_object_rest_bounds(s, j, spec_obj_insert(acc, kv.0, kv.1));
        }
    }
}

/// A pair consumes at least one character and stays within the input;
/// a failure position lies within the input.
pub proof fn lemma_pair_bounds(s: Seq<char>, i: int)
    requires
        0 <= i <= s.len(),
    ensures
        spec_pair(s, i) matches Ok((j, _)) ==> i < j <= s.len(),
        spec_pair(s, i) matches Err((e, _)) ==> i <= e <= s.len(),
    decreases s.len() - i, 0int,
{
    lemma_ws_end(s, i);
    let a = spec_ws_end(s, i);
    if a < s.len() && s[a] == '"' {
        lemma_string_end(s, a + 1);
        if let Ok((j, _)) = spec_quoted(s, a) {
            lemma_ws_end(s, j);
            let b = spec_ws_end(s, j);
            if b < s.len() && s[b] == ':' {
                lemma_json_value_bounds(s, b + 1);
            }
        }
    }
}

/// A whole document: one JSON value with whitespace around it, and
/// nothing after it.
pub open spec fn spec_json_doc(s: Seq<char>) -> Result<SpecValue, (int, ParseErrorKind)> {
    match spec_json_value(s, 0) {
        Ok((j, v)) => if j == s.len() {
            Ok(v)
        } else {
            Err((j, ParseErrorKind::UnexpectedToken))
        },
        Err(e) => Err(e),
    }
}

/// Round-trip-stable primitives: a document holding exactly a boolean
/// or null literal parses to exactly the corresponding value, and the
/// value consumes exactly the literal's length.
pub proof fn lemma_literal_round_trip(s: Seq<char>)
    requires
        s == "true"@ || s == "false"@ || s == "null"@,
    ensures
        s == "true"@ ==> spec_json_value(s, 0) == Ok::<(int, SpecValue), (int, ParseErrorKind)>(
            (s.len() as int, SpecValue::Boolean(true)),
        ),
        s == "false"@ ==> spec_json_value(s, 0) == Ok::<(int, SpecValue), (int, ParseErrorKind)>(
            (s.len() as int, SpecValue::Boolean(false)),
        ),
        s == "null"@ ==> spec_json_value(s, 0) == Ok::<(int, SpecValue), (int, ParseErrorKind)>(
            (s.len() as int, SpecValue::Null),
        ),
        s == "true"@ ==> spec_json_doc(s) == Ok::<SpecValue, (int, ParseErrorKind)>(
            SpecValue::Boolean(true),
        ),
        s == "false"@ ==> spec_json_doc(s) == Ok::<SpecValue, (int, ParseErrorKind)>(
            SpecValue::Boolean(false),
        ),
        s == "null"@ ==> spec_json_doc(s) == Ok::<SpecValue, (int, ParseErrorKind)>(
            SpecValue::Null,
        ),
{
    reveal_strlit("true");
    reveal_strlit("false");
    reveal_strlit("null");
    assert(spec_ws_end(s, 0) == 0);
    if s == "true"@ {
        assert(s.subrange(0, 4) =~= s);
        assert(spec_literal(s, 0, "true"@) == Ok::<(int, ()), int>((4, ())));
        assert(spec_ws_end(s, 4) == 4);
    } else if s == "false"@ {
        assert(s.subrange(0, 5) =~= s);
        assert(spec_literal(s, 0, "false"@) == Ok::<(int, ()), int>((5, ())));
        assert(spec_ws_end(s, 5) == 5);
    } else {
        assert(s.subrange(0, 4) =~= s);
        assert(spec_literal(s, 0, "null"@) == Ok::<(int, ()), int>((4, ())));
        assert(spec_ws_end(s, 4) == 4);
    }
}

/// A parsed value is well formed: every object anywhere in it has
/// unique keys.
pub proof fn lemma_json_value_wf(s: Seq<char>, i: int)
    requires
        0 <= i <= s.len(),
    ensures
        spec_json_value(s, i) matches Ok((_, v)) ==> spec_value_wf(v),
    decreases s.len() - i, 1int,
{
    lemma_ws_end(s, i);
    lemma_bare_value_wf(s, spec_ws_end(s, i));
}

/// A parsed bare value is well formed.
pub proof fn lemma_bare_value_wf(s: Seq<char>, i: int)
    requires
        0 <= i <= s.len(),
    ensures
        spec_bare_value(s, i) matches Ok((_, v)) ==> spec_value_wf(v),
    decreases s.len() - i, 0int,
{
    if i < s.len() {
        let c = s[i];
        if c == '{' {
            lemma_object_body_wf(s, i + 1);
        } else if c == '[' {
            lemma_array_body_wf(s, i + 1);
        }
    }
}

/// A parsed array body is well formed.
pub proof fn lemma_array_body_wf(s: Seq<char>, i: int)
    requires
        0 <= i <= s.len(),
    ensures
        spec_array_body(s, i) matches Ok((_, v)) ==> spec_value_wf(v),
    decreases s.len() - i, 2int,
{
    lemma_ws_end(s, i);
    let a = spec_ws_end(s, i);
    if a < s.len() && s[a] != ']' {
        lemma_json_value_bounds(s, i);
        lemma_json_value_wf(s, i);
        if let Ok((j, v)) = spec_json_value(s, i) {
            assert forall|k: int| 0 <= k < seq![v].len() implies spec_value_wf(
                #[trigger] seq![v][k],
            ) by {}
            lemma_array_rest_wf(s, j, seq![v]);
        }
    }
}

/// The remainder of an array keeps a well-formed accumulator well
/// formed.
pub proof fn lemma_array_rest_wf(s: Seq<char>, k: int, acc: Seq<SpecValue>)
    requires
        0 <= k <= s.len(),
        forall|m: int| 0 <= m < acc.len() ==> spec_value_wf(#[trigger] acc[m]),
    ensures
        spec_array_rest(s, k, acc) matches Ok((_, v)) ==> spec_value_wf(v),
    decreases s.len() - k, 0int,
{
    if k < s.len() && s[k] == ',' {
        lemma_json_value_bounds(s, k + 1);
        lemma_json_value_wf(s, k + 1);
        if let Ok((j, v)) = spec_json_value(s, k + 1) {
            assert forall|m: int| 0 <= m < acc.push(v).len() implies spec_value_wf(
                #[trigger] acc.push(v)[m],
            ) by {
                if m < acc.len() {
                    assert(acc.push(v)[m] == acc[m]);
                }
            }
            if k < j <= s.len() {
                lemma_array_rest_wf(s, j, acc.push(v));
            }
        }
    }
}

/// A parsed object body is well formed.
pub proof fn lemma_object_body_wf(s: Seq<char>, i: int)
    requires
        0 <= i <= s.len(),
    ensures
        spec_object_body(s, i) matches Ok((_, v)) ==> spec_value_wf(v),
    decreases s.len() - i, 2int,
{
    lemma_ws_end(s, i);
    let a = spec_ws_end(s, i);
    if a < s.len() && s[a] != '}' {
        lemma_pair_bounds(s, i);
        lemma_pair_wf(s, i);
        if let Ok((j, kv)) = spec_pair(s, i) {
            lemma_object_rest_wf(s, j, seq![kv]);
        }
    }
}

/// The remainder of an object keeps a unique-keyed, well-formed
/// accumulator well formed.
pub proof fn lemma_object_rest_wf(s: Seq<char>, k: int, acc: Seq<(Seq<char>, SpecValue)>)
    requires
        0 <= k <= s.len(),
        spec_obj_keys_unique(acc),
        forall|m: int| 0 <= m < acc.len() ==> spec_value_wf((#[trigger] acc[m]).1),
    ensures
        spec_object_rest(s, k, acc) matches Ok((_, v)) ==> spec_value_wf(v),
    decreases s.len() - k, 0int,
{
    if k < s.len() && s[k] == ',' {
        lemma_pair_bounds(s, k + 1);
        lemma_pair_wf(s, k + 1);
        if let Ok((j, kv)) = spec_pair(s, k + 1) {
            let inserted = spec_obj_insert(acc, kv.0, kv.1);
            lemma_obj_insert_preserves_unique(acc, kv.0, kv.1);
            lemma_obj_insert_elems(acc, kv.0, kv.1);
            assert forall|m: int| 0 <= m < inserted.len() implies spec_value_wf(
                (#[trigger] inserted[m]).1,
            ) by {
                if inserted[m] != (kv.0, kv.1) {
                    let q = choose|q: int| 0 <= q < acc.len() && acc[q] == inserted[m];
                    assert(spec_value_wf(acc[q].1));
                }
            }
            if k < j <= s.len() {
                lemma_object_rest_wf(s, j, inserted);
            }
        }
    }
}

/// A parsed pair carries a well-formed value.
pub proof fn lemma_pair_wf(s: Seq<char>, i: int)
    requires
        0 <= i <= s.len(),
    ensures
        spec_pair(s, i) matches Ok((_, kv)) ==> spec_value_wf(kv.1),
    decreases s.len() - i, 0int,
{
    lemma_ws_end(s, i);
    let a = spec_ws_end(s, i);
    if a < s.len() && s[a] == '"' {
        lemma_string_end(s, a + 1);
        if let Ok((j, _)) = spec_quoted(s, a) {
            lemma_ws_end(s, j);
            let b = spec_ws_end(s, j);
            if b < s.len() && s[b] == ':' {
                lemma_json_value_wf(s, b + 1);
            }
        }
    }
}

/// Every document that parses successfully parses to a well-formed
/// value: all of its objects have unique keys.
pub proof fn lemma_json_doc_wf(s: Seq<char>)
    ensures
        spec_json_doc(s) matches Ok(v) ==> spec_value_wf(v),
{
    lemma_json_value_wf(s, 0);
}

/// Embedding offset for values whose trailing whitespace may run into
/// the padding: a position strictly inside `s` maps to the same spot,
/// and the end of `s` maps to the end of the padded text.
pub open spec fn spec_embed_end(s: Seq<char>, p: Seq<char>, w: Seq<char>, j: int) -> int {
    if j < s.len() {
        p.len() + j
    } else {
        (p + s + w).len() as int
    }
}

/// A bare value parsed out of `s` parses identically out of
/// `p + s + w` at the shifted position, when `w` is all whitespace.
pub proof fn lemma_bare_value_embed(s: Seq<char>, p: Seq<char>, w: Seq<char>, i: int)
    requires
        0 <= i <= s.len(),
        spec_all_ws(w),
    ensures
        spec_bare_value(s, i) matches Ok((j, v)) ==> spec_bare_value(p + s + w, p.len() + i)
            == Ok::<(int, SpecValue), (int, ParseErrorKind)>((p.len() + j, v)),
    decreases s.len() - i, 0int,
{
    let t = p + s + w;
    let d = p.len() as int;
    if spec_bare_value(s, i) is Ok && i < s.len() {
        assert(t[d + i] == s[i]);
        let c = s[i];
        if c == '{' {
            lemma_object_body_embed(s, p, w, i + 1);
        } else if c == '[' {
            lemma_array_body_embed(s, p, w, i + 1);
        } else if c == '"' {
            lemma_string_end(s, i + 1);
            let close = spec_string_end(s, i + 1);
            lemma_string_end_embed(s, p, w, i + 1);
            assert(t.subrange(d + i + 1, d + close) =~= s.subrange(i + 1, close));
        } else if c == 't' || c == 'f' || c == 'n' {
            reveal_strlit("true");
            reveal_strlit("false");
            reveal_strlit("null");
            let lit = if c == 't' {
                "true"@
            } else if c == 'f' {
                "false"@
            } else {
                "null"@
            };
            if spec_literal(s, i, lit) is Ok {
                assert(t.subrange(d + i, d + i + lit.len()) =~= s.subrange(i, i + lit.len()));
            }
        } else if c == '-' {
            lemma_digits_end(s, i + 1);
            lemma_digits_end_embed(s, p, w, i + 1);
            let dend = spec_digits_end(s, i + 1);
            lemma_digits_val_embed(s, p, w, i + 1, dend);
        } else if spec_is_digit(c) {
            lemma_digits_end(s, i);
            lemma_digits_end_embed(s, p, w, i);
            let dend = spec_digits_end(s, i);
            lemma_digits_val_embed(s, p, w, i, dend);
        }
    }
}

/// A whole value parsed out of `s` parses out of `p + s + w` at the
/// shifted position, its trailing whitespace possibly running to the
/// end of the padding.
pub proof fn lemma_json_value_embed(s: Seq<char>, p: Seq<char>, w: Seq<char>, i: int)
    requires
        0 <= i <= s.len(),
        spec_all_ws(w),
    ensures
        spec_json_value(s, i) matches Ok((j, v)) ==> spec_json_value(p + s + w, p.len() + i)
            == Ok::<(int, SpecValue), (int, ParseErrorKind)>((spec_embed_end(s, p, w, j), v)),
    decreases s.len() - i, 1int,
{
    let t = p + s + w;
    let d = p.len() as int;
    if spec_json_value(s, i) is Ok {
        lemma_ws_end(s, i);
        let a = spec_ws_end(s, i);
        lemma_bare_value_bounds(s, a);
        if spec_bare_value(s, a) is Ok {
            // the bare value begins inside `s`, so the leading scan
            // stops at the same character
            assert(a < s.len());
            lemma_ws_end_embed(s, p, w, i);
            lemma_bare_value_embed(s, p, w, a);
            if let Ok((j1, v)) = spec_bare_value(s, a) {
                lemma_ws_end(s, j1);
                lemma_ws_end_embed(s, p, w, j1);
            }
        }
    }
}

/// An array body parsed out of `s` parses identically out of
/// `p + s + w` at the shifted position.
pub proof fn lemma_array_body_embed(s: Seq<char>, p: Seq<char>, w: Seq<char>, i: int)
    requires
        0 <= i <= s.len(),
        spec_all_ws(w),
    ensures
        spec_array_body(s, i) matches Ok((j, v)) ==> spec_array_body(p + s + w, p.len() + i)
            == Ok::<(int, SpecValue), (int, ParseErrorKind)>((p.len() + j, v)),
    decreases s.len() - i, 2int,
{
    let t = p + s + w;
    let d = p.len() as int;
    if spec_array_body(s, i) is Ok {
        lemma_ws_end(s, i);
        let a = spec_ws_end(s, i);
        assert(a < s.len());
        lemma_ws_end_embed(s, p, w, i);
        assert(t[d + a] == s[a]);
        if s[a] != ']' {
            lemma_json_value_bounds(s, i);
            if let Ok((j1, v1)) = spec_json_value(s, i) {
                // the rest of the array accepted, so the first element
                // ends strictly inside `s`
                assert(j1 < s.len());
                lemma_json_value_embed(s, p, w, i);
                lemma_array_rest_embed(s, p, w, j1, seq![v1]);
            }
        }
    }
}

/// The remainder of an array parsed out of `s` parses identically out
/// of `p + s + w` at the shifted position.
pub proof fn lemma_array_rest_embed(
    s: Seq<char>,
    p: Seq<char>,
    w: Seq<char>,
    k: int,
    acc: Seq<SpecValue>,
)
    requires
        0 <= k <= s.len(),
        spec_all_ws(w),
    ensures
        spec_array_rest(s, k, acc) matches Ok((j, v)) ==> spec_array_rest(
            p + s + w,
            p.len() + k,
            acc,
        ) == Ok::<(int, SpecValue), (int, ParseErrorKind)>((p.len() + j, v)),
    decreases s.len() - k, 0int,
{
    let t = p + s + w;
    let d = p.len() as int;
    if spec_array_rest(s, k, acc) is Ok {
        assert(k < s.len());
        assert(t[d + k] == s[k]);
        if s[k] == ',' {
            lemma_json_value_bounds(s, k + 1);
            if let Ok((j2, v2)) = spec_json_value(s, k + 1) {
                assert(spec_array_rest(s, k, acc) == spec_array_rest(s, j2, acc.push(v2)));
                if j2 == s.len() {
                    assert(spec_array_rest(s, j2, acc.push(v2)) == Err::<
                        (int, SpecValue),
                        (int, ParseErrorKind),
                    >((j2, ParseErrorKind::UnclosedBracket)));
                }
                assert(j2 < s.len());
                lemma_json_value_embed(s, p, w, k + 1);
                lemma_array_rest_embed(s, p, w, j2, acc.push(v2));
            }
        }
    }
}

/// An object body parsed out of `s` parses identically out of
/// `p + s + w` at the shifted position.
pub proof fn lemma_object_body_embed(s: Seq<char>, p: Seq<char>, w: Seq<char>, i: int)
    requires
        0 <= i <= s.len(),
        spec_all_ws(w),
    ensures
        spec_object_body(s, i) matches Ok((j, v)) ==> spec_object_body(p + s + w, p.len() + i)
            == Ok::<(int, SpecValue), (int, ParseErrorKind)>((p.len() + j, v)),
    decreases s.len() - i, 2int,
{
    let t = p + s + w;
    let d = p.len() as int;
    if spec_object_body(s, i) is Ok {
        lemma_ws_end(s, i);
        let a = spec_ws_end(s, i);
        assert(a < s.len());
        lemma_ws_end_embed(s, p, w, i);
        assert(t[d + a] == s[a]);
        if s[a] != '}' {
            lemma_pair_bounds(s, i);
            if let Ok((j1, kv)) = spec_pair(s, i) {
                assert(j1 < s.len());
                lemma_pair_embed(s, p, w, i);
                lemma_object_rest_embed(s, p, w, j1, seq![kv]);
            }
        }
    }
}

/// The remainder of an object parsed out of `s` parses identically out
/// of `p + s + w` at the shifted position.
pub proof fn lemma_object_rest_embed(
    s: Seq<char>,
    p: Seq<char>,
    w: Seq<char>,
    k: int,
    acc: Seq<(Seq<char>, SpecValue)>,
)
    requires
        0 <= k <= s.len(),
        spec_all_ws(w),
    ensures
        spec_object_rest(s, k, acc) matches Ok((j, v)) ==> spec_object_rest(
            p + s + w,
            p.len() + k,
            acc,
        ) == Ok::<(int, SpecValue), (int, ParseErrorKind)>((p.len() + j, v)),
    decreases s.len() - k, 0int,
{
    let t = p + s + w;
    let d = p.len() as int;
    if spec_object_rest(s, k, acc) is Ok {
        assert(k < s.len());
        assert(t[d + k] == s[k]);
        if s[k] == ',' {
            lemma_pair_bounds(s, k + 1);
            if let Ok((j2, kv)) = spec_pair(s, k + 1) {
                assert(spec_object_rest(s, k, acc) == spec_object_rest(
                    s,
                    j2,
                    spec_obj_insert(acc, kv.0, kv.1),
                ));
                if j2 == s.len() {
                    assert(spec_object_rest(s, j2, spec_obj_insert(acc, kv.0, kv.1)) == Err::<
                        (int, SpecValue),
                        (int, ParseErrorKind),
                    >((j2, ParseErrorKind::UnclosedBrace)));
                }
                assert(j2 < s.len());
                lemma_pair_embed(s, p, w, k + 1);
                lemma_object_rest_embed(s, p, w, j2, spec_obj_insert(acc, kv.0, kv.1));
            }
        }
    }
}

/// An object pair parsed out of `s` parses out of `p + s + w` at the
/// shifted position, the trailing whitespace of its value possibly
/// running to the end of the padding.
pub proof fn lemma_pair_embed(s: Seq<char>, p: Seq<char>, w: Seq<char>, i: int)
    requires
        0 <= i <= s.len(),
        spec_all_ws(w),
    ensures
        spec_pair(s, i) matches Ok((j, kv)) ==> spec_pair(p + s + w, p.len() + i) == Ok::<
            (int, (Seq<char>, SpecValue)),
            (int, ParseErrorKind),
        >((spec_embed_end(s, p, w, j), kv)),
    decreases s.len() - i, 0int,
{
    let t = p + s + w;
    let d = p.len() as int;
    if spec_pair(s, i) is Ok {
        lemma_ws_end(s, i);
        let a = spec_ws_end(s, i);
        assert(a < s.len());
        lemma_ws_end_embed(s, p, w, i);
        assert(t[d + a] == s[a]);
        lemma_string_end(s, a + 1);
        let close = spec_string_end(s, a + 1);
        assert(close < s.len());
        lemma_string_end_embed(s, p, w, a + 1);
        assert(t.subrange(d + a + 1, d + close) =~= s.subrange(a + 1, close));
        let j_key = close + 1;
        lemma_ws_end(s, j_key);
        let b = spec_ws_end(s, j_key);
        assert(b < s.len());
        lemma_ws_end_embed(s, p, w, j_key);
        assert(t[d + b] == s[b]);
        lemma_json_value_bounds(s, b + 1);
        lemma_json_value_embed(s, p, w, b + 1);
    }
}

/// Idempotent whitespace tolerance at the document's edges: padding a
/// valid document with runs of whitespace in front and behind does not
/// change the parsed value.
pub proof fn lemma_ws_padding(s: Seq<char>, p: Seq<char>, w: Seq<char>)
    requires
        spec_all_ws(p),
        spec_all_ws(w),
        spec_json_doc(s) is Ok,
    ensures
        spec_json_doc(p + s + w) == spec_json_doc(s),
{
    let t = p + s + w;
    let d = p.len() as int;
    lemma_json_value_bounds(s, 0);
    lemma_json_value_embed(s, p, w, 0);
    if let Ok((j, v)) = spec_json_value(s, 0) {
        assert(j == s.len());
        assert(spec_json_value(t, d) == Ok::<(int, SpecValue), (int, ParseErrorKind)>(
            (t.len() as int, v),
        ));
        // the padding in front is whitespace, so the document's leading
        // scan runs through it to the same place
        assert forall|m: int| 0 <= m < d implies spec_is_json_ws(#[trigger] t[m]) by {
            assert(t[m] == p[m]);
        }
        lemma_ws_end_skip(t, 0, d);
        assert(spec_json_value(t, 0) == spec_json_value(t, d)) by {
            lemma_ws_end(t, 0);
        }
    }
}

/// Inserting a key that does not occur among the first `m` pairs
/// leaves those pairs alone.
proof fn lemma_obj_insert_skip(
    q: Seq<(Seq<char>, SpecValue)>,
    key: Seq<char>,
    v: SpecValue,
    m: int,
)
    requires
        0 <= m <= q.len(),
        forall|p: int| 0 <= p < m ==> (#[trigger] q[p]).0 != key,
    ensures
        spec_obj_insert(q, key, v) == q.subrange(0, m) + spec_obj_insert(
            q.subrange(m, q.len() as int),
            key,
            v,
        ),
    decreases m,
{
    if m == 0 {
        assert(q.subrange(0, q.len() as int) =~= q);
        assert(q.subrange(0, 0) + spec_obj_insert(q.subrange(0, q.len() as int), key, v)
            =~= spec_obj_insert(q, key, v));
    } else {
        let tail = q.subrange(1, q.len() as int);
        assert(q[0].0 != key);
        assert(spec_obj_insert(q, key, v) == seq![q[0]] + spec_obj_insert(tail, key, v)) by {
            assert(q.len() > 0);
            assert(q.drop_first() =~= tail);
        }
        assert forall|p: int| 0 <= p < m - 1 implies (#[trigger] tail[p]).0 != key by {
            assert(tail[p] == q[p + 1]);
        }
        lemma_obj_insert_skip(tail, key, v, m - 1);
        assert(tail.subrange(m - 1, tail.len() as int) =~= q.subrange(m, q.len() as int));
        assert(seq![q[0]] + (tail.subrange(0, m - 1) + spec_obj_insert(
            q.subrange(m, q.len() as int),
            key,
            v,
        )) =~= q.subrange(0, m) + spec_obj_insert(q.subrange(m, q.len() as int), key, v));
    }
}

/// Bind `key` to `val` in the pair vector: overwrite the pair already
/// carrying `key`, if any, else append a new pair (last write wins).
pub(crate) fn obj_insert(pairs: &mut Vec<(String, Value)>, key: String, val: Value)
    ensures
        spec_pairs_view(final(pairs)@) == spec_obj_insert(
            spec_pairs_view(old(pairs)@),
            key@,
            val.deep_view(),
        ),
{
    let ghost q = spec_pairs_view(pairs@);
    let ghost keym = key@;
    let ghost vm = val.deep_view();
    proof {
        lemma_pairs_view_elems(pairs@);
    }
    let n = pairs.len();
    let mut idx: usize = 0;
    loop
        invariant
            0 <= idx <= n,
            n == pairs@.len(),
            pairs@ == old(pairs)@,
            q == spec_pairs_view(pairs@),
            q.len() == n,
            keym == key@,
            vm == val.deep_view(),
            forall|p: int| 0 <= p < idx ==> (#[trigger] q[p]).0 != keym,
            forall|p: int|
                0 <= p < pairs@.len() ==> q[p] == (
                    (#[trigger] pairs@[p]).0@,
                    pairs@[p].1.deep_view(),
                ),
        decreases n - idx,
    {
        if idx >= n {
            proof {
                lemma_obj_insert_skip(q, keym, vm, q.len() as int);
                assert(q.subrange(q.len() as int, q.len() as int) =~= Seq::empty());
                assert(spec_obj_insert(Seq::empty(), keym, vm) =~= seq![(keym, vm)]);
                assert(q.subrange(0, q.len() as int) =~= q);
                assert(spec_obj_insert(q, keym, vm) =~= q.push((keym, vm)));
            }
            pairs.push((key, val));
            proof {
                lemma_pairs_view_elems(pairs@);
                assert(spec_pairs_view(pairs@) =~= q.push((keym, vm)));
            }
            return ;
        }
        if pairs[idx].0.eq(&key) {
            proof {
                assert(q[idx as int].0 == keym);
                lemma_obj_insert_skip(q, keym, vm, idx as int);
                let suffix = q.subrange(idx as int, q.len() as int);
                assert(suffix[0].0 == keym);
                assert(spec_obj_insert(suffix, keym, vm) == seq![(keym, vm)]
                    + suffix.drop_first());
                assert(suffix.drop_first() =~= q.subrange(idx + 1, q.len() as int));
                assert(spec_obj_insert(q, keym, vm) =~= q.update(idx as int, (keym, vm)));
            }
            pairs[idx] = (key, val);
            proof {
                lemma_pairs_view_elems(pairs@);
                assert(spec_pairs_view(pairs@) =~= q.update(idx as int, (keym, vm)));
            }
            return ;
        }
        idx = idx + 1;
    }
}

/// Parse the bare value beginning at `pos` (no surrounding whitespace).
fn parse_bare_at(input: &str, pos: usize) -> (r: Result<(usize, Value), (usize, ParseErrorKind)>)
    requires
        pos <= input@.len(),
        input@.len() <= usize::MAX,
    ensures
        match spec_bare_value(input@, pos as int) {
            Ok((j, v)) => (r matches Ok(p) && p.0 as int == j && p.1.deep_view() == v),
            Err((e, k)) => (r matches Err(q) && q.0 as int == e && q.1 == k),
        },
    decreases input@.len() - pos, 0int,
{
    let n = input.unicode_len();
    if pos == n {
        return Err((pos, ParseErrorKind::EarlyEOF));
    }
    let c = input.get_char(pos);
    if c == '{' {
        parse_object_body_at(input, pos + 1)
    } else if c == '[' {
        parse_array_body_at(input, pos + 1)
    } else if c == '"' {
        match quoted_string().parse(input, pos) {
            Ok((j, text)) => Ok((j, Value::String(text))),
            Err(e) => Err((e, ParseErrorKind::LexError(LexErrorKind::UnclosedQuotes))),
        }
    } else if c == 't' {
        match match_literal("true").parse(input, pos) {
            Ok((j, _)) => Ok((j, Value::Boolean(true))),
            Err(e) => Err((e, ParseErrorKind::LexError(LexErrorKind::UnfinishedBoolValue(true)))),
        }
    } else if c == 'f' {
        match match_literal("false").parse(input, pos) {
            Ok((j, _)) => Ok((j, Value::Boolean(false))),
            Err(e) => Err((e, ParseErrorKind::LexError(LexErrorKind::UnfinishedBoolValue(false)))),
        }
    } else if c == 'n' {
        match match_literal("null").parse(input, pos) {
            Ok((j, _)) => Ok((j, Value::Null)),
            Err(e) => Err((e, ParseErrorKind::LexError(LexErrorKind::UnfinishedNullValue))),
        }
    } else if c == '-' {
        match negative_int().parse(input, pos) {
            Ok((j, v)) => Ok((j, Value::Number(NumberValue::Int(v)))),
            Err(e) => Err((e, ParseErrorKind::LexError(LexErrorKind::ParseNumberError))),
        }
    } else {
        let cv = c as u32;
        if 48 <= cv && cv <= 57 {
            match uint().parse(input, pos) {
                Ok((j, v)) => Ok((j, Value::Number(NumberValue::UInt(v)))),
                Err(e) => Err((e, ParseErrorKind::LexError(LexErrorKind::ParseNumberError))),
            }
        } else {
            Err((pos, ParseErrorKind::ExpectedValue))
        }
    }
}

/// Parse the JSON value beginning at `pos`, with the whitespace around
/// it.
pub fn parse_value_at(input: &str, pos: usize) -> (r: Result<
    (usize, Value),
    (usize, ParseErrorKind),
>)
    requires
        pos <= input@.len(),
        input@.len() <= usize::MAX,
    ensures
        match spec_json_value(input@, pos as int) {
            Ok((j, v)) => (r matches Ok(p) && p.0 as int == j && p.1.deep_view() == v),
            Err((e, k)) => (r matches Err(q) && q.0 as int == e && q.1 == k),
        },
    decreases input@.len() - pos, 1int,
{
    let a = skip_ws(input, pos);
    proof {
        lemma_bare_value_bounds(input@, a as int);
    }
    match parse_bare_at(input, a) {
        Ok((j, v)) => {
            let end = skip_ws(input, j);
            Ok((end, v))
        },
        Err(e) => Err(e),
    }
}

/// Parse the inside of an array, entered just after the `[`.
fn parse_array_body_at(input: &str, pos: usize) -> (r: Result<
    (usize, Value),
    (usize, ParseErrorKind),
>)
    requires
        pos <= input@.len(),
        input@.len() <= usize::MAX,
    ensures
        match spec_array_body(input@, pos as int) {
            Ok((j, v)) => (r matches Ok(p) && p.0 as int == j && p.1.deep_view() == v),
            Err((e, k)) => (r matches Err(q) && q.0 as int == e && q.1 == k),
        },
    decreases input@.len() - pos, 2int,
{
    let ghost s = input@;
    let a = skip_ws(input, pos);
    let n = input.unicode_len();
    if a == n {
        return Err((a, ParseErrorKind::UnclosedBracket));
    }
    if input.get_char(a) == ']' {
        let items: Vec<Value> = Vec::new();
        proof {
            assert(spec_seq_view(items@) =~= Seq::<SpecValue>::empty());
        }
        return Ok((a + 1, Value::Array(items)));
    }
    proof {
        lemma_json_value_bounds(s, pos as int);
    }
    match parse_value_at(input, pos) {
        Err(e) => Err(e),
        Ok((j, first)) => {
            let ghost first_model = first.deep_view();
            let mut items: Vec<Value> = Vec::new();
            items.push(first);
            proof {
                assert(spec_seq_view(items@) =~= seq![first_model]) by {
                    lemma_seq_view_elems(items@);
                }
            }
            let mut cur: usize = j;
            loop
                invariant
                    pos < cur <= n,
                    n == s.len(),
                    s == input@,
                    s.len() <= usize::MAX,
                    spec_array_body(s, pos as int) == spec_array_rest(
                        s,
                        cur as int,
                        spec_seq_view(items@),
                    ),
                decreases n - cur,
            {
                if cur == n {
                    return Err((cur, ParseErrorKind::UnclosedBracket));
                }
                let c = input.get_char(cur);
                if c == ']' {
                    return Ok((cur + 1, Value::Array(items)));
                }
                if c == ',' {
                    proof {
                        lemma_json_value_bounds(s, cur + 1);
                    }
                    match parse_value_at(input, cur + 1) {
                        Err(e) => return Err(e),
                        Ok((j2, v2)) => {
                            let ghost prev_seq = items@;
                            let ghost prev_view = spec_seq_view(items@);
                            let ghost v2m = v2.deep_view();
                            items.push(v2);
                            proof {
                                assert(spec_seq_view(items@) == prev_view.push(v2m)) by {
                                    lemma_seq_view_elems(items@);
                                    lemma_seq_view_elems(prev_seq);
                                    assert(spec_seq_view(items@) =~= prev_view.push(v2m));
                                }
                            }
                            cur = j2;
                        },
                    }
                } else {
                    return Err((cur, ParseErrorKind::ExpectedComma));
                }
            }
        },
    }
}

/// Parse one object pair beginning at `pos`.
fn parse_pair_at(input: &str, pos: usize) -> (r: Result<
    (usize, (String, Value)),
    (usize, ParseErrorKind),
>)
    requires
        pos <= input@.len(),
        input@.len() <= usize::MAX,
    ensures
        match spec_pair(input@, pos as int) {
            Ok((j, kv)) => (r matches Ok(p) && p.0 as int == j && p.1.0@ == kv.0
                && p.1.1.deep_view() == kv.1),
            Err((e, k)) => (r matches Err(q) && q.0 as int == e && q.1 == k),
        },
    decreases input@.len() - pos, 0int,
{
    let ghost s = input@;
    let a = skip_ws(input, pos);
    let n = input.unicode_len();
    if a == n {
        return Err((a, ParseErrorKind::UnclosedBrace));
    }
    if input.get_char(a) != '"' {
        return Err((a, ParseErrorKind::ExpectedProperty));
    }
    proof {
        lemma_string_end(s, a + 1);
    }
    match quoted_string().parse(input, a) {
        Err(e) => Err((e, ParseErrorKind::LexError(LexErrorKind::UnclosedQuotes))),
        Ok((j, key)) => {
            let b = skip_ws(input, j);
            if b == n {
                return Err((b, ParseErrorKind::UnclosedBrace));
            }
            if input.get_char(b) != ':' {
                return Err((b, ParseErrorKind::ExpectedColon));
            }
            proof {
                lemma_json_value_bounds(s, b + 1);
            }
            match parse_value_at(input, b + 1) {
                Err(e) => Err(e),
                Ok((m, val)) => Ok((m, (key, val))),
            }
        },
    }
}

/// Parse the inside of an object, entered just after the `{`.
fn parse_object_body_at(input: &str, pos: usize) -> (r: Result<
    (usize, Value),
    (usize, ParseErrorKind),
>)
    requires
        pos <= input@.len(),
        input@.len() <= usize::MAX,
    ensures
        match spec_object_body(input@, pos as int) {
            Ok((j, v)) => (r matches Ok(p) && p.0 as int == j && p.1.deep_view() == v),
            Err((e, k)) => (r matches Err(q) && q.0 as int == e && q.1 == k),
        },
    decreases input@.len() - pos, 2int,
{
    let ghost s = input@;
    let a = skip_ws(input, pos);
    let n = input.unicode_len();
    if a == n {
        return Err((a, ParseErrorKind::UnclosedBrace));
    }
    if input.get_char(a) == '}' {
        let pairs: Vec<(String, Value)> = Vec::new();
        proof {
            assert(spec_pairs_view(pairs@) =~= Seq::<(Seq<char>, SpecValue)>::empty());
        }
        return Ok((a + 1, Value::Object(pairs)));
    }
    proof {
        lemma_pair_bounds(s, pos as int);
    }
    match parse_pair_at(input, pos) {
        Err(e) => Err(e),
        Ok((j, first_pair)) => {
            let ghost first_kv = (first_pair.0@, first_pair.1.deep_view());
            let mut pairs: Vec<(String, Value)> = Vec::new();
            pairs.push(first_pair);
            proof {
                assert(spec_pairs_view(pairs@) =~= seq![first_kv]) by {
                    lemma_pairs_view_elems(pairs@);
                }
            }
            let mut cur: usize = j;
            loop
                invariant
                    pos < cur <= n,
                    n == s.len(),
                    s == input@,
                    s.len() <= usize::MAX,
                    spec_object_body(s, pos as int) == spec_object_rest(
                        s,
                        cur as int,
                        spec_pairs_view(pairs@),
                    ),
                decreases n - cur,
            {
                if cur == n {
                    return Err((cur, ParseErrorKind::UnclosedBrace));
                }
                let c = input.get_char(cur);
                if c == '}' {
                    return Ok((cur + 1, Value::Object(pairs)));
                }
                if c == ',' {
                    proof {
                        lemma_pair_bounds(s, cur + 1);
                    }
                    match parse_pair_at(input, cur + 1) {
                        Err(e) => return Err(e),
                        Ok((j2, kv)) => {
                            let ghost prev_view = spec_pairs_view(pairs@);
                            let ghost kvm = (kv.0@, kv.1.deep_view());
                            obj_insert(&mut pairs, kv.0, kv.1);
                            proof {
                                assert(spec_pairs_view(pairs@) == spec_obj_insert(
                                    prev_view,
                                    kvm.0,
                                    kvm.1,
                                ));
                            }
                            cur = j2;
                        },
                    }
                } else {
                    return Err((cur, ParseErrorKind::ExpectedComma));
                }
            }
        },
    }
}

/// Turns a matched literal into a fixed boolean value.
pub struct ToBoolean {
    pub value: bool,
}

impl MapFn for ToBoolean {
    type InModel = ();

    type In = ();

    type OutModel = SpecValue;

    type Out = Value;

    open spec fn spec_apply(&self, m: ()) -> SpecValue {
        SpecValue::Boolean(self.value)
    }

    fn apply(&self, x: ()) -> (r: Value) {
        Value::Boolean(self.value)
    }
}

/// Turns a matched literal into the null value.
pub struct ToNull;

impl MapFn for ToNull {
    type InModel = ();

    type In = ();

    type OutModel = SpecValue;

    type Out = Value;

    open spec fn spec_apply(&self, m: ()) -> SpecValue {
        SpecValue::Null
    }

    fn apply(&self, x: ()) -> (r: Value) {
        Value::Null
    }
}

/// Wraps quoted text as a string value.
pub struct ToStringValue;

impl MapFn for ToStringValue {
    type InModel = Seq<char>;

    type In = String;

    type OutModel = SpecValue;

    type Out = Value;

    open spec fn spec_apply(&self, m: Seq<char>) -> SpecValue {
        SpecValue::String(m)
    }

    fn apply(&self, x: String) -> (r: Value) {
        Value::String(x)
    }
}

/// Wraps a negative integer as a number value.
pub struct ToIntNumber;

impl MapFn for ToIntNumber {
    type InModel = i64;

    type In = i64;

    type OutModel = SpecValue;

    type Out = Value;

    open spec fn spec_apply(&self, m: i64) -> SpecValue {
        SpecValue::Number(NumberValue::Int(m))
    }

    fn apply(&self, x: i64) -> (r: Value) {
        Value::Number(NumberValue::Int(x))
    }
}

/// Wraps an unsigned integer as a number value.
pub struct ToUintNumber;

impl MapFn for ToUintNumber {
    type InModel = u64;

    type In = u64;

    type OutModel = SpecValue;

    type Out = Value;

    open spec fn spec_apply(&self, m: u64) -> SpecValue {
        SpecValue::Number(NumberValue::UInt(m))
    }

    fn apply(&self, x: u64) -> (r: Value) {
        Value::Number(NumberValue::UInt(x))
    }
}

/// The parser recognising the literal `true`.
pub type TrueValueParser = Mapped<MatchLiteral, ToBoolean>;

/// The parser recognising the literal `false`.
pub type FalseValueParser = Mapped<MatchLiteral, ToBoolean>;

/// Parses the literal characters `true` into a boolean value.
pub fn true_value() -> (r: TrueValueParser)
    ensures
        r == (Mapped {
            parser: MatchLiteral { expected: "true" },
            trans: ToBoolean { value: true },
        }),
{
    mapped(match_literal("true"), ToBoolean { value: true })
}

/// Parses the literal characters `false` into a boolean value.
pub fn false_value() -> (r: FalseValueParser)
    ensures
        r == (Mapped {
            parser: MatchLiteral { expected: "false" },
            trans: ToBoolean { value: false },
        }),
{
    mapped(match_literal("false"), ToBoolean { value: false })
}

/// Parses a boolean value: either `true` or `false`.
pub fn bool_value() -> (r: Either<TrueValueParser, FalseValueParser>)
    ensures
        r == (Either {
            first: Mapped {
                parser: MatchLiteral { expected: "true" },
                trans: ToBoolean { value: true },
            },
            second: Mapped {
                parser: MatchLiteral { expected: "false" },
                trans: ToBoolean { value: false },
            },
        }),
{
    either(true_value(), false_value())
}

/// Parses the literal characters `null` into the null value.
pub fn null_value() -> (r: Mapped<MatchLiteral, ToNull>)
    ensures
        r == (Mapped { parser: MatchLiteral { expected: "null" }, trans: ToNull }),
{
    mapped(match_literal("null"), ToNull)
}

/// Parses a quoted string into a string value.
pub fn string_value() -> (r: Mapped<QuotedString, ToStringValue>)
    ensures
        r == (Mapped { parser: QuotedString, trans: ToStringValue }),
{
    mapped(quoted_string(), ToStringValue)
}

/// Parses a number value: a negative integer or an unsigned integer.
pub fn number_value() -> (r: Either<Mapped<IntParser, ToIntNumber>, Mapped<UintParser, ToUintNumber>>)
    ensures
        r == (Either {
            first: Mapped { parser: IntParser, trans: ToIntNumber },
            second: Mapped { parser: UintParser, trans: ToUintNumber },
        }),
{
    either(mapped(negative_int(), ToIntNumber), mapped(uint(), ToUintNumber))
}

/// A whole JSON value with the whitespace around it, as a parser.
pub struct JsonValueParser;

/// Parses any JSON value, whitespace-tolerant at both ends.
pub fn json_value() -> (r: JsonValueParser)
    ensures
        r == JsonValueParser,
{
    JsonValueParser
}

impl Parser for JsonValueParser {
    type Model = SpecValue;

    type Output = Value;

    open spec fn spec_parse(&self, s: Seq<char>, i: int) -> Result<(int, SpecValue), int> {
        match spec_json_value(s, i) {
            Ok((j, v)) => Ok((j, v)),
            Err((e, _)) => Err(e),
        }
    }

    proof fn lemma_parse_bounds(&self, s: Seq<char>, i: int) {
        lemma_json_value_bounds(s, i);
    }

    fn parse(&self, input: &str, pos: usize) -> (r: Result<(usize, Value), usize>) {
        match parse_value_at(input, pos) {
            Ok(p) => Ok(p),
            Err((e, _)) => Err(e),
        }
    }
}

/// An array value, as a parser.
pub struct ArrayValueParser;

/// Parses an array: `[`, comma-separated values, `]`.
pub fn array_value() -> (r: ArrayValueParser)
    ensures
        r == ArrayValueParser,
{
    ArrayValueParser
}

impl Parser for ArrayValueParser {
    type Model = SpecValue;

    type Output = Value;

    open spec fn spec_parse(&self, s: Seq<char>, i: int) -> Result<(int, SpecValue), int> {
        if 0 <= i < s.len() && s[i] == '[' {
            match spec_array_body(s, i + 1) {
                Ok((j, v)) => Ok((j, v)),
                Err((e, _)) => Err(e),
            }
        } else {
            Err(i)
        }
    }

    proof fn lemma_parse_bounds(&self, s: Seq<char>, i: int) {
        if 0 <= i < s.len() && s[i] == '[' {
            lemma_array_body_bounds(s, i + 1);
        }
    }

    fn parse(&self, input: &str, pos: usize) -> (r: Result<(usize, Value), usize>) {
        let n = input.unicode_len();
        if pos < n && input.get_char(pos) == '[' {
            match parse_array_body_at(input, pos + 1) {
                Ok(p) => Ok(p),
                Err((e, _)) => Err(e),
            }
        } else {
            Err(pos)
        }
    }
}

/// An object value, as a parser.
pub struct ObjectValueParser;

/// Parses an object: `{`, comma-separated key/value pairs, `}`.
pub fn object_value() -> (r: ObjectValueParser)
    ensures
        r == ObjectValueParser,
{
    ObjectValueParser
}

impl Parser for ObjectValueParser {
    type Model = SpecValue;

    type Output = Value;

    open spec fn spec_parse(&self, s: Seq<char>, i: int) -> Result<(int, SpecValue), int> {
        if 0 <= i < s.len() && s[i] == '{' {
            match spec_object_body(s, i + 1) {
                Ok((j, v)) => Ok((j, v)),
                Err((e, _)) => Err(e),
            }
        } else {
            Err(i)
        }
    }

    proof fn lemma_parse_bounds(&self, s: Seq<char>, i: int) {
        if 0 <= i < s.len() && s[i] == '{' {
            lemma_object_body_bounds(s, i + 1);
        }
    }

    fn parse(&self, input: &str, pos: usize) -> (r: Result<(usize, Value), usize>) {
        let n = input.unicode_len();
        if pos < n && input.get_char(pos) == '{' {
            match parse_object_body_at(input, pos + 1) {
                Ok(p) => Ok(p),
                Err((e, _)) => Err(e),
            }
        } else {
            Err(pos)
        }
    }
}

/// One object key/value pair, as a parser.
pub struct ObjectPairParser;

/// Parses an object pair: a quoted key, a colon, and a value.
pub fn object_pair() -> (r: ObjectPairParser)
    ensures
        r == ObjectPairParser,
{
    ObjectPairParser
}

impl Parser for ObjectPairParser {
    type Model = (Seq<char>, SpecValue);

    type Output = (String, Value);

    open spec fn spec_parse(&self, s: Seq<char>, i: int) -> Result<
        (int, (Seq<char>, SpecValue)),
        int,
    > {
        match spec_pair(s, i) {
            Ok((j, kv)) => Ok((j, kv)),
            Err((e, _)) => Err(e),
        }
    }

    proof fn lemma_parse_bounds(&self, s: Seq<char>, i: int) {
        lemma_pair_bounds(s, i);
    }

    fn parse(&self, input: &str, pos: usize) -> (r: Result<(usize, (String, Value)), usize>) {
        match parse_pair_at(input, pos) {
            Ok(p) => Ok(p),
            Err((e, _)) => Err(e),
        }
    }
}

} // verus!
