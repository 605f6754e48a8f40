//! A recursive-descent parser over a token stream.
//!
//! [`parse_tokens`] builds a [`Value`] tree from the tokens that
//! [`tokenize`](crate::tokenize::tokenize) produces, mirroring the
//! grammar of the character-level parser: no leading or trailing
//! commas, and a repeated object key keeps the last value.  String
//! tokens carry their text into the tree verbatim.

use crate::token::{SpecTokenKind, TokenKind};
use crate::value::{
    lemma_obj_insert_elems, lemma_obj_insert_preserves_unique, lemma_pairs_view_elems,
    lemma_seq_view_elems, spec_obj_insert, spec_obj_keys_unique, spec_pairs_view, spec_seq_view,
    spec_value_wf, NumberValue, SpecValue, Value,
};
use vstd::prelude::*;

verus! {

broadcast use {vstd::seq::group_seq_axioms, vstd::std_specs::vec::group_vec_axioms};

/// The ways building a tree out of tokens can fail.
#[derive(Debug, Clone, Copy, PartialEq, Eq)]
pub enum TokenParseError {
    /// The tokens ended where a value should begin.
    EarlyEOF,
    /// The tokens ended inside an unclosed array.
    UnclosedBracket,
    /// The tokens ended inside an unclosed object.
    UnclosedBrace,
    /// An object key was not followed by a colon.
    ExpectedColon,
    /// Array elements or object pairs not separated by a comma.
    ExpectedComma,
    /// No value begins at this token.
    ExpectedValue,
    /// An object holds something other than a string key.
    ExpectedProperty,
    /// A comma directly before the closing bracket or brace.
    TrailingComma,
}

/// The value a number token denotes: non-negative magnitudes take the
/// unsigned form, as they do when parsed from text.
pub open spec fn spec_token_number(n: i64) -> NumberValue {
    if n >= 0 {
        NumberValue::UInt(n as u64)
    } else {
        NumberValue::Int(n)
    }
}

/// One value read from the tokens at position `i`.
pub open spec fn spec_parse_tokens(ts: Seq<SpecTokenKind>, i: int) -> Result<
    (int, SpecValue),
    (int, TokenParseError),
>
    decreases ts.len() - i, 1int,
{
    if !(0 <= i < ts.len()) {
        Err((i, TokenParseError::EarlyEOF))
    } else {
        match ts[i] {
            SpecTokenKind::Null => Ok((i + 1, SpecValue::Null)),
            SpecTokenKind::Bool(b) => Ok((i + 1, SpecValue::Boolean(b))),
            SpecTokenKind::Number(n) => Ok((i + 1, SpecValue::Number(spec_token_number(n)))),
            SpecTokenKind::String(text) => Ok((i + 1, SpecValue::String(text))),
            SpecTokenKind::LeftBracket => spec_tokens_array(ts, i + 1),
            SpecTokenKind::LeftBrace => spec_tokens_object(ts, i + 1),
            _ => Err((i, TokenParseError::ExpectedValue)),
        }
    }
}

/// The inside of an array, entered just after the opening bracket.
pub open spec fn spec_tokens_array(ts: Seq<SpecTokenKind>, i: int) -> Result<
    (int, SpecValue),
    (int, TokenParseError),
>
    decreases ts.len() - i, 2int,
{
    if !(0 <= i <= ts.len()) {
        Err((i, TokenParseError::ExpectedValue))
    } else if i == ts.len() {
        Err((i, TokenParseError::UnclosedBracket))
    } else if ts[i] == SpecTokenKind::RightBracket {
        Ok((i + 1, SpecValue::Array(Seq::empty())))
    } else {
        match spec_parse_tokens(ts, i) {
            Ok((j, v)) => if i < j <= ts.len() {
                spec_tokens_array_rest(ts, j, seq![v])
            } else {
                Err((i, TokenParseError::ExpectedValue))
            },
            Err(e) => Err(e),
        }
    }
}

/// The remainder of an array after a complete element.
pub open spec fn spec_tokens_array_rest(
    ts: Seq<SpecTokenKind>,
    k: int,
    acc: Seq<SpecValue>,
) -> Result<(int, SpecValue), (int, TokenParseError)>
    decreases ts.len() - k, 0int,
{
    if !(0 <= k <= ts.len()) {
        Err((k, TokenParseError::ExpectedComma))
    } else if k == ts.len() {
        Err((k, TokenParseError::UnclosedBracket))
    } else if ts[k] == SpecTokenKind::RightBracket {
        Ok((k + 1, SpecValue::Array(acc)))
    } else if ts[k] == SpecTokenKind::Comma {
        if k + 1 < ts.len() && ts[k + 1] == SpecTokenKind::RightBracket {
            Err((k + 1, TokenParseError::TrailingComma))
        } else {
            match spec_parse_tokens(ts, k + 1) {
                Ok((j, v)) => if k < j <= ts.len() {
                    spec_tokens_array_rest(ts, j, acc.push(v))
                } else {
                    Err((k, TokenParseError::ExpectedComma))
                },
                Err(e) => Err(e),
            }
        }
    } else {
        Err((k, TokenParseError::ExpectedComma))
    }
}

/// One key/value pair read from the tokens at position `i`.
pub open spec fn spec_tokens_pair(ts: Seq<SpecTokenKind>, i: int) -> Result<
    (int, (Seq<char>, SpecValue)),
    (int, TokenParseError),
>
    decreases ts.len() - i, 0int,
{
    if !(0 <= i < ts.len()) {
        Err((i, TokenParseError::UnclosedBrace))
    } else {
        match ts[i] {
            SpecTokenKind::String(key) => if i + 1 == ts.len() {
                Err((i + 1, TokenParseError::UnclosedBrace))
            } else if ts[i + 1] != SpecTokenKind::Colon {
                Err((i + 1, TokenParseError::ExpectedColon))
            } else {
                match spec_parse_tokens(ts, i + 2) {
                    Ok((j, v)) => Ok((j, (key, v))),
                    Err(e) => Err(e),
                }
            },
            _ => Err((i, TokenParseError::ExpectedProperty)),
        }
    }
}

/// The inside of an object, entered just after the opening brace.
pub open spec fn spec_tokens_object(ts: Seq<SpecTokenKind>, i: int) -> Result<
    (int, SpecValue),
    (int, TokenParseError),
>
    decreases ts.len() - i, 2int,
{
    if !(0 <= i <= ts.len()) {
        Err((i, TokenParseError::ExpectedProperty))
    } else if i == ts.len() {
        Err((i, TokenParseError::UnclosedBrace))
    } else if ts[i] == SpecTokenKind::RightBrace {
        Ok((i + 1, SpecValue::Object(Seq::empty())))
    } else {
        match spec_tokens_pair(ts, i) {
            Ok((j, kv)) => if i < j <= ts.len() {
                spec_tokens_object_rest(ts, j, seq![kv])
            } else {
                Err((i, TokenParseError::ExpectedProperty))
            },
            Err(e) => Err(e),
        }
    }
}

/// The remainder of an object after a complete pair; a repeated key
/// keeps the last value.
pub open spec fn spec_tokens_object_rest(
    ts: Seq<SpecTokenKind>,
    k: int,
    acc: Seq<(Seq<char>, SpecValue)>,
) -> Result<(int, SpecValue), (int, TokenParseError)>
    decreases ts.len() - k, 0int,
{
    if !(0 <= k <= ts.len()) {
        Err((k, TokenParseError::ExpectedComma))
    } else if k == ts.len() {
        Err((k, TokenParseError::UnclosedBrace))
    } else if ts[k] == SpecTokenKind::RightBrace {
        Ok((k + 1, SpecValue::Object(acc)))
    } else if ts[k] == SpecTokenKind::Comma {
        if k + 1 < ts.len() && ts[k + 1] == SpecTokenKind::RightBrace {
            Err((k + 1, TokenParseError::TrailingComma))
        } else {
            match spec_tokens_pair(ts, k + 1) {
                Ok((j, kv)) => if k < j <= ts.len() {
                    spec_tokens_object_rest(ts, j, spec_obj_insert(acc, kv.0, kv.1))
                } else {
                    Err((k, TokenParseError::ExpectedComma))
                },
                Err(e) => Err(e),
            }
        }
    } else {
        Err((k, TokenParseError::ExpectedComma))
    }
}

/// Reading a value consumes at least one token and stays within the
/// tokens; a failure position lies within one past their end.
pub proof fn lemma_parse_tokens_bounds(ts: Seq<SpecTokenKind>, i: int)
    requires
        0 <= i <= ts.len(),
    ensures
        spec_parse_tokens(ts, i) matches Ok((j, _)) ==> i < j <= ts.len(),
        spec_parse_tokens(ts, i) matches Err((e, _)) ==> i <= e <= ts.len(),
    decreases ts.len() - i, 1int,
{
    if i < ts.len() {
        match ts[i] {
            SpecTokenKind::LeftBracket => lemma_tokens_array_bounds(ts, i + 1),
            SpecTokenKind::LeftBrace => lemma_tokens_object_bounds(ts, i + 1),
            _ => {},
        }
    }
}

/// An array body stays within the tokens.
pub proof fn lemma_tokens_array_bounds(ts: Seq<SpecTokenKind>, i: int)
    requires
        0 <= i <= ts.len(),
    ensures
        spec_tokens_array(ts, i) matches Ok((j, _)) ==> i < j <= ts.len(),
        spec_tokens_array(ts, i) matches Err((e, _)) ==> i <= e <= ts.len(),
    decreases ts.len() - i, 2int,
{
    if i < ts.len() && ts[i] != SpecTokenKind::RightBracket {
        lemma_parse_tokens_bounds(ts, i);
        if let Ok((j, v)) = spec_parse_tokens(ts, i) {
            lemma_tokens_array_rest_bounds(ts, j, seq![v]);
        }
    }
}

/// The remainder of an array stays within the tokens.
pub proof fn lemma_tokens_array_rest_bounds(ts: Seq<SpecTokenKind>, k: int, acc: Seq<SpecValue>)
    requires
        0 <= k <= ts.len(),
    ensures
        spec_tokens_array_rest(ts, k, acc) matches Ok((j, _)) ==> k < j <= ts.len(),
        spec_tokens_array_rest(ts, k, acc) matches Err((e, _)) ==> k <= e <= ts.len(),
    decreases ts.len() - k, 0int,
{
    if k < ts.len() && ts[k] == SpecTokenKind::Comma {
        if !(k + 1 < ts.len() && ts[k + 1] == SpecTokenKind::RightBracket) {
            lemma_parse_tokens_bounds(ts, k + 1);
            if let Ok((j, v)) = spec_parse_tokens(ts, k + 1) {
                lemma_tokens_array_rest_bounds(ts, j, acc.push(v));
            }
        }
    }
}

/// A pair stays within the tokens.
pub proof fn lemma_tokens_pair_bounds(ts: Seq<SpecTokenKind>, i: int)
    requires
        0 <= i <= ts.len(),
    ensures
        spec_tokens_pair(ts, i) matches Ok((j, _)) ==> i < j <= ts.len(),
        spec_tokens_pair(ts, i) matches Err((e, _)) ==> i <= e <= ts.len(),
    decreases ts.len() - i, 0int,
{
    if i < ts.len() {
        if let SpecTokenKind::String(_) = ts[i] {
            if i + 1 < ts.len() && ts[i + 1] == SpecTokenKind::Colon {
                lemma_parse_tokens_bounds(ts, i + 2);
            }
        }
    }
}

/// An object body stays within the tokens.
pub proof fn lemma_tokens_object_bounds(ts: Seq<SpecTokenKind>, i: int)
    requires
        0 <= i <= ts.len(),
    ensures
        spec_tokens_object(ts, i) matches Ok((j, _)) ==> i < j <= ts.len(),
        spec_tokens_object(ts, i) matches Err((e, _)) ==> i <= e <= ts.len(),
    decreases ts.len() - i, 2int,
{
    if i < ts.len() && ts[i] != SpecTokenKind::RightBrace {
        lemma_tokens_pair_bounds(ts, i);
        if let Ok((j, kv)) = spec_tokens_pair(ts, i) {
            lemma_tokens_object_rest_bounds(ts, j, seq![kv]);
        }
    }
}

/// The remainder of an object stays within the tokens.
pub proof fn lemma_tokens_object_rest_bounds(
    ts: Seq<SpecTokenKind>,
    k: int,
    acc: Seq<(Seq<char>, SpecValue)>,
)
    requires
        0 <= k <= ts.len(),
    ensures
        spec_tokens_object_rest(ts, k, acc) matches Ok((j, _)) ==> k < j <= ts.len(),
        spec_tokens_object_rest(ts, k, acc) matches Err((e, _)) ==> k <= e <= ts.len(),
    decreases ts.len() - k, 0int,
{
    if k < ts.len() && ts[k] == SpecTokenKind::Comma {
        if !(k + 1 < ts.len() && ts[k + 1] == SpecTokenKind::RightBrace) {
            lemma_tokens_pair_bounds(ts, k + 1);
            if let Ok((j, kv)) = spec_tokens_pair(ts, k + 1) {
                lemma_tokens_object_rest_bounds(ts, j, spec_obj_insert(acc, kv.0, kv.1));
            }
        }
    }
}

/// A value read from tokens is well formed: every object anywhere in
/// it has unique keys.
pub proof fn lemma_parse_tokens_wf(ts: Seq<SpecTokenKind>, i: int)
    requires
        0 <= i <= ts.len(),
    ensures
        spec_parse_tokens(ts, i) matches Ok((_, v)) ==> spec_value_wf(v),
    decreases ts.len() - i, 1int,
{
    if i < ts.len() {
        match ts[i] {
            SpecTokenKind::LeftBracket => lemma_tokens_array_wf(ts, i + 1),
            SpecTokenKind::LeftBrace => lemma_tokens_object_wf(ts, i + 1),
            _ => {},
        }
    }
}

/// An array read from tokens is well formed.
pub proof fn lemma_tokens_array_wf(ts: Seq<SpecTokenKind>, i: int)
    requires
        0 <= i <= ts.len(),
    ensures
        spec_tokens_array(ts, i) matches Ok((_, v)) ==> spec_value_wf(v),
    decreases ts.len() - i, 2int,
{
    if i < ts.len() && ts[i] != SpecTokenKind::RightBracket {
        lemma_parse_tokens_bounds(ts, i);
        lemma_parse_tokens_wf(ts, i);
        if let Ok((j, v)) = spec_parse_tokens(ts, i) {
            assert forall|m: int| 0 <= m < seq![v].len() implies spec_value_wf(
                #[trigger] seq![v][m],
            ) by {}
            lemma_tokens_array_rest_wf(ts, j, seq![v]);
        }
    }
}

/// The remainder of an array keeps a well-formed accumulator well
/// formed.
pub proof fn lemma_tokens_array_rest_wf(ts: Seq<SpecTokenKind>, k: int, acc: Seq<SpecValue>)
    requires
        0 <= k <= ts.len(),
        forall|m: int| 0 <= m < acc.len() ==> spec_value_wf(#[trigger] acc[m]),
    ensures
        spec_tokens_array_rest(ts, k, acc) matches Ok((_, v)) ==> spec_value_wf(v),
    decreases ts.len() - k, 0int,
{
    if k < ts.len() && ts[k] == SpecTokenKind::Comma {
        if !(k + 1 < ts.len() && ts[k + 1] == SpecTokenKind::RightBracket) {
            lemma_parse_tokens_bounds(ts, k + 1);
            lemma_parse_tokens_wf(ts, k + 1);
            if let Ok((j, v)) = spec_parse_tokens(ts, k + 1) {
                assert forall|m: int| 0 <= m < acc.push(v).len() implies spec_value_wf(
                    #[trigger] acc.push(v)[m],
                ) by {
                    if m < acc.len() {
                        assert(acc.push(v)[m] == acc[m]);
                    }
                }
                if k < j <= ts.len() {
                    lemma_tokens_array_rest_wf(ts, j, acc.push(v));
                }
            }
        }
    }
}

/// An object read from tokens is well formed.
pub proof fn lemma_tokens_object_wf(ts: Seq<SpecTokenKind>, i: int)
    requires
        0 <= i <= ts.len(),
    ensures
        spec_tokens_object(ts, i) matches Ok((_, v)) ==> spec_value_wf(v),
    decreases ts.len() - i, 2int,
{
    if i < ts.len() && ts[i] != SpecTokenKind::RightBrace {
        lemma_tokens_pair_bounds(ts, i);
        lemma_tokens_pair_wf(ts, i);
        if let Ok((j, kv)) = spec_tokens_pair(ts, i) {
            lemma_tokens_object_rest_wf(ts, j, seq![kv]);
        }
    }
}

/// The remainder of an object keeps a unique-keyed, well-formed
/// accumulator well formed.
pub proof fn lemma_tokens_object_rest_wf(
    ts: Seq<SpecTokenKind>,
    k: int,
    acc: Seq<(Seq<char>, SpecValue)>,
)
    requires
        0 <= k <= ts.len(),
        spec_obj_keys_unique(acc),
        forall|m: int| 0 <= m < acc.len() ==> spec_value_wf((#[trigger] acc[m]).1),
    ensures
        spec_tokens_object_rest(ts, k, acc) matches Ok((_, v)) ==> spec_value_wf(v),
    decreases ts.len() - k, 0int,
{
    if k < ts.len() && ts[k] == SpecTokenKind::Comma {
        if !(k + 1 < ts.len() && ts[k + 1] == SpecTokenKind::RightBrace) {
            lemma_tokens_pair_bounds(ts, k + 1);
            lemma_tokens_pair_wf(ts, k + 1);
            if let Ok((j, kv)) = spec_tokens_pair(ts, k + 1) {
                let inserted = spec_obj_insert(acc, kv.0, kv.1);
                lemma_obj_insert_preserves_unique(acc, kv.0, kv.1);
                lemma_obj_insert_elems(acc, kv.0, kv.1);
                assert forall|m: int| 0 <= m < inserted.len() implies spec_value_wf(
                    (#[trigger] inserted[m]).1,
                ) by {
                    if inserted[m] != (kv.0, kv.1) {
                        let q = choose|q: int| 0 <= q < acc.len() && acc[q] == inserted[m];
                        assert(spec_value_wf(acc[q].1));
                    }
                }
                if k < j <= ts.len() {
                    lemma_tokens_object_rest_wf(ts, j, inserted);
                }
            }
        }
    }
}

/// A pair read from tokens carries a well-formed value.
pub proof fn lemma_tokens_pair_wf(ts: Seq<SpecTokenKind>, i: int)
    requires
        0 <= i <= ts.len(),
    ensures
        spec_tokens_pair(ts, i) matches Ok((_, kv)) ==> spec_value_wf(kv.1),
    decreases ts.len() - i, 0int,
{
    if i < ts.len() {
        if let SpecTokenKind::String(_) = ts[i] {
            if i + 1 < ts.len() && ts[i + 1] == SpecTokenKind::Colon {
                lemma_parse_tokens_wf(ts, i + 2);
            }
        }
    }
}

/// The model of a vector's element is the element of the model.
proof fn lemma_deep_index(tokens: &Vec<TokenKind>, i: int)
    requires
        0 <= i < tokens@.len(),
    ensures
        tokens.deep_view().len() == tokens@.len(),
        tokens.deep_view()[i] == tokens@[i].deep_view(),
{
}

/// Read one value out of the tokens, starting at `pos`.
fn parse_tokens_at(tokens: &Vec<TokenKind>, pos: usize) -> (r: Result<
    (usize, Value),
    (usize, TokenParseError),
>)
    requires
        pos <= tokens@.len(),
    ensures
        match spec_parse_tokens(tokens.deep_view(), pos as int) {
            Ok((j, v)) => (r matches Ok(p) && p.0 as int == j && p.1.deep_view() == v),
            Err((e, k)) => (r matches Err(q) && q.0 as int == e && q.1 == k),
        },
    decreases tokens@.len() - pos, 1int,
{
    let ghost ts = tokens.deep_view();
    let n = tokens.len();
    if pos == n {
        return Err((pos, TokenParseError::EarlyEOF));
    }
    proof {
        lemma_deep_index(tokens, pos as int);
    }
    match &tokens[pos] {
        TokenKind::Null => Ok((pos + 1, Value::Null)),
        TokenKind::Bool(b) => Ok((pos + 1, Value::Boolean(*b))),
        TokenKind::Number(num) => {
            let n_val = *num;
            if n_val >= 0 {
                Ok((pos + 1, Value::Number(NumberValue::UInt(n_val as u64))))
            } else {
                Ok((pos + 1, Value::Number(NumberValue::Int(n_val))))
            }
        },
        TokenKind::String(text) => Ok((pos + 1, Value::String(text.clone()))),
        TokenKind::LeftBracket => tokens_array_at(tokens, pos + 1),
        TokenKind::LeftBrace => tokens_object_at(tokens, pos + 1),
        _ => Err((pos, TokenParseError::ExpectedValue)),
    }
}

/// Read the inside of an array, entered just after the opening
/// bracket.
fn tokens_array_at(tokens: &Vec<TokenKind>, pos: usize) -> (r: Result<
    (usize, Value),
    (usize, TokenParseError),
>)
    requires
        pos <= tokens@.len(),
    ensures
        match spec_tokens_array(tokens.deep_view(), pos as int) {
            Ok((j, v)) => (r matches Ok(p) && p.0 as int == j && p.1.deep_view() == v),
            Err((e, k)) => (r matches Err(q) && q.0 as int == e && q.1 == k),
        },
    decreases tokens@.len() - pos, 2int,
{
    let ghost ts = tokens.deep_view();
    let n = tokens.len();
    if pos == n {
        return Err((pos, TokenParseError::UnclosedBracket));
    }
    proof {
        lemma_deep_index(tokens, pos as int);
    }
    if matches!(&tokens[pos], TokenKind::RightBracket) {
        let items: Vec<Value> = Vec::new();
        proof {
            assert(spec_seq_view(items@) =~= Seq::<SpecValue>::empty());
        }
        return Ok((pos + 1, Value::Array(items)));
    }
    proof {
        lemma_parse_tokens_bounds(ts, pos as int);
    }
    match parse_tokens_at(tokens, pos) {
        Err(e) => Err(e),
        Ok((j, first)) => {
            let ghost first_model = first.deep_view();
            let mut items: Vec<Value> = Vec::new();
            items.push(first);
            proof {
                assert(spec_seq_view(items@) =~= seq![first_model]) by {
                    lemma_seq_view_elems(items@);
                }
            }
            let mut cur: usize = j;
            loop
                invariant
                    pos < cur <= n,
                    n == tokens@.len(),
                    ts == tokens.deep_view(),
                    ts.len() == n,
                    spec_tokens_array(ts, pos as int) == spec_tokens_array_rest(
                        ts,
                        cur as int,
                        spec_seq_view(items@),
                    ),
                decreases n - cur,
            {
                if cur == n {
                    return Err((cur, TokenParseError::UnclosedBracket));
                }
                proof {
                    lemma_deep_index(tokens, cur as int);
                }
                if matches!(&tokens[cur], TokenKind::RightBracket) {
                    return Ok((cur + 1, Value::Array(items)));
                }
                if matches!(&tokens[cur], TokenKind::Comma) {
                    if cur + 1 < n {
                        proof {
                            lemma_deep_index(tokens, cur + 1);
                        }
                        if matches!(&tokens[cur + 1], TokenKind::RightBracket) {
                            return Err((cur + 1, TokenParseError::TrailingComma));
                        }
                    }
                    proof {
                        lemma_parse_tokens_bounds(ts, cur + 1);
                    }
                    match parse_tokens_at(tokens, cur + 1) {
                        Err(e) => return Err(e),
                        Ok((j2, v2)) => {
                            let ghost prev_seq = items@;
                            let ghost prev_view = spec_seq_view(items@);
                            let ghost v2m = v2.deep_view();
                            items.push(v2);
                            proof {
                                assert(spec_seq_view(items@) == prev_view.push(v2m)) by {
                                    lemma_seq_view_elems(items@);
                                    lemma_seq_view_elems(prev_seq);
                                    assert(spec_seq_view(items@) =~= prev_view.push(v2m));
                                }
                            }
                            cur = j2;
                        },
                    }
                } else {
                    return Err((cur, TokenParseError::ExpectedComma));
                }
            }
        },
    }
}

/// Read one key/value pair out of the tokens, starting at `pos`.
fn tokens_pair_at(tokens: &Vec<TokenKind>, pos: usize) -> (r: Result<
    (usize, (String, Value)),
    (usize, TokenParseError),
>)
    requires
        pos <= tokens@.len(),
    ensures
        match spec_tokens_pair(tokens.deep_view(), pos as int) {
            Ok((j, kv)) => (r matches Ok(p) && p.0 as int == j && p.1.0@ == kv.0
                && p.1.1.deep_view() == kv.1),
            Err((e, k)) => (r matches Err(q) && q.0 as int == e && q.1 == k),
        },
    decreases tokens@.len() - pos, 0int,
{
    let ghost ts = tokens.deep_view();
    let n = tokens.len();
    if pos == n {
        return Err((pos, TokenParseError::UnclosedBrace));
    }
    proof {
        lemma_deep_index(tokens, pos as int);
    }
    let key: String = match &tokens[pos] {
        TokenKind::String(text) => text.clone(),
        _ => {
            return Err((pos, TokenParseError::ExpectedProperty));
        },
    };
    if pos + 1 == n {
        return Err((pos + 1, TokenParseError::UnclosedBrace));
    }
    proof {
        lemma_deep_index(tokens, pos + 1);
    }
    if !matches!(&tokens[pos + 1], TokenKind::Colon) {
        return Err((pos + 1, TokenParseError::ExpectedColon));
    }
    proof {
        lemma_parse_tokens_bounds(ts, pos + 2);
    }
    match parse_tokens_at(tokens, pos + 2) {
        Err(e) => Err(e),
        Ok((j, val)) => Ok((j, (key, val))),
    }
}

/// Read the inside of an object, entered just after the opening brace.
fn tokens_object_at(tokens: &Vec<TokenKind>, pos: usize) -> (r: Result<
    (usize, Value),
    (usize, TokenParseError),
>)
    requires
        pos <= tokens@.len(),
    ensures
        match spec_tokens_object(tokens.deep_view(), pos as int) {
            Ok((j, v)) => (r matches Ok(p) && p.0 as int == j && p.1.deep_view() == v),
            Err((e, k)) => (r matches Err(q) && q.0 as int == e && q.1 == k),
        },
    decreases tokens@.len() - pos, 2int,
{
    let ghost ts = tokens.deep_view();
    let n = tokens.len();
    if pos == n {
        return Err((pos, TokenParseError::UnclosedBrace));
    }
    proof {
        lemma_deep_index(tokens, pos as int);
    }
    if matches!(&tokens[pos], TokenKind::RightBrace) {
        let pairs: Vec<(String, Value)> = Vec::new();
        proof {
            assert(spec_pairs_view(pairs@) =~= Seq::<(Seq<char>, SpecValue)>::empty());
        }
        return Ok((pos + 1, Value::Object(pairs)));
    }
    proof {
        lemma_tokens_pair_bounds(ts, pos as int);
    }
    match tokens_pair_at(tokens, pos) {
        Err(e) => Err(e),
        Ok((j, first_pair)) => {
            let ghost first_kv = (first_pair.0@, first_pair.1.deep_view());
            let mut pairs: Vec<(String, Value)> = Vec::new();
            pairs.push(first_pair);
            proof {
                assert(spec_pairs_view(pairs@) =~= seq![first_kv]) by {
                    lemma_pairs_view_elems(pairs@);
                }
            }
            let mut cur: usize = j;
            loop
                invariant
                    pos < cur <= n,
                    n == tokens@.len(),
                    ts == tokens.deep_view(),
                    ts.len() == n,
                    spec_tokens_object(ts, pos as int) == spec_tokens_object_rest(
                        ts,
                        cur as int,
                        spec_pairs_view(pairs@),
                    ),
                decreases n - cur,
            {
                if cur == n {
                    return Err((cur, TokenParseError::UnclosedBrace));
                }
                proof {
                    lemma_deep_index(tokens, cur as int);
                }
                if matches!(&tokens[cur], TokenKind::RightBrace) {
                    return Ok((cur + 1, Value::Object(pairs)));
                }
                if matches!(&tokens[cur], TokenKind::Comma) {
                    if cur + 1 < n {
                        proof {
                            lemma_deep_index(tokens, cur + 1);
                        }
                        if matches!(&tokens[cur + 1], TokenKind::RightBrace) {
                            return Err((cur + 1, TokenParseError::TrailingComma));
                        }
                    }
                    proof {
                        lemma_tokens_pair_bounds(ts, cur + 1);
                    }
                    match tokens_pair_at(tokens, cur + 1) {
                        Err(e) => return Err(e),
                        Ok((j2, kv)) => {
                            let ghost prev_view = spec_pairs_view(pairs@);
                            let ghost kvm = (kv.0@, kv.1.deep_view());
                            crate::json::obj_insert(&mut pairs, kv.0, kv.1);
                            cur = j2;
                        },
                    }
                } else {
                    return Err((cur, TokenParseError::ExpectedComma));
                }
            }
        },
    }
}

/// Read one value out of the tokens, advancing `index` past it; on
/// failure, `index` is left at the offending token.
pub fn parse_tokens(tokens: &Vec<TokenKind>, index: &mut usize) -> (r: Result<
    Value,
    TokenParseError,
>)
    requires
        *old(index) <= tokens@.len(),
    ensures
        match spec_parse_tokens(tokens.deep_view(), *old(index) as int) {
            Ok((j, v)) => (r matches Ok(val) && val.deep_view() == v && *final(index) as int
                == j),
            Err((e, k)) => r == Err::<Value, TokenParseError>(k) && *final(index) as int == e,
        },
{
    match parse_tokens_at(tokens, *index) {
        Ok((j, v)) => {
            *index = j;
            Ok(v)
        },
        Err((e, k)) => {
            *index = e;
            Err(k)
        },
    }
}

} // verus!
