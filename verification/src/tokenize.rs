//! One-shot tokenization of a whole document.
//!
//! [`tokenize`] runs the [`Lexer`](crate::lexer::Lexer) over the full
//! input and collects every token, stopping at the first lexical
//! fault.  The fault is reported as a [`TokenizeError`], which names
//! what went wrong without a position.

use crate::lexer::{lemma_next_token_bounds, spec_next_token, LexErrorKind, Lexer};
use crate::token::{SpecTokenKind, TokenKind};
use vstd::prelude::*;
use vstd::string::StrSliceExecFns;

verus! {

broadcast use vstd::seq::group_seq_axioms;

/// One of the possible errors that could occur while tokenizing the
/// input.
#[derive(Debug, Clone, Copy, PartialEq, Eq)]
pub enum TokenizeError {
    /// Character is not part of a JSON token.
    CharNotRecognized(char),
    /// Unable to fit the number into its numeric width.
    ParseNumberError,
    /// String was never completed.
    UnclosedQuotes,
    /// The input appeared to be the start of a literal value but did
    /// not finish.
    UnfinishedLiteralValue,
}

/// How a lexical fault is reported by whole-input tokenization.
pub open spec fn spec_tokenize_error(k: LexErrorKind) -> TokenizeError {
    match k {
        LexErrorKind::CharNotRecognized(c) => TokenizeError::CharNotRecognized(c),
        LexErrorKind::ParseNumberError => TokenizeError::ParseNumberError,
        LexErrorKind::UnclosedQuotes => TokenizeError::UnclosedQuotes,
        LexErrorKind::UnfinishedNullValue => TokenizeError::UnfinishedLiteralValue,
        LexErrorKind::UnfinishedBoolValue(_) => TokenizeError::UnfinishedLiteralValue,
    }
}

/// The tokens of `s` from position `i` on: all the tokens the lexer
/// cuts until only whitespace remains, or the first fault.
pub open spec fn spec_tokenize(s: Seq<char>, i: int) -> Result<Seq<SpecTokenKind>, TokenizeError>
    decreases s.len() - i,
{
    match spec_next_token(s, i) {
        None => Ok(Seq::empty()),
        Some(Ok((j, kind))) => if i < j <= s.len() {
            match spec_tokenize(s, j) {
                Ok(rest) => Ok(seq![kind] + rest),
                Err(e) => Err(e),
            }
        } else {
            Ok(seq![kind])
        },
        Some(Err((_, k))) => Err(spec_tokenize_error(k)),
    }
}

/// Cut the whole input into tokens, or report the first lexical fault.
pub fn tokenize(input: &str) -> (r: Result<Vec<TokenKind>, TokenizeError>)
    ensures
        match spec_tokenize(input@, 0) {
            Ok(kinds) => (r matches Ok(ks) && ks.deep_view() == kinds),
            Err(e) => r == Err::<Vec<TokenKind>, TokenizeError>(e),
        },
{
    let ghost s = input@;
    let n = input.unicode_len();
    let mut lexer = Lexer::new(input);
    let mut kinds: Vec<TokenKind> = Vec::new();
    proof {
        assert(kinds.deep_view() =~= Seq::<SpecTokenKind>::empty());
    }
    loop
        invariant
            lexer.wf(),
            lexer.text() == s,
            s == input@,
            n == s.len(),
            0 <= lexer.position() <= s.len(),
            match spec_tokenize(s, lexer.position()) {
                Ok(rest) => spec_tokenize(s, 0) == Ok::<Seq<SpecTokenKind>, TokenizeError>(
                    kinds.deep_view() + rest,
                ),
                Err(e) => spec_tokenize(s, 0) == Err::<Seq<SpecTokenKind>, TokenizeError>(e),
            },
        decreases s.len() - lexer.position(),
    {
        let ghost cur = lexer.position();
        proof {
            lemma_next_token_bounds(s, cur);
        }
        match lexer.next_token() {
            None => {
                proof {
                    assert(spec_tokenize(s, cur) == Ok::<Seq<SpecTokenKind>, TokenizeError>(
                        Seq::empty(),
                    ));
                    assert(kinds.deep_view() + Seq::<SpecTokenKind>::empty()
                        =~= kinds.deep_view());
                }
                return Ok(kinds);
            },
            Some(Ok(token)) => {
                let ghost prev_deep = kinds.deep_view();
                let ghost kind_model = token.kind.deep_view();
                kinds.push(token.kind);
                proof {
                    assert(kinds.deep_view() =~= prev_deep.push(kind_model));
                    if let Some(Ok((j, kind))) = spec_next_token(s, cur) {
                        assert(lexer.position() == j);
                        if let Ok(rest) = spec_tokenize(s, j) {
                            assert(prev_deep + (seq![kind] + rest) =~= (prev_deep.push(kind))
                                + rest);
                        }
                    }
                }
            },
            Some(Err(err)) => {
                return Err(tokenize_error_of(err.kind));
            },
        }
    }
}

/// Map a lexical fault into the tokenization error taxonomy.
fn tokenize_error_of(k: LexErrorKind) -> (r: TokenizeError)
    ensures
        r == spec_tokenize_error(k),
{
    match k {
        LexErrorKind::CharNotRecognized(c) => TokenizeError::CharNotRecognized(c),
        LexErrorKind::ParseNumberError => TokenizeError::ParseNumberError,
        LexErrorKind::UnclosedQuotes => TokenizeError::UnclosedQuotes,
        LexErrorKind::UnfinishedNullValue => TokenizeError::UnfinishedLiteralValue,
        LexErrorKind::UnfinishedBoolValue(_) => TokenizeError::UnfinishedLiteralValue,
    }
}

} // verus!
