//! A standalone tokenizer over a document's characters.
//!
//! [`Lexer`] cuts the input into [`Token`](crate::token::Token)s one
//! call at a time, tracking the row/column location of every token and
//! error.  The lexical error taxonomy ([`LexErrorKind`]) is shared
//! with the combinator grammar, which reports lexical faults under the
//! same names.

use crate::combinator::Parser;
use crate::lexical::{
    lemma_digits_end, lemma_string_end, lemma_ws_end, match_literal, negative_int, parse_digits,
    quoted_string, skip_ws, spec_digits_end, spec_digits_val, spec_int, spec_is_digit,
    spec_literal, spec_quoted, spec_ws_end,
};
use crate::location::{location_of, spec_col_of, spec_row_of, Location};
use crate::token::{SpecTokenKind, Token, TokenKind};
use vstd::prelude::*;
use vstd::string::StrSliceExecFns;

verus! {

/// The ways cutting the next token can fail.
#[derive(Debug, Clone, Copy, PartialEq, Eq)]
pub enum LexErrorKind {
    /// The character does not begin any token.
    CharNotRecognized(char),
    /// Digits that do not fit the numeric width.
    ParseNumberError,
    /// An opening quote with no matching closing quote.
    UnclosedQuotes,
    /// A partial match of the literal `null`.
    UnfinishedNullValue,
    /// A partial match of the literal `true` or `false`.
    UnfinishedBoolValue(bool),
}

/// A lexical failure: what went wrong, and where.
#[derive(Debug, Clone, Copy, PartialEq, Eq)]
pub struct LexError {
    /// What went wrong.
    pub kind: LexErrorKind,
    /// Row and column of the failure.
    pub location: Location,
    /// Character offset of the failure.
    pub offset: usize,
}

/// The next token of `s` from position `i`: `None` when only
/// whitespace remains, otherwise the token or the lexical fault that
/// begins at the first non-whitespace character.
pub open spec fn spec_next_token(s: Seq<char>, i: int) -> Option<
    Result<(int, SpecTokenKind), (int, LexErrorKind)>,
> {
    let a = spec_ws_end(s, i);
    if !(0 <= a < s.len()) {
        None
    } else {
        let c = s[a];
        if c == '[' {
            Some(Ok((a + 1, SpecTokenKind::LeftBracket)))
        } else if c == ']' {
            Some(Ok((a + 1, SpecTokenKind::RightBracket)))
        } else if c == '{' {
            Some(Ok((a + 1, SpecTokenKind::LeftBrace)))
        } else if c == '}' {
            Some(Ok((a + 1, SpecTokenKind::RightBrace)))
        } else if c == ',' {
            Some(Ok((a + 1, SpecTokenKind::Comma)))
        } else if c == ':' {
            Some(Ok((a + 1, SpecTokenKind::Colon)))
        } else if c == '"' {
            match spec_quoted(s, a) {
                Ok((j, text)) => Some(Ok((j, SpecTokenKind::String(text)))),
                Err(e) => Some(Err((e, LexErrorKind::UnclosedQuotes))),
            }
        } else if c == 'n' {
            match spec_literal(s, a, "null"@) {
                Ok((j, _)) => Some(Ok((j, SpecTokenKind::Null))),
                Err(e) => Some(Err((e, LexErrorKind::UnfinishedNullValue))),
            }
        } else if c == 't' {
            match spec_literal(s, a, "true"@) {
                Ok((j, _)) => Some(Ok((j, SpecTokenKind::Bool(true)))),
                Err(e) => Some(Err((e, LexErrorKind::UnfinishedBoolValue(true)))),
            }
        } else if c == 'f' {
            match spec_literal(s, a, "false"@) {
                Ok((j, _)) => Some(Ok((j, SpecTokenKind::Bool(false)))),
                Err(e) => Some(Err((e, LexErrorKind::UnfinishedBoolValue(false)))),
            }
        } else if c == '-' {
            match spec_int(s, a) {
                Ok((j, v)) => Some(Ok((j, SpecTokenKind::Number(v)))),
                Err(e) => Some(Err((e, LexErrorKind::ParseNumberError))),
            }
        } else if spec_is_digit(c) {
            let d = spec_digits_end(s, a);
            let n = spec_digits_val(s, a, d);
            if d > a && n <= i64::MAX {
                Some(Ok((d, SpecTokenKind::Number(n as i64))))
            } else {
                Some(Err((a, LexErrorKind::ParseNumberError)))
            }
        } else {
            Some(Err((a, LexErrorKind::CharNotRecognized(c))))
        }
    }
}

/// A cut token always makes progress and stays within the input; a
/// fault position lies within the input.
pub proof fn lemma_next_token_bounds(s: Seq<char>, i: int)
    requires
        0 <= i <= s.len(),
    ensures
        spec_next_token(s, i) matches Some(Ok((j, _))) ==> i < j <= s.len(),
        spec_next_token(s, i) matches Some(Err((e, _))) ==> i <= e <= s.len(),
{
    lemma_ws_end(s, i);
    let a = spec_ws_end(s, i);
    if 0 <= a < s.len() {
        let c = s[a];
        if c == '"' {
            lemma_string_end(s, a + 1);
        } else if c == 'n' || c == 't' || c == 'f' {
            reveal_strlit("null");
            reveal_strlit("true");
            reveal_strlit("false");
        } else if c == '-' {
            lemma_digits_end(s, a + 1);
        } else if spec_is_digit(c) {
            lemma_digits_end(s, a);
        }
    }
}

/// A tokenizer walking a document from front to back.
pub struct Lexer<'a> {
    input: &'a str,
    pos: usize,
}

impl<'a> Lexer<'a> {
    /// The characters being tokenized.
    pub closed spec fn text(&self) -> Seq<char> {
        self.input@
    }

    /// How many characters have been consumed.
    pub closed spec fn position(&self) -> int {
        self.pos as int
    }

    /// The position stays within the input.
    pub closed spec fn wf(&self) -> bool {
        self.pos <= self.input@.len()
    }

    /// A lexer standing at the start of `input`.
    pub fn new(input: &'a str) -> (r: Lexer<'a>)
        ensures
            r.wf(),
            r.text() == input@,
            r.position() == 0,
    {
        Lexer { input, pos: 0 }
    }

    /// Cut the next token, skipping the whitespace before it; `None`
    /// once only whitespace remains.  A token carries the row/column
    /// at which it starts; an error carries the offset and row/column
    /// of the fault.
    pub fn next_token(&mut self) -> (r: Option<Result<Token, LexError>>)
        requires
            old(self).wf(),
        ensures
            final(self).wf(),
            final(self).text() == old(self).text(),
            match spec_next_token(old(self).text(), old(self).position()) {
                None => r is None && final(self).position() == spec_ws_end(
                    old(self).text(),
                    old(self).position(),
                ),
                Some(Ok((j, kind))) => (r matches Some(Ok(tok)) && tok.kind.deep_view() == kind
                    && final(self).position() == j && tok.location.row as int == spec_row_of(
                    old(self).text(),
                    spec_ws_end(old(self).text(), old(self).position()),
                ) && tok.location.col as int == spec_col_of(
                    old(self).text(),
                    spec_ws_end(old(self).text(), old(self).position()),
                )),
                Some(Err((e, k))) => (r matches Some(Err(le)) && le.kind == k && le.offset as int
                    == e && final(self).position() == e && le.location.row as int == spec_row_of(
                    old(self).text(),
                    e,
                ) && le.location.col as int == spec_col_of(old(self).text(), e)),
            },
    {
        let ghost s = self.input@;
        let n = self.input.unicode_len();
        let a = skip_ws(self.input, self.pos);
        self.pos = a;
        if a >= n {
            return None;
        }
        let loc = location_of(self.input, a);
        let c = self.input.get_char(a);
        if c == '[' {
            self.pos = a + 1;
            return Some(Ok(Token { kind: TokenKind::LeftBracket, location: loc }));
        }
        if c == ']' {
            self.pos = a + 1;
            return Some(Ok(Token { kind: TokenKind::RightBracket, location: loc }));
        }
        if c == '{' {
            self.pos = a + 1;
            return Some(Ok(Token { kind: TokenKind::LeftBrace, location: loc }));
        }
        if c == '}' {
            self.pos = a + 1;
            return Some(Ok(Token { kind: TokenKind::RightBrace, location: loc }));
        }
        if c == ',' {
            self.pos = a + 1;
            return Some(Ok(Token { kind: TokenKind::Comma, location: loc }));
        }
        if c == ':' {
            self.pos = a + 1;
            return Some(Ok(Token { kind: TokenKind::Colon, location: loc }));
        }
        if c == '"' {
            proof {
                lemma_string_end(s, a + 1);
            }
            match quoted_string().parse(self.input, a) {
                Ok((j, text)) => {
                    self.pos = j;
                    return Some(Ok(Token { kind: TokenKind::String(text), location: loc }));
                },
                Err(e) => {
                    self.pos = e;
                    return Some(
                        Err(
                            LexError {
                                kind: LexErrorKind::UnclosedQuotes,
                                location: location_of(self.input, e),
                                offset: e,
                            },
                        ),
                    );
                },
            }
        }
        if c == 'n' {
            match match_literal("null").parse(self.input, a) {
                Ok((j, _)) => {
                    self.pos = j;
                    return Some(Ok(Token { kind: TokenKind::Null, location: loc }));
                },
                Err(e) => {
                    self.pos = e;
                    return Some(
                        Err(
                            LexError {
                                kind: LexErrorKind::UnfinishedNullValue,
                                location: location_of(self.input, e),
                                offset: e,
                            },
                        ),
                    );
                },
            }
        }
        if c == 't' {
            match match_literal("true").parse(self.input, a) {
                Ok((j, _)) => {
                    self.pos = j;
                    return Some(Ok(Token { kind: TokenKind::Bool(true), location: loc }));
                },
                Err(e) => {
                    self.pos = e;
                    return Some(
                        Err(
                            LexError {
                                kind: LexErrorKind::UnfinishedBoolValue(true),
                                location: location_of(self.input, e),
                                offset: e,
                            },
                        ),
                    );
                },
            }
        }
        if c == 'f' {
            match match_literal("false").parse(self.input, a) {
                Ok((j, _)) => {
                    self.pos = j;
                    return Some(Ok(Token { kind: TokenKind::Bool(false), location: loc }));
                },
                Err(e) => {
                    self.pos = e;
                    return Some(
                        Err(
                            LexError {
                                kind: LexErrorKind::UnfinishedBoolValue(false),
                                location: location_of(self.input, e),
                                offset: e,
                            },
                        ),
                    );
                },
            }
        }
        if c == '-' {
            proof {
                if a + 1 <= n {
                    lemma_digits_end(s, a + 1);
                }
            }
            match negative_int().parse(self.input, a) {
                Ok((end, v)) => {
                    self.pos = end;
                    return Some(Ok(Token { kind: TokenKind::Number(v), location: loc }));
                },
                Err(e) => {
                    self.pos = e;
                    return Some(
                        Err(
                            LexError {
                                kind: LexErrorKind::ParseNumberError,
                                location: location_of(self.input, e),
                                offset: e,
                            },
                        ),
                    );
                },
            }
        }
        let cv = c as u32;
        if 48 <= cv && cv <= 57 {
            proof {
                lemma_digits_end(s, a as int);
            }
            match parse_digits(self.input, a, 9223372036854775807u64) {
                Ok((end, v)) => {
                    self.pos = end;
                    return Some(Ok(Token { kind: TokenKind::Number(v as i64), location: loc }));
                },
                Err(e) => {
                    self.pos = e;
                    return Some(
                        Err(
                            LexError {
                                kind: LexErrorKind::ParseNumberError,
                                location: location_of(self.input, e),
                                offset: e,
                            },
                        ),
                    );
                },
            }
        }
        Some(
            Err(
                LexError {
                    kind: LexErrorKind::CharNotRecognized(c),
                    location: loc,
                    offset: a,
                },
            ),
        )
    }
}

} // verus!
