//! The tokens a [`Lexer`](crate::lexer::Lexer) produces.

use crate::location::Location;
use vstd::prelude::*;

verus! {

/// One lexical unit of a JSON document.
#[derive(Debug, Clone, PartialEq, Eq)]
pub enum TokenKind {
    /// A run of ASCII digits.
    Number(i64),
    /// The literal characters `null`.
    Null,
    /// The literal characters `true` or `false`.
    Bool(bool),
    /// Key of a key/value pair, or a string value.
    String(String),
    /// `{`
    LeftBrace,
    /// `}`
    RightBrace,
    /// `[`
    LeftBracket,
    /// `]`
    RightBracket,
    /// `,`
    Comma,
    /// `:`
    Colon,
    /// The end of the input.
    EOF,
}

/// Spec-level model of a [`TokenKind`].
pub enum SpecTokenKind {
    Number(i64),
    Null,
    Bool(bool),
    String(Seq<char>),
    LeftBrace,
    RightBrace,
    LeftBracket,
    RightBracket,
    Comma,
    Colon,
    EOF,
}

impl DeepView for TokenKind {
    type V = SpecTokenKind;

    open spec fn deep_view(&self) -> SpecTokenKind {
        match self {
            TokenKind::Number(n) => SpecTokenKind::Number(*n),
            TokenKind::Null => SpecTokenKind::Null,
            TokenKind::Bool(b) => SpecTokenKind::Bool(*b),
            TokenKind::String(s) => SpecTokenKind::String(s@),
            TokenKind::LeftBrace => SpecTokenKind::LeftBrace,
            TokenKind::RightBrace => SpecTokenKind::RightBrace,
            TokenKind::LeftBracket => SpecTokenKind::LeftBracket,
            TokenKind::RightBracket => SpecTokenKind::RightBracket,
            TokenKind::Comma => SpecTokenKind::Comma,
            TokenKind::Colon => SpecTokenKind::Colon,
            TokenKind::EOF => SpecTokenKind::EOF,
        }
    }
}

/// A token together with the row/column at which it starts.
#[derive(Debug, Clone, PartialEq, Eq)]
pub struct Token {
    /// The lexical unit.
    pub kind: TokenKind,
    /// Where the token starts.
    pub location: Location,
}

} // verus!
