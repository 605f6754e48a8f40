//! A JSON parsing library built from verified parser combinators.
//!
//! The crate is organised in three layers, leaves first: a combinator
//! core ([`combinator`], generic plumbing with no JSON knowledge),
//! lexical primitives ([`lexical`]: literal matching, quoted strings,
//! integers, whitespace), and the JSON grammar itself ([`json`]),
//! which produces a [`value::Value`] tree or a located error.  The
//! entry point is [`parse`].
//!
//! Two fixed policy choices: numbers are a tagged integer union
//! (unsigned magnitudes and negative integers; no floating point), and
//! quoted strings undergo no escape processing.  A document followed
//! by anything but whitespace is rejected.
//!
//! Beside the combinator engine stand a token-at-a-time
//! [`lexer::Lexer`] over the same lexical rules, whole-input
//! [`tokenize::tokenize`], a token-stream parser
//! ([`parse::parse_tokens`]), and two small supporting pieces: a
//! lookahead [`cursor::Cursor`] and row/column tracking
//! ([`location::Location`]).

pub mod combinator;
pub mod cursor;
pub mod json;
pub mod lexer;
pub mod lexical;
pub mod location;
pub mod parse;
pub mod token;
pub mod tokenize;
pub mod value;

use crate::json::{
    spec_json_doc, spec_json_value, lemma_json_value_bounds, parse_value_at, ParseError,
    ParseErrorKind,
};
use crate::location::{location_of, spec_col_of, spec_row_of};
use crate::value::Value;
use vstd::prelude::*;
use vstd::string::StrSliceExecFns;

verus! {

/// Parse a JSON document into a [`Value`] tree.
///
/// The document must hold exactly one JSON value, surrounded by
/// nothing but whitespace.  On failure the returned [`ParseError`]
/// carries the character offset at which parsing could not continue,
/// that offset as a row/column location, and the kind of fault.
pub fn parse(input: &str) -> (r: Result<Value, ParseError>)
    ensures
        match spec_json_doc(input@) {
            Ok(v) => (r matches Ok(val) && val.deep_view() == v),
            Err((e, k)) => (r matches Err(pe) && pe.offset as int == e && pe.kind == k
                && pe.location.row as int == spec_row_of(input@, e) && pe.location.col as int
                == spec_col_of(input@, e)),
        },
{
    let n = input.unicode_len();
    proof {
        lemma_json_value_bounds(input@, 0);
    }
    match parse_value_at(input, 0) {
        Ok((end, value)) => {
            if end == n {
                Ok(value)
            } else {
                Err(
                    ParseError {
                        kind: ParseErrorKind::UnexpectedToken,
                        offset: end,
                        location: location_of(input, end),
                    },
                )
            }
        },
        Err((offset, kind)) => Err(
            ParseError { kind, offset, location: location_of(input, offset) },
        ),
    }
}

} // verus!
