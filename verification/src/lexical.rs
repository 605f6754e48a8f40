//! Lexical primitives: parsers for atomic lexical units, independent
//! of any tree shape.
//!
//! The primitives recognise literal keywords, single characters,
//! quoted strings, unsigned and negative integers and whitespace runs.
//! Each is specified by a direct function over the input characters;
//! the parser structs tie the executable recognisers to those
//! specifications through the combinator core's `Parser` trait.
//!
//! Two policy choices, fixed here and tested as such: whitespace means
//! the four JSON whitespace characters (space, tab, carriage return,
//! line feed), and quoted strings undergo no escape processing; the
//! string's text is exactly the characters between the two quotes, and
//! a backslash is an ordinary character.

use crate::combinator::{
    Left, OneOrMore, Parser, PredFilter, PredFn, Right, ZeroOrMore, left, one_or_more, pred,
    right, zero_or_more,
};
use vstd::prelude::*;
use vstd::string::StrSliceExecFns;

verus! {

broadcast use vstd::seq::group_seq_axioms;

/// The four JSON whitespace characters.
pub open spec fn spec_is_json_ws(c: char) -> bool {
    c == ' ' || c == '\t' || c == '\n' || c == '\r'
}

/// An ASCII decimal digit.
pub open spec fn spec_is_digit(c: char) -> bool {
    48 <= c as int <= 57
}

/// The numeric value of the digit character `c`.
pub open spec fn spec_digit_val(c: char) -> int {
    c as int - 48
}

/// The first position at or after `i` holding a non-whitespace
/// character, or the end of the input.
pub open spec fn spec_ws_end(s: Seq<char>, i: int) -> int
    decreases s.len() - i,
{
    if i >= s.len() || i < 0 {
        i
    } else if spec_is_json_ws(s[i]) {
        spec_ws_end(s, i + 1)
    } else {
        i
    }
}

/// Skipping whitespace stays within the input, skips only whitespace,
/// and stops at the first non-whitespace character.
pub proof fn lemma_ws_end(s: Seq<char>, i: int)
    requires
        0 <= i <= s.len(),
    ensures
        i <= spec_ws_end(s, i) <= s.len(),
        forall|m: int| i <= m < spec_ws_end(s, i) ==> spec_is_json_ws(s[m]),
        spec_ws_end(s, i) < s.len() ==> !spec_is_json_ws(s[spec_ws_end(s, i)]),
        spec_ws_end(s, spec_ws_end(s, i)) == spec_ws_end(s, i),
    decreases s.len() - i,
{
    if i < s.len() && spec_is_json_ws(s[i]) {
        lemma_ws_end(s, i + 1);
    }
}

/// Every character of `w` is JSON whitespace.
pub open spec fn spec_all_ws(w: Seq<char>) -> bool {
    forall|m: int| 0 <= m < w.len() ==> spec_is_json_ws(#[trigger] w[m])
}

/// The whitespace scan jumps over a stretch known to be whitespace.
pub proof fn lemma_ws_end_skip(t: Seq<char>, k: int, k2: int)
    requires
        0 <= k <= k2 <= t.len(),
        forall|m: int| k <= m < k2 ==> spec_is_json_ws(#[trigger] t[m]),
    ensures
        spec_ws_end(t, k) == spec_ws_end(t, k2),
    decreases k2 - k,
{
    if k < k2 {
        lemma_ws_end_skip(t, k + 1, k2);
    }
}

/// A run that is whitespace to the very end scans to the very end.
pub proof fn lemma_ws_end_tail(t: Seq<char>, k: int)
    requires
        0 <= k <= t.len(),
        forall|m: int| k <= m < t.len() ==> spec_is_json_ws(#[trigger] t[m]),
    ensures
        spec_ws_end(t, k) == t.len(),
    decreases t.len() - k,
{
    if k < t.len() {
        lemma_ws_end_tail(t, k + 1);
    }
}

/// How the whitespace scan of `s` embeds into `p + s + w` for an
/// all-whitespace suffix `w`: a scan that stops inside `s` stops at
/// the same character; one that reaches the end of `s` runs on through
/// `w` to the very end.
pub proof fn lemma_ws_end_embed(s: Seq<char>, p: Seq<char>, w: Seq<char>, k: int)
    requires
        0 <= k <= s.len(),
        spec_all_ws(w),
    ensures
        spec_ws_end(s, k) < s.len() ==> spec_ws_end(p + s + w, p.len() + k) == p.len()
            + spec_ws_end(s, k),
        spec_ws_end(s, k) == s.len() ==> spec_ws_end(p + s + w, p.len() + k) == (p + s
            + w).len(),
    decreases s.len() - k,
{
    let t = p + s + w;
    lemma_ws_end(s, k);
    if k == s.len() {
        assert forall|m: int| p.len() + k <= m < t.len() implies spec_is_json_ws(
            #[trigger] t[m],
        ) by {
            assert(t[m] == w[m - p.len() - s.len()]);
        }
        lemma_ws_end_tail(t, p.len() + k);
    } else {
        assert(t[p.len() + k] == s[k]);
        if spec_is_json_ws(s[k]) {
            lemma_ws_end_embed(s, p, w, k + 1);
        }
    }
}

/// How the quote scan of `s` embeds into `p + s + w`, for a scan that
/// finds its quote inside `s`.
pub proof fn lemma_string_end_embed(s: Seq<char>, p: Seq<char>, w: Seq<char>, k: int)
    requires
        0 <= k <= s.len(),
        spec_string_end(s, k) < s.len(),
    ensures
        spec_string_end(p + s + w, p.len() + k) == p.len() + spec_string_end(s, k),
    decreases s.len() - k,
{
    let t = p + s + w;
    assert(t[p.len() + k] == s[k]);
    if s[k] != '"' {
        lemma_string_end_embed(s, p, w, k + 1);
    }
}

/// How the digit scan of `s` embeds into `p + s + w` for an
/// all-whitespace suffix `w`: whitespace is never a digit, so the scan
/// stops where it stopped in `s`.
pub proof fn lemma_digits_end_embed(s: Seq<char>, p: Seq<char>, w: Seq<char>, k: int)
    requires
        0 <= k <= s.len(),
        spec_all_ws(w),
    ensures
        spec_digits_end(p + s + w, p.len() + k) == p.len() + spec_digits_end(s, k),
    decreases s.len() - k,
{
    let t = p + s + w;
    if k == s.len() {
        if w.len() > 0 {
            assert(t[p.len() + k] == w[0]);
            assert(!spec_is_digit(w[0]));
        }
    } else {
        assert(t[p.len() + k] == s[k]);
        if spec_is_digit(s[k]) {
            lemma_digits_end_embed(s, p, w, k + 1);
        }
    }
}

/// The value of a digit run depends only on the characters it covers.
pub proof fn lemma_digits_val_embed(s: Seq<char>, p: Seq<char>, w: Seq<char>, i: int, j: int)
    requires
        0 <= i,
        i <= j <= s.len(),
    ensures
        spec_digits_val(p + s + w, p.len() + i, p.len() + j) == spec_digits_val(s, i, j),
    decreases j - i,
{
    let t = p + s + w;
    if j > i {
        assert(t[p.len() + j - 1] == s[j - 1]);
        lemma_digits_val_embed(s, p, w, i, j - 1);
    }
}

/// Matching a literal: succeeds, consuming exactly the literal's
/// characters, iff the input continues with them; fails at the start
/// position otherwise.
pub open spec fn spec_literal(s: Seq<char>, i: int, lit: Seq<char>) -> Result<(int, ()), int> {
    if 0 <= i && i + lit.len() <= s.len() && s.subrange(i, i + lit.len() as int) == lit {
        Ok((i + lit.len() as int, ()))
    } else {
        Err(i)
    }
}

/// The first position at or after `k` holding a double quote, or the
/// end of the input.
pub open spec fn spec_string_end(s: Seq<char>, k: int) -> int
    decreases s.len() - k,
{
    if k >= s.len() || k < 0 {
        k
    } else if s[k] == '"' {
        k
    } else {
        spec_string_end(s, k + 1)
    }
}

/// The quote scan stays within the input, passes only non-quote
/// characters, and stops at a quote if it stops before the end.
pub proof fn lemma_string_end(s: Seq<char>, k: int)
    requires
        0 <= k <= s.len(),
    ensures
        k <= spec_string_end(s, k) <= s.len(),
        forall|m: int| k <= m < spec_string_end(s, k) ==> s[m] != '"',
        spec_string_end(s, k) < s.len() ==> s[spec_string_end(s, k)] == '"',
    decreases s.len() - k,
{
    if k < s.len() && s[k] != '"' {
        lemma_string_end(s, k + 1);
    }
}

/// A quoted string: a leading `"`, zero or more non-quote characters,
/// a trailing `"`.  The output is the text between the quotes, with
/// no escape processing.  Failure comes at the start position when
/// the opening quote is missing, and at the end of the input when the
/// closing quote is missing.
pub open spec fn spec_quoted(s: Seq<char>, i: int) -> Result<(int, Seq<char>), int> {
    if 0 <= i < s.len() && s[i] == '"' {
        let close = spec_string_end(s, i + 1);
        if close < s.len() {
            Ok((close + 1, s.subrange(i + 1, close)))
        } else {
            Err(s.len() as int)
        }
    } else {
        Err(i)
    }
}

/// The first position at or after `i` holding a non-digit character,
/// or the end of the input.
pub open spec fn spec_digits_end(s: Seq<char>, i: int) -> int
    decreases s.len() - i,
{
    if i >= s.len() || i < 0 {
        i
    } else if spec_is_digit(s[i]) {
        spec_digits_end(s, i + 1)
    } else {
        i
    }
}

/// The digit scan stays within the input, passes only digits, and
/// stops at the first non-digit.
pub proof fn lemma_digits_end(s: Seq<char>, i: int)
    requires
        0 <= i <= s.len(),
    ensures
        i <= spec_digits_end(s, i) <= s.len(),
        forall|m: int| i <= m < spec_digits_end(s, i) ==> spec_is_digit(s[m]),
        spec_digits_end(s, i) < s.len() ==> !spec_is_digit(s[spec_digits_end(s, i)]),
    decreases s.len() - i,
{
    if i < s.len() && spec_is_digit(s[i]) {
        lemma_digits_end(s, i + 1);
    }
}

/// The number denoted by the digits from `i` (inclusive) to `j`
/// (exclusive), most significant first.
pub open spec fn spec_digits_val(s: Seq<char>, i: int, j: int) -> int
    decreases j - i,
{
    if j <= i {
        0
    } else {
        spec_digits_val(s, i, j - 1) * 10 + spec_digit_val(s[j - 1])
    }
}

/// A digit string's value is non-negative and grows (weakly) with
/// every digit appended.
pub proof fn lemma_digits_val_mono(s: Seq<char>, i: int, j: int, k: int)
    requires
        i <= j <= k,
        forall|m: int| i <= m < k ==> 0 <= spec_digit_val(#[trigger] s[m]) <= 9,
    ensures
        0 <= spec_digits_val(s, i, j) <= spec_digits_val(s, i, k),
    decreases k - i, k - j,
{
    if j < k {
        lemma_digits_val_mono(s, i, j, k - 1);
        assert(spec_digits_val(s, i, k) == spec_digits_val(s, i, k - 1) * 10 + spec_digit_val(
            s[k - 1],
        ));
        assert(spec_digits_val(s, i, k - 1) * 10 >= spec_digits_val(s, i, k - 1)) by {
            assert(spec_digits_val(s, i, k - 1) >= 0);
        }
    } else {
        if j > i {
            lemma_digits_val_mono(s, i, j - 1, j - 1);
        }
    }
}

/// One or more digits folded into an unsigned 64-bit integer.
/// Fails at the start position when no digit is present, and also,
/// rather than overflowing, when the digit string exceeds `u64::MAX`.
pub open spec fn spec_uint(s: Seq<char>, i: int) -> Result<(int, u64), int> {
    let d = spec_digits_end(s, i);
    if d <= i {
        Err(i)
    } else {
        let n = spec_digits_val(s, i, d);
        if n <= u64::MAX {
            Ok((d, n as u64))
        } else {
            Err(i)
        }
    }
}

/// A negative integer: a leading `-`, then one or more digits, folded
/// into a negated signed 64-bit integer.  A missing digit fails just
/// after the sign; a magnitude above `i64::MAX` fails at the sign,
/// rather than overflowing.
pub open spec fn spec_int(s: Seq<char>, i: int) -> Result<(int, i64), int> {
    if 0 <= i < s.len() && s[i] == '-' {
        let d = spec_digits_end(s, i + 1);
        if d <= i + 1 {
            Err(i + 1)
        } else {
            let n = spec_digits_val(s, i + 1, d);
            if n <= i64::MAX {
                Ok((d, (-n) as i64))
            } else {
                Err(i)
            }
        }
    } else {
        Err(i)
    }
}

/// Consumes exactly one character; fails only at the end of input.
#[derive(Clone, Copy)]
pub struct AnyChar;

/// Parses any single character.
pub fn any_char() -> (r: AnyChar)
    ensures
        r == AnyChar,
{
    AnyChar
}

impl Parser for AnyChar {
    type Model = char;

    type Output = char;

    open spec fn spec_parse(&self, s: Seq<char>, i: int) -> Result<(int, char), int> {
        if 0 <= i < s.len() {
            Ok((i + 1, s[i]))
        } else {
            Err(i)
        }
    }

    proof fn lemma_parse_bounds(&self, s: Seq<char>, i: int) {
    }

    fn parse(&self, input: &str, pos: usize) -> (r: Result<(usize, char), usize>) {
        let n = input.unicode_len();
        if pos < n {
            Ok((pos + 1, input.get_char(pos)))
        } else {
            Err(pos)
        }
    }
}

/// Matches an expected literal exactly; consumes the literal's length
/// on success and nothing on failure.
#[derive(Clone, Copy)]
pub struct MatchLiteral {
    pub expected: &'static str,
}

/// Matches the input against a literal.
pub fn match_literal(expected: &'static str) -> (r: MatchLiteral)
    ensures
        r == (MatchLiteral { expected }),
{
    MatchLiteral { expected }
}

impl Parser for MatchLiteral {
    type Model = ();

    type Output = ();

    open spec fn spec_parse(&self, s: Seq<char>, i: int) -> Result<(int, ()), int> {
        spec_literal(s, i, self.expected@)
    }

    proof fn lemma_parse_bounds(&self, s: Seq<char>, i: int) {
    }

    fn parse(&self, input: &str, pos: usize) -> (r: Result<(usize, ()), usize>) {
        let n = input.unicode_len();
        let lit_len = self.expected.unicode_len();
        if lit_len > n - pos {
            proof {
                assert(pos + self.expected@.len() > input@.len());
            }
            return Err(pos);
        }
        let mut k: usize = 0;
        while k < lit_len
            invariant
                0 <= k <= lit_len,
                lit_len == self.expected@.len(),
                n == input@.len(),
                pos + lit_len <= n,
                forall|m: int| 0 <= m < k ==> input@[pos + m] == self.expected@[m],
            decreases lit_len - k,
        {
            if input.get_char(pos + k) != self.expected.get_char(k) {
                proof {
                    let sub = input@.subrange(pos as int, pos + self.expected@.len());
                    assert(sub[k as int] != self.expected@[k as int]);
                }
                return Err(pos);
            }
            k = k + 1;
        }
        proof {
            assert(input@.subrange(pos as int, pos + self.expected@.len()) =~= self.expected@);
        }
        Ok((pos + lit_len, ()))
    }
}

/// Accepts exactly the JSON whitespace characters.
#[derive(Clone, Copy)]
pub struct IsJsonWs;

impl PredFn for IsJsonWs {
    type InModel = char;

    type In = char;

    open spec fn spec_test(&self, m: char) -> bool {
        spec_is_json_ws(m)
    }

    fn test(&self, x: &char) -> (r: bool) {
        let c = *x;
        c == ' ' || c == '\t' || c == '\n' || c == '\r'
    }
}

/// Accepts exactly one given character.
#[derive(Clone, Copy)]
pub struct IsChar {
    pub value: char,
}

impl PredFn for IsChar {
    type InModel = char;

    type In = char;

    open spec fn spec_test(&self, m: char) -> bool {
        m == self.value
    }

    fn test(&self, x: &char) -> (r: bool) {
        *x == self.value
    }
}

/// Parses a single whitespace character.
pub fn whitespace_char() -> (r: PredFilter<AnyChar, IsJsonWs>)
    ensures
        r == (PredFilter { parser: AnyChar, filter: IsJsonWs }),
{
    pred(any_char(), IsJsonWs)
}

/// Parses zero or more whitespace characters.
pub fn space0() -> (r: ZeroOrMore<PredFilter<AnyChar, IsJsonWs>>)
    ensures
        r == (ZeroOrMore { parser: PredFilter { parser: AnyChar, filter: IsJsonWs } }),
{
    zero_or_more(whitespace_char())
}

/// Parses one or more whitespace characters.
pub fn space1() -> (r: OneOrMore<PredFilter<AnyChar, IsJsonWs>>)
    ensures
        r == (OneOrMore { parser: PredFilter { parser: AnyChar, filter: IsJsonWs } }),
{
    one_or_more(whitespace_char())
}

/// Runs the provided parser with whitespace discarded on both sides.
pub fn trim<P: Parser>(parser: P) -> (r: Right<
    ZeroOrMore<PredFilter<AnyChar, IsJsonWs>>,
    Left<P, ZeroOrMore<PredFilter<AnyChar, IsJsonWs>>>,
>)
    ensures
        r == (Right {
            first: ZeroOrMore { parser: PredFilter { parser: AnyChar, filter: IsJsonWs } },
            second: Left {
                first: parser,
                second: ZeroOrMore { parser: PredFilter { parser: AnyChar, filter: IsJsonWs } },
            },
        }),
{
    right(space0(), left(parser, space0()))
}

/// Parses the content contained between two literal quotation
/// characters into an owned string; no escape processing.
#[derive(Clone, Copy)]
pub struct QuotedString;

/// Parses a double-quoted string.
pub fn quoted_string() -> (r: QuotedString)
    ensures
        r == QuotedString,
{
    QuotedString
}

impl Parser for QuotedString {
    type Model = Seq<char>;

    type Output = String;

    open spec fn spec_parse(&self, s: Seq<char>, i: int) -> Result<(int, Seq<char>), int> {
        spec_quoted(s, i)
    }

    proof fn lemma_parse_bounds(&self, s: Seq<char>, i: int) {
        if 0 <= i < s.len() && s[i] == '"' {
            lemma_string_end(s, i + 1);
        }
    }

    fn parse(&self, input: &str, pos: usize) -> (r: Result<(usize, String), usize>) {
        let n = input.unicode_len();
        if pos >= n {
            return Err(pos);
        }
        if input.get_char(pos) != '"' {
            return Err(pos);
        }
        let mut k: usize = pos + 1;
        while k < n
            invariant
                pos + 1 <= k <= n,
                n == input@.len(),
                input@[pos as int] == '"',
                spec_string_end(input@, pos + 1) == spec_string_end(input@, k as int),
            decreases n - k,
        {
            if input.get_char(k) == '"' {
                let content = input.substring_char(pos + 1, k).to_owned();
                return Ok((k + 1, content));
            }
            k = k + 1;
        }
        Err(n)
    }
}

/// Parses one or more ASCII digits into an unsigned 64-bit integer;
/// fails, rather than overflowing, when the digits do not fit.
#[derive(Clone, Copy)]
pub struct UintParser;

/// Parses a non-negative integer.
pub fn uint() -> (r: UintParser)
    ensures
        r == UintParser,
{
    UintParser
}

impl Parser for UintParser {
    type Model = u64;

    type Output = u64;

    open spec fn spec_parse(&self, s: Seq<char>, i: int) -> Result<(int, u64), int> {
        spec_uint(s, i)
    }

    proof fn lemma_parse_bounds(&self, s: Seq<char>, i: int) {
        lemma_digits_end(s, i);
    }

    fn parse(&self, input: &str, pos: usize) -> (r: Result<(usize, u64), usize>) {
        match parse_digits(input, pos, u64::MAX) {
            Ok((end, value)) => Ok((end, value)),
            Err(e) => Err(e),
        }
    }
}

/// Parses a leading `-` and one or more ASCII digits into a negative
/// 64-bit integer; fails, rather than overflowing, when the magnitude
/// does not fit.
#[derive(Clone, Copy)]
pub struct IntParser;

/// Parses a negative integer.
pub fn negative_int() -> (r: IntParser)
    ensures
        r == IntParser,
{
    IntParser
}

impl Parser for IntParser {
    type Model = i64;

    type Output = i64;

    open spec fn spec_parse(&self, s: Seq<char>, i: int) -> Result<(int, i64), int> {
        spec_int(s, i)
    }

    proof fn lemma_parse_bounds(&self, s: Seq<char>, i: int) {
        if 0 <= i < s.len() && s[i] == '-' {
            lemma_digits_end(s, i + 1);
        }
    }

    fn parse(&self, input: &str, pos: usize) -> (r: Result<(usize, i64), usize>) {
        let n = input.unicode_len();
        if pos >= n {
            return Err(pos);
        }
        if input.get_char(pos) != '-' {
            return Err(pos);
        }
        match parse_digits(input, pos + 1, i64::MAX as u64) {
            Ok((end, value)) => {
                proof {
                    assert(spec_digits_val(input@, pos + 1, end as int) <= i64::MAX);
                }
                Ok((end, -(value as i64)))
            },
            Err(e) => {
                if e == pos + 1 && pos + 1 < n {
                    let c = input.get_char(pos + 1);
                    let cv = c as u32;
                    if 48 <= cv && cv <= 57 {
                        // digits were present, so the magnitude overflowed
                        proof {
                            assert(spec_is_digit(input@[pos + 1]));
                            assert(spec_digits_end(input@, pos + 1) == spec_digits_end(
                                input@,
                                pos + 2,
                            ));
                            lemma_digits_end(input@, pos + 2);
                        }
                        return Err(pos);
                    }
                }
                Err(e)
            },
        }
    }
}

/// Folds the digit run starting at `pos` into an unsigned integer,
/// refusing values above `bound`.  Fails at `pos` both when no digit
/// is present and when the digits exceed the bound.
pub(crate) fn parse_digits(input: &str, pos: usize, bound: u64) -> (r: Result<(usize, u64), usize>)
    requires
        pos <= input@.len(),
        input@.len() <= usize::MAX,
        bound >= 1,
    ensures
        ({
            let d = spec_digits_end(input@, pos as int);
            match r {
                Ok((end, value)) => d > pos && end as int == d && value as int == spec_digits_val(
                    input@,
                    pos as int,
                    d,
                ) && value <= bound,
                Err(e) => e == pos && (d <= pos || spec_digits_val(input@, pos as int, d)
                    > bound),
            }
        }),
{
    let ghost s = input@;
    let n = input.unicode_len();
    if pos >= n {
        return Err(pos);
    }
    let first = input.get_char(pos) as u32;
    if first < 48 || first > 57 {
        return Err(pos);
    }
    proof {
        lemma_digits_end(s, pos as int);
    }
    let mut k: usize = pos;
    let mut value: u64 = 0;
    loop
        invariant
            pos <= k <= n,
            n == s.len(),
            s == input@,
            bound >= 1,
            pos < s.len() && spec_is_digit(s[pos as int]),
            spec_digits_end(s, pos as int) == spec_digits_end(s, k as int),
            k > pos ==> value as int == spec_digits_val(s, pos as int, k as int),
            k == pos ==> value == 0,
            value <= bound,
            forall|m: int| pos <= m < k ==> spec_is_digit(#[trigger] s[m]),
        decreases n - k,
    {
        if k >= n {
            proof {
                assert(spec_digits_end(s, k as int) == k as int);
            }
            return Ok((k, value));
        }
        let c = input.get_char(k);
        let cv = c as u32;
        if cv < 48 || cv > 57 {
            proof {
                assert(!spec_is_digit(s[k as int]));
                assert(spec_digits_end(s, k as int) == k as int);
            }
            return Ok((k, value));
        }
        let dv = (c as u32 - 48) as u64;
        proof {
            assert(spec_is_digit(s[k as int]));
            assert(dv as int == spec_digit_val(s[k as int]));
        }
        let next_value = match value.checked_mul(10) {
            Some(v10) => v10.checked_add(dv),
            None => None,
        };
        let accepted = match next_value {
            Some(v) => if v <= bound {
                Some(v)
            } else {
                None
            },
            None => None,
        };
        match accepted {
            Some(v) => {
                proof {
                    if k == pos {
                        assert(spec_digits_val(s, pos as int, pos as int) == 0);
                    }
                    assert(spec_digits_val(s, pos as int, k + 1) == spec_digits_val(
                        s,
                        pos as int,
                        k as int,
                    ) * 10 + spec_digit_val(s[k as int]));
                }
                value = v;
                k = k + 1;
            },
            None => {
                // the next digit would push the value over the bound
                proof {
                    lemma_digits_end(s, pos as int);
                    let d = spec_digits_end(s, pos as int);
                    assert(spec_digits_end(s, k as int) == spec_digits_end(s, k + 1));
                    lemma_digits_end(s, k + 1);
                    assert(k + 1 <= d);
                    assert(spec_digits_val(s, pos as int, k + 1) > bound) by {
                        assert(spec_digits_val(s, pos as int, k + 1) == spec_digits_val(
                            s,
                            pos as int,
                            k as int,
                        ) * 10 + spec_digit_val(s[k as int]));
                        if value as int * 10 + dv > u64::MAX {
                        }
                    }
                    assert forall|m: int| pos <= m < d implies 0 <= spec_digit_val(
                        #[trigger] s[m],
                    ) <= 9 by {
                        assert(spec_is_digit(s[m]));
                    }
                    lemma_digits_val_mono(s, pos as int, k + 1, d);
                }
                return Err(pos);
            },
        }
    }
}

/// Advance past whitespace.
pub fn skip_ws(input: &str, pos: usize) -> (r: usize)
    requires
        pos <= input@.len(),
        input@.len() <= usize::MAX,
    ensures
        r as int == spec_ws_end(input@, pos as int),
        pos <= r <= input@.len(),
{
    proof {
        lemma_ws_end(input@, pos as int);
    }
    let n = input.unicode_len();
    let mut k: usize = pos;
    loop
        invariant
            pos <= k <= n,
            n == input@.len(),
            spec_ws_end(input@, pos as int) == spec_ws_end(input@, k as int),
        decreases n - k,
    {
        if k >= n {
            return k;
        }
        let c = input.get_char(k);
        if c == ' ' || c == '\t' || c == '\n' || c == '\r' {
            k = k + 1;
        } else {
            return k;
        }
    }
}

} // verus!
