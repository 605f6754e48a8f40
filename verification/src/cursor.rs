//! A two-character lookahead cursor over a document.
//!
//! A [`Cursor`] walks the characters of a string one at a time, always
//! exposing the current character and the one after it.  It also counts
//! the lines crossed so far: advancing past a `'\n'` increments `line`
//! and resets `col` to the start of the line.

use vstd::prelude::*;
use vstd::string::StrSliceExecFns;

verus! {

broadcast use vstd::std_specs::vec::group_vec_axioms;

/// A cursor over the characters of a document, with one character of
/// lookahead and a line counter.
pub struct Cursor {
    chars: Vec<char>,
    pos: usize,
    curr: Option<char>,
    next: Option<char>,
    line: usize,
    col: usize,
}

impl Cursor {
    /// The characters the cursor walks over.
    pub closed spec fn text(&self) -> Seq<char> {
        self.chars@
    }

    /// How many characters the cursor has advanced past.
    pub closed spec fn position(&self) -> int {
        self.pos as int
    }

    /// Number of newline characters advanced past so far.
    pub closed spec fn line(&self) -> int {
        self.line as int
    }

    /// Column within the current line; stays at the line start.
    pub closed spec fn col(&self) -> int {
        self.col as int
    }

    /// The lookahead fields mirror the text at the current position.
    pub closed spec fn wf(&self) -> bool {
        &&& self.pos <= self.chars@.len()
        &&& self.curr == (if self.pos < self.chars@.len() {
            Some(self.chars@[self.pos as int])
        } else {
            None::<char>
        })
        &&& self.next == (if self.pos + 1 < self.chars@.len() {
            Some(self.chars@[self.pos + 1])
        } else {
            None::<char>
        })
        &&& self.line <= self.pos
    }

    /// A cursor standing at the start of `input`.
    pub fn new(input: &str) -> (r: Cursor)
        ensures
            r.wf(),
            r.text() == input@,
            r.position() == 0,
            r.line() == 0,
            r.col() == 0,
    {
        let n = input.unicode_len();
        let mut chars: Vec<char> = Vec::new();
        let mut k: usize = 0;
        while k < n
            invariant
                0 <= k <= n,
                n == input@.len(),
                chars@ =~= input@.subrange(0, k as int),
            decreases n - k,
        {
            chars.push(input.get_char(k));
            k = k + 1;
        }
        proof {
            assert(chars@ =~= input@);
        }
        let curr = if chars.len() > 0 {
            Some(chars[0])
        } else {
            None
        };
        let next = if chars.len() > 1 {
            Some(chars[1])
        } else {
            None
        };
        Cursor { chars, pos: 0, curr, next, line: 0, col: 0 }
    }

    /// The character under the cursor, or `None` past the end.
    pub fn curr(&self) -> (r: Option<&char>)
        requires
            self.wf(),
        ensures
            self.position() < self.text().len() ==> (r matches Some(c) && *c == self.text()[
                self.position()
            ]),
            self.position() >= self.text().len() ==> r is None,
    {
        self.curr.as_ref()
    }

    /// The character after the current one, or `None` past the end.
    pub fn peek(&self) -> (r: Option<&char>)
        requires
            self.wf(),
        ensures
            self.position() + 1 < self.text().len() ==> (r matches Some(c) && *c == self.text()[
                self.position() + 1
            ]),
            self.position() + 1 >= self.text().len() ==> r is None,
    {
        self.next.as_ref()
    }

    /// Step past the current character, if any; counts the newline
    /// being left behind.  Past the end the cursor stays where it is.
    pub fn advance(&mut self)
        requires
            old(self).wf(),
        ensures
            final(self).wf(),
            final(self).text() == old(self).text(),
            old(self).position() < old(self).text().len() ==> final(self).position() == old(
                self,
            ).position() + 1,
            old(self).position() >= old(self).text().len() ==> final(self).position() == old(
                self,
            ).position(),
    {
        match self.curr {
            Some(ch) => {
                let n = self.chars.len();
                if ch == '\n' {
                    self.line = self.line + 1;
                    self.col = 0;
                }
                self.pos = self.pos + 1;
                self.curr = if self.pos < n {
                    Some(self.chars[self.pos])
                } else {
                    None
                };
                self.next = if self.pos < n && self.pos + 1 < n {
                    Some(self.chars[self.pos + 1])
                } else {
                    None
                };
            },
            None => {},
        }
    }

    /// Borrow the characters that remain in front of the cursor,
    /// the current character included.
    pub fn iter(&self) -> (r: &Vec<char>)
        ensures
            r@ == self.text(),
    {
        &self.chars
    }
}

} // verus!
