//! Row/column positions, computed by tracking newline crossings.
//!
//! A [`Location`] names a point in a document by zero-based row and
//! column.  [`location_of`] turns a character offset into the location
//! reached after consuming that many characters: every `'\n'` moves to
//! the start of the next row, every other character moves one column to
//! the right.

use vstd::prelude::*;
use vstd::string::StrSliceExecFns;

verus! {

/// A zero-based row/column position in a document.
#[derive(Debug, Clone, Copy, PartialEq, Eq, Structural)]
pub struct Location {
    pub row: usize,
    pub col: usize,
}

impl Location {
    /// The starting location: row 0, column 0.
    pub fn new() -> (r: Location)
        ensures
            r.row == 0,
            r.col == 0,
    {
        Location { row: 0, col: 0 }
    }

    /// Step one column to the right within the current row.
    pub fn move_right(&mut self)
        requires
            old(self).col < usize::MAX,
        ensures
            final(self).row == old(self).row,
            final(self).col == old(self).col + 1,
    {
        self.col = self.col + 1;
    }

    /// Step to the start of the next row.
    pub fn move_down(&mut self)
        requires
            old(self).row < usize::MAX,
        ensures
            final(self).row == old(self).row + 1,
            final(self).col == 0,
    {
        self.row = self.row + 1;
        self.col = 0;
    }
}

/// The row reached after consuming the first `n` characters of `s`:
/// the number of newlines among them.
pub open spec fn spec_row_of(s: Seq<char>, n: int) -> int
    decreases n,
{
    if n <= 0 {
        0
    } else {
        spec_row_of(s, n - 1) + if s[n - 1] == '\n' {
            1int
        } else {
            0int
        }
    }
}

/// The column reached after consuming the first `n` characters of `s`:
/// the number of characters since the last newline among them.
pub open spec fn spec_col_of(s: Seq<char>, n: int) -> int
    decreases n,
{
    if n <= 0 {
        0
    } else if s[n - 1] == '\n' {
        0
    } else {
        spec_col_of(s, n - 1) + 1
    }
}

/// Rows and columns never outgrow the number of characters consumed.
proof fn lemma_location_bounds(s: Seq<char>, n: int)
    requires
        n >= 0,
    ensures
        0 <= spec_row_of(s, n) <= n,
        0 <= spec_col_of(s, n) <= n,
    decreases n,
{
    if n > 0 {
        lemma_location_bounds(s, n - 1);
    }
}

/// The location reached after consuming the first `offset` characters
/// of `input`.
pub fn location_of(input: &str, offset: usize) -> (r: Location)
    requires
        offset <= input@.len(),
    ensures
        r.row == spec_row_of(input@, offset as int),
        r.col == spec_col_of(input@, offset as int),
{
    let mut loc = Location::new();
    let mut k: usize = 0;
    while k < offset
        invariant
            0 <= k <= offset <= input@.len(),
            loc.row == spec_row_of(input@, k as int),
            loc.col == spec_col_of(input@, k as int),
        decreases offset - k,
    {
        proof {
            lemma_location_bounds(input@, k as int);
        }
        let c = input.get_char(k);
        if c == '\n' {
            loc.move_down();
        } else {
            loc.move_right();
        }
        k = k + 1;
    }
    loc
}

} // verus!
