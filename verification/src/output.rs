//! Line and column of a place in a text, for reports that people read.

use vstd::prelude::*;
use crate::cursor::passed;
use crate::text::chars_of;

verus! {

/// A place in a text with its line and column, both counted from one.
#[derive(Debug)]
pub struct Position {
    line: usize,
    column: usize,
    chars: Vec<char>,
    at: usize,
}

/// `a + b`, or `limit` if the sum exceeds it.
pub open spec fn at_most(a: int, b: int, limit: int) -> int {
    if a + b <= limit {
        a + b
    } else {
        limit
    }
}

impl Position {
    /// The characters of the text.
    pub closed spec fn content(&self) -> Seq<char> {
        self.chars@
    }

    /// The character that the position stands at.
    pub closed spec fn char_index(&self) -> int {
        if self.at <= self.chars@.len() {
            self.at as int
        } else {
            self.chars@.len() as int
        }
    }

    /// Line and column of the position.
    pub closed spec fn line_column(&self) -> (usize, usize) {
        (self.line, self.column)
    }

    /// The start of `content`: line one, column one.
    pub fn new(content: &str) -> (position: Position)
        ensures
            position.content() == content@,
            position.char_index() == 0,
            position.line_column() == (1usize, 1usize),
    {
        Position { line: 1, column: 1, chars: chars_of(content), at: 0 }
    }

    /// The line of the position.
    pub fn line(&self) -> (line: usize)
        ensures
            line == self.line_column().0,
    {
        self.line
    }

    /// The column of the position.
    pub fn column(&self) -> (column: usize)
        ensures
            column == self.line_column().1,
    {
        self.column
    }

    /// Moves `amount` characters on, or to the end of the text if fewer
    /// are left. A line feed starts a new line at column one.
    pub fn advance(&mut self, amount: usize)
        ensures
            final(self).content() == old(self).content(),
            final(self).char_index() == at_most(
                old(self).char_index(),
                amount as int,
                old(self).content().len() as int,
            ),
            final(self).line_column() == passed(
                old(self).content(),
                old(self).char_index(),
                final(self).char_index(),
                old(self).line_column(),
                1,
            ),
    {
        let n = self.chars.len();
        if self.at > n {
            self.at = n;
        }
        let ghost from = self.at as int;
        let ghost start = (self.line, self.column);
        let mut left: usize = amount;
        while left > 0 && self.at < n
            invariant
                self.chars == old(self).chars,
                n == self.chars@.len(),
                from == old(self).char_index(),
                start == old(self).line_column(),
                from <= self.at <= n,
                self.at - from + left == amount,
                (self.line, self.column) == passed(self.chars@, from, self.at as int, start, 1),
            decreases left,
        {
            let c = self.chars[self.at];
            if c == '\n' {
                if self.line < usize::MAX {
                    self.line = self.line + 1;
                }
                self.column = 1;
            } else {
                if self.column < usize::MAX {
                    self.column = self.column + 1;
                }
            }
            self.at = self.at + 1;
            left = left - 1;
        }
    }
}

} // verus!
