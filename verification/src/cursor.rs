//! Places in a text, counted in characters, in bytes, and in lines and
//! columns.

use vstd::prelude::*;
use crate::text::{
    byte_len, char_width, chars_of, lemma_utf8_len_prefix, lemma_utf8_len_take, utf8_len,
};

verus! {

/// Whether `c` ends a line.
pub open spec fn line_end(c: char) -> bool {
    c == '\n' || c == '\r'
}

/// Where a walk forward from character `from` to character `to` comes to
/// rest: at `to`, at the end of the text, or, if `stop` is set, before
/// the first end of a line on the way.
pub open spec fn forward_rest(chars: Seq<char>, from: int, to: int, stop: bool) -> int
    decreases to - from,
{
    if from < to && from < chars.len() {
        if stop && line_end(chars[from]) {
            from
        } else {
            forward_rest(chars, from + 1, to, stop)
        }
    } else {
        from
    }
}

/// Where a walk back from character `from` to character `to` comes to
/// rest: at `to`, or, if `stop` is set, behind the first end of a line on
/// the way.
pub open spec fn backward_rest(chars: Seq<char>, from: int, to: int, stop: bool) -> int
    decreases from,
{
    if to < from && 0 < from <= chars.len() {
        if stop && line_end(chars[from - 1]) {
            from
        } else {
            backward_rest(chars, from - 1, to, stop)
        }
    } else {
        from
    }
}

/// Where a walk from character `from` towards character `to` comes to
/// rest.
pub open spec fn rest(chars: Seq<char>, from: int, to: int, stop: bool) -> int {
    if from < to {
        forward_rest(chars, from, to, stop)
    } else {
        backward_rest(chars, from, to, stop)
    }
}

/// A place in a text that can be moved to another character and tells the
/// byte that the character starts at.
#[derive(Debug)]
pub struct StringCursor<'a> {
    text: &'a str,
    chars: Vec<char>,
    at: (usize, usize),
}

impl<'a> StringCursor<'a> {
    #[verifier::type_invariant]
    spec fn valid(self) -> bool {
        &&& self.chars@ == self.text@
        &&& self.at.1 <= self.chars@.len()
        &&& self.at.0 == utf8_len(self.chars@.take(self.at.1 as int))
    }

    /// The characters of the text.
    pub closed spec fn content(&self) -> Seq<char> {
        self.text@
    }

    /// The character that the cursor stands at.
    pub closed spec fn char_index(&self) -> nat {
        self.at.1 as nat
    }

    /// The byte that the cursor stands at.
    pub closed spec fn utf_8_index(&self) -> nat {
        self.at.0 as nat
    }

    /// A cursor at the start of `text`.
    pub fn new(text: &'a str) -> (cursor: StringCursor<'a>)
        ensures
            cursor.content() == text@,
            cursor.char_index() == 0,
            cursor.utf_8_index() == 0,
    {
        let chars = chars_of(text);
        assert(utf8_len(chars@.take(0)) == 0);
        StringCursor { text, chars, at: (0, 0) }
    }

    /// The byte that the cursor stands at.
    pub fn byte_index(&self) -> (index: usize)
        ensures
            index == self.utf_8_index(),
            index == utf8_len(self.content().take(self.char_index() as int)),
            self.char_index() <= self.content().len(),
    {
        proof {
            use_type_invariant(self);
        }
        self.at.0
    }

    /// The character that the cursor stands at.
    pub fn position(&self) -> (index: usize)
        ensures
            index == self.char_index(),
            index <= self.content().len(),
    {
        proof {
            use_type_invariant(self);
        }
        self.at.1
    }

    /// The character at index `index` of the text.
    pub fn char_at(&self, index: usize) -> (c: char)
        requires
            index < self.content().len(),
        ensures
            c == self.content()[index as int],
    {
        proof {
            use_type_invariant(self);
        }
        self.chars[index]
    }

    /// The text that the cursor moves in.
    pub fn text(&self) -> (text: &'a str)
        ensures
            text@ == self.content(),
    {
        self.text
    }

    /// Moves the cursor towards the character `char_index` and gives the
    /// byte that it comes to rest at. With `stop_at_newline` the cursor
    /// does not pass the end of a line. Gives `None` if the text ends
    /// before the character is reached.
    pub fn utf_8_offset(&mut self, char_index: usize, stop_at_newline: bool) -> (offset: Option<
        usize,
    >)
        ensures
            final(self).content() == old(self).content(),
            final(self).char_index() == rest(
                old(self).content(),
                old(self).char_index() as int,
                char_index as int,
                stop_at_newline,
            ),
            final(self).utf_8_index() == utf8_len(
                final(self).content().take(final(self).char_index() as int),
            ),
            offset is None <==> final(self).char_index() == final(self).content().len()
                && final(self).content().len() < char_index,
            offset is Some ==> offset->0 == final(self).utf_8_index(),
    {
        proof {
            use_type_invariant(&*self);
        }
        let ghost chars = self.chars@;
        let ghost start = self.at.1 as int;
        let n = self.chars.len();
        let total = byte_len(self.text);
        if self.at.1 < char_index {
            while self.at.1 < char_index && self.at.1 < n
                invariant
                    self.text == old(self).text,
                    self.chars@ == chars,
                    chars == self.text@,
                    n == chars.len(),
                    total == utf8_len(chars),
                    start <= self.at.1 <= n,
                    self.at.1 <= char_index,
                    start == old(self).at.1,
                    chars == old(self).text@,
                    start < char_index,
                    self.at.0 == utf8_len(chars.take(self.at.1 as int)),
                    forward_rest(chars, start, char_index as int, stop_at_newline)
                        == forward_rest(
                        chars,
                        self.at.1 as int,
                        char_index as int,
                        stop_at_newline,
                    ),
                decreases n - self.at.1,
            {
                let c = self.chars[self.at.1];
                if stop_at_newline && (c == '\n' || c == '\r') {
                    return Some(self.at.0);
                }
                proof {
                    lemma_utf8_len_take(chars, self.at.1 as int);
                }
                self.at = (self.at.0 + char_width(c), self.at.1 + 1);
            }
        } else if self.at.1 > char_index {
            while self.at.1 > char_index
                invariant
                    self.text == old(self).text,
                    self.chars@ == chars,
                    chars == self.text@,
                    n == chars.len(),
                    char_index <= self.at.1 <= start <= n,
                    start == old(self).at.1,
                    chars == old(self).text@,
                    start > char_index,
                    self.at.0 == utf8_len(chars.take(self.at.1 as int)),
                    backward_rest(chars, start, char_index as int, stop_at_newline)
                        == backward_rest(
                        chars,
                        self.at.1 as int,
                        char_index as int,
                        stop_at_newline,
                    ),
                decreases self.at.1,
            {
                let c = self.chars[self.at.1 - 1];
                if stop_at_newline && (c == '\n' || c == '\r') {
                    return Some(self.at.0);
                }
                proof {
                    lemma_utf8_len_take(chars, self.at.1 - 1);
                }
                self.at = ((self.at.0 - char_width(c)) as usize, (self.at.1 - 1) as usize);
            }
        }
        if self.at.1 == char_index {
            Some(self.at.0)
        } else {
            None
        }
    }
}

/// The character from index `from` on that starts at byte `byte`.
pub open spec fn char_of_byte(chars: Seq<char>, from: int, byte: int) -> Option<int>
    decreases chars.len() - from,
{
    if 0 <= from <= chars.len() && utf8_len(chars.take(from)) == byte {
        Some(from)
    } else if 0 <= from < chars.len() {
        char_of_byte(chars, from + 1, byte)
    } else {
        None
    }
}

/// Finds the character that starts at byte `byte`.
fn find_char(chars: &Vec<char>, byte: usize) -> (index: Option<usize>)
    ensures
        index is Some <==> char_of_byte(chars@, 0, byte as int) is Some,
        index is Some ==> index->0 == char_of_byte(chars@, 0, byte as int)->0 && index->0
            <= chars@.len(),
{
    let mut i: usize = 0;
    let mut at: usize = 0;
    assert(utf8_len(chars@.take(0)) == 0);
    loop
        invariant
            0 <= i <= chars@.len(),
            at == utf8_len(chars@.take(i as int)),
            at <= byte,
            char_of_byte(chars@, 0, byte as int) == char_of_byte(chars@, i as int, byte as int),
        decreases chars@.len() - i,
    {
        if at == byte {
            return Some(i);
        }
        if i >= chars.len() {
            return None;
        }
        proof {
            lemma_utf8_len_take(chars@, i as int);
        }
        let width = char_width(chars[i]);
        if width > byte - at {
            proof {
                lemma_no_char_beyond(chars@, i + 1, byte as int);
            }
            return None;
        }
        at = at + width;
        i += 1;
    }
}

/// No character starts at a byte that lies before the start of the
/// characters that are looked at.
proof fn lemma_no_char_beyond(chars: Seq<char>, from: int, byte: int)
    requires
        0 <= from <= chars.len(),
        utf8_len(chars.take(from)) > byte,
    ensures
        char_of_byte(chars, from, byte) is None,
    decreases chars.len() - from,
{
    if from < chars.len() {
        lemma_utf8_len_take(chars, from);
        lemma_no_char_beyond(chars, from + 1, byte);
    }
}

/// A place in a text: the byte it starts at, and its line and column.
#[derive(Clone, Copy, Debug, PartialEq, Eq, Structural)]
pub struct TextPosition {
    pub utf_8: usize,
    pub line: usize,
    pub column: usize,
}

/// `n + 1`, unless that is no machine integer.
pub open spec fn capped_next(n: usize) -> usize {
    if n < usize::MAX {
        (n + 1) as usize
    } else {
        n
    }
}

/// Line and column after the characters of `chars` from index `from` up
/// to index `to` were passed, starting from `at`. A line feed starts a new
/// line at the column `first`; any other character is one column.
pub open spec fn passed(
    chars: Seq<char>,
    from: int,
    to: int,
    at: (usize, usize),
    first: usize,
) -> (usize, usize)
    decreases to - from,
{
    if 0 <= from < to <= chars.len() {
        let before = passed(chars, from, to - 1, at, first);
        if chars[to - 1] == '\n' {
            (capped_next(before.0), first)
        } else {
            (before.0, capped_next(before.1))
        }
    } else {
        at
    }
}

/// A place in a text that keeps count of lines and columns while it is
/// moved forward.
#[derive(Debug)]
pub struct Position<'a> {
    line: usize,
    column: usize,
    content: StringCursor<'a>,
}

impl<'a> Position<'a> {
    /// The characters of the text.
    pub closed spec fn content(&self) -> Seq<char> {
        self.content.content()
    }

    /// The character that the position stands at.
    pub closed spec fn char_index(&self) -> nat {
        self.content.char_index()
    }

    /// Line and column of the position.
    pub closed spec fn line_column(&self) -> (usize, usize) {
        (self.line, self.column)
    }

    /// The start of `content`: line zero, column zero.
    pub fn new(content: &'a str) -> (position: Position<'a>)
        ensures
            position.content() == content@,
            position.char_index() == 0,
            position.line_column() == (0usize, 0usize),
    {
        Position { line: 0, column: 0, content: StringCursor::new(content) }
    }

    /// Moves towards the character `char_index`, as
    /// [`StringCursor::utf_8_offset`] does, and gives the place that is
    /// reached. Lines and columns are counted on the way forward; on the
    /// way back they stay as they are.
    pub fn seek(&mut self, char_index: usize, stop_at_newline: bool) -> (place: TextPosition)
        ensures
            final(self).content() == old(self).content(),
            final(self).char_index() == rest(
                old(self).content(),
                old(self).char_index() as int,
                char_index as int,
                stop_at_newline,
            ),
            place.utf_8 == utf8_len(final(self).content().take(final(self).char_index() as int)),
            (place.line, place.column) == final(self).line_column(),
            final(self).line_column() == passed(
                old(self).content(),
                old(self).char_index() as int,
                final(self).char_index() as int,
                old(self).line_column(),
                0,
            ),
    {
        let ghost chars = self.content.content();
        let ghost start_at = (self.line, self.column);
        let from = self.content.position();
        self.content.utf_8_offset(char_index, stop_at_newline);
        let end = self.content.byte_index();
        let to = self.content.position();
        let mut i: usize = from;
        while i < to
            invariant
                self.content.content() == chars,
                self.content.char_index() == to,
                chars == old(self).content(),
                from == old(self).char_index(),
                start_at == old(self).line_column(),
                from <= i,
                i <= to || i == from,
                to <= chars.len(),
                (self.line, self.column) == passed(chars, from as int, i as int, start_at, 0),
            decreases to - i,
        {
            let c = self.content.char_at(i);
            if c == '\n' {
                if self.line < usize::MAX {
                    self.line = self.line + 1;
                }
                self.column = 0;
            } else {
                if self.column < usize::MAX {
                    self.column = self.column + 1;
                }
            }
            i += 1;
        }
        TextPosition { utf_8: end, line: self.line, column: self.column }
    }

    /// The part of the text from byte `start` up to byte `end`. Both have
    /// to be bytes that a character starts at, or the end of the text.
    pub fn substring(&self, start: usize, end: usize) -> (part: &'a str)
        requires
            start <= end,
            char_of_byte(self.content(), 0, start as int) is Some,
            char_of_byte(self.content(), 0, end as int) is Some,
        ensures
            part@ == self.content().subrange(
                char_of_byte(self.content(), 0, start as int)->0,
                char_of_byte(self.content(), 0, end as int)->0,
            ),
    {
        let text = self.content.text();
        let chars = chars_of(text);
        let from = find_char(&chars, start).unwrap();
        let to = find_char(&chars, end).unwrap();
        proof {
            lemma_char_of_byte(chars@, 0, start as int);
            lemma_char_of_byte(chars@, 0, end as int);
            if to < from {
                lemma_utf8_len_prefix(chars@.take(from as int), to as int);
                assert(chars@.take(from as int).take(to as int) =~= chars@.take(to as int));
                lemma_prefix_grows(chars@, to as int, from as int);
            }
        }
        text.substring_char(from, to)
    }
}

/// The character that starts at a byte is the one whose prefix takes up
/// that many bytes.
pub proof fn lemma_char_of_byte(chars: Seq<char>, from: int, byte: int)
    requires
        char_of_byte(chars, from, byte) is Some,
    ensures
        from <= char_of_byte(chars, from, byte)->0 <= chars.len(),
        utf8_len(chars.take(char_of_byte(chars, from, byte)->0)) == byte,
    decreases chars.len() - from,
{
    if utf8_len(chars.take(from)) != byte {
        lemma_char_of_byte(chars, from + 1, byte);
    }
}

/// A strictly longer prefix of a text takes up more bytes.
pub proof fn lemma_prefix_grows(chars: Seq<char>, a: int, b: int)
    requires
        0 <= a < b <= chars.len(),
    ensures
        utf8_len(chars.take(a)) < utf8_len(chars.take(b)),
    decreases b - a,
{
    lemma_utf8_len_take(chars, b - 1);
    if a < b - 1 {
        lemma_prefix_grows(chars, a, b - 1);
    }
}

} // verus!
