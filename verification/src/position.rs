//! Source positions: line, column and byte offset of a place in a document.

use vstd::prelude::*;

verus! {

/// The byte that ends a line.
pub const NEWLINE: u8 = 10;

/// Number of line ends among the first `upto` bytes of `s`.
pub open spec fn newlines_before(s: Seq<u8>, upto: int) -> int
    decreases upto,
{
    if upto <= 0 || upto > s.len() {
        0
    } else {
        newlines_before(s, upto - 1) + if s[upto - 1] == NEWLINE {
            1int
        } else {
            0int
        }
    }
}

/// Offset of the first byte of the line that holds `offset`.
pub open spec fn line_start(s: Seq<u8>, offset: int) -> int
    decreases offset,
{
    if offset <= 0 || offset > s.len() {
        0
    } else if s[offset - 1] == NEWLINE {
        offset
    } else {
        line_start(s, offset - 1)
    }
}

/// 1-based line of the byte at `offset`.
pub open spec fn line_at(s: Seq<u8>, offset: int) -> int {
    1 + newlines_before(s, offset)
}

/// 1-based column of the byte at `offset`, counted in bytes.
pub open spec fn column_at(s: Seq<u8>, offset: int) -> int {
    offset - line_start(s, offset) + 1
}

/// Mathematical form of a [`Position`].
pub struct Place {
    pub line: int,
    pub column: int,
    pub offset: int,
}

/// The place of the byte at `offset` in document `s`.
pub open spec fn place_at(s: Seq<u8>, offset: int) -> Place {
    Place { line: line_at(s, offset), column: column_at(s, offset), offset }
}

/// A place in a document: 1-based line, 1-based column, 0-based byte offset.
#[derive(Debug, Clone, Copy, PartialEq, Eq)]
pub struct Position {
    pub line: u32,
    pub column: usize,
    pub offset: usize,
}

impl View for Position {
    type V = Place;

    open spec fn view(&self) -> Place {
        Place { line: self.line as int, column: self.column as int, offset: self.offset as int }
    }
}

/// There are no more line ends before an offset than bytes.
pub proof fn lemma_newlines_bounds(s: Seq<u8>, upto: int)
    ensures
        0 <= newlines_before(s, upto),
        newlines_before(s, upto) <= upto || upto < 0,
    decreases upto,
{
    if upto <= 0 || upto > s.len() {
    } else {
        lemma_newlines_bounds(s, upto - 1);
    }
}

/// A line starts at or before every offset on it.
pub proof fn lemma_line_start_bounds(s: Seq<u8>, offset: int)
    ensures
        0 <= line_start(s, offset),
        line_start(s, offset) <= offset || offset < 0,
    decreases offset,
{
    if offset <= 0 || offset > s.len() {
    } else if s[offset - 1] == NEWLINE {
    } else {
        lemma_line_start_bounds(s, offset - 1);
    }
}

/// Lines never go back: a later offset lies on the same or a later line.
pub proof fn lemma_line_monotonic(s: Seq<u8>, a: int, b: int)
    requires
        0 <= a <= b <= s.len(),
    ensures
        line_at(s, a) <= line_at(s, b),
    decreases b - a,
{
    if a < b {
        lemma_line_monotonic(s, a, b - 1);
    }
}

/// A reading head that knows the line and the line start of its offset.
pub struct Tracker {
    pub offset: usize,
    pub line: u32,
    pub start: usize,
}

impl Tracker {
    /// The head agrees with document `s`.
    pub open spec fn tracks(&self, s: Seq<u8>) -> bool {
        &&& self.offset <= s.len()
        &&& s.len() < u32::MAX
        &&& self.line as int == line_at(s, self.offset as int)
        &&& self.start as int == line_start(s, self.offset as int)
    }

    /// A head at the first byte of a document.
    pub fn new(bytes: &[u8]) -> (t: Tracker)
        requires
            bytes@.len() < u32::MAX,
        ensures
            t.tracks(bytes@),
            t.offset == 0,
    {
        Tracker { offset: 0, line: 1, start: 0 }
    }

    /// Moves the head forward to `target`.
    pub fn advance(&mut self, bytes: &[u8], target: usize)
        requires
            old(self).tracks(bytes@),
            old(self).offset <= target <= bytes@.len(),
        ensures
            final(self).tracks(bytes@),
            final(self).offset == target,
    {
        let mut i: usize = self.offset;
        let mut line: u32 = self.line;
        let mut start: usize = self.start;
        while i < target
            invariant
                i <= target <= bytes@.len(),
                bytes@.len() < u32::MAX,
                line as int == line_at(bytes@, i as int),
                start as int == line_start(bytes@, i as int),
            decreases target - i,
        {
            proof {
                lemma_newlines_bounds(bytes@, i as int);
            }
            if bytes[i] == NEWLINE {
                line = line + 1;
                start = i + 1;
            }
            i = i + 1;
        }
        self.offset = i;
        self.line = line;
        self.start = start;
    }

    /// The position of the head.
    pub fn position(&self, bytes: &[u8]) -> (p: Position)
        requires
            self.tracks(bytes@),
        ensures
            p@ == place_at(bytes@, self.offset as int),
    {
        proof {
            lemma_line_start_bounds(bytes@, self.offset as int);
        }
        Position { line: self.line, column: self.offset - self.start + 1, offset: self.offset }
    }
}

} // verus!
