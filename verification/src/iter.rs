//! Wrapper around a character sequence that keeps track of the current
//! line and column position to produce proper diagnostics.

use vstd::prelude::*;

use crate::chars::is_vertical_ws;
use crate::chars::is_vws;

verus! {

/// The (line, column) cursor that belongs to position `i` of the text
/// `s`, both counting from 1.
///
/// The column resets to 1 and the line grows by exactly one per vertical
/// whitespace unit consumed; a CRLF pair counts as a single unit.
pub open spec fn cursor_at(s: Seq<char>, i: int) -> (int, int)
    decreases i,
{
    if i <= 0 {
        (1, 1)
    } else {
        let prev = cursor_at(s, i - 1);
        let c = s[i - 1];
        if is_vws(c) {
            if c == '\n' && i >= 2 && s[i - 2] == '\r' {
                prev
            } else {
                (prev.0 + 1, 1)
            }
        } else {
            (prev.0, prev.1 + 1)
        }
    }
}

/// Line and column stay at least 1 and together grow by at most one per
/// consumed character.
pub proof fn lemma_cursor_bounds(s: Seq<char>, i: int)
    requires
        0 <= i,
    ensures
        1 <= cursor_at(s, i).0,
        1 <= cursor_at(s, i).1,
        cursor_at(s, i).0 + cursor_at(s, i).1 <= i + 2,
    decreases i,
{
    if i > 0 {
        lemma_cursor_bounds(s, i - 1);
    }
}

/// Wrapper around a character sequence that keeps track of the current
/// line and column position.
pub struct Iter {
    /// The source text and how far into it the iterator has read.
    pub src: Vec<char>,
    /// Index of the next character to be produced.
    pub pos: usize,
    /// Line of the next character, counting from 1.
    pub line: usize,
    /// Column of the next character, counting from 1.
    pub col: usize,
}

impl Iter {
    /// The whole text this iterator walks.
    pub open spec fn text(&self) -> Seq<char> {
        self.src@
    }

    /// The index of the next character.
    pub open spec fn at(&self) -> int {
        self.pos as int
    }

    /// The cursor agrees with the consumed prefix of the text.
    pub open spec fn wf(&self) -> bool {
        &&& self.pos <= self.src@.len()
        &&& self.src@.len() < usize::MAX
        &&& (self.line as int, self.col as int) == cursor_at(self.src@, self.pos as int)
    }

    /// Starts reading `src` at line 1, column 1.
    ///
    /// The length bound is a machine limit: the cursor must stay
    /// representable while every character advances it.
    pub fn new(src: Vec<char>) -> (r: Self)
        requires
            src@.len() < usize::MAX,
        ensures
            r.wf(),
            r.text() == src@,
            r.at() == 0,
            r.line == 1,
            r.col == 1,
    {
        Iter { src, pos: 0, line: 1, col: 1 }
    }

    /// Returns the next character without consuming it.
    pub fn peek(&self) -> (r: Option<char>)
        ensures
            r == (if self.at() < self.text().len() {
                Some(self.text()[self.at()])
            } else {
                None::<char>
            }),
    {
        if self.pos < self.src.len() {
            Some(self.src[self.pos])
        } else {
            None
        }
    }

    /// Consumes and returns the next character, updating the cursor.
    pub fn next(&mut self) -> (r: Option<char>)
        requires
            old(self).wf(),
        ensures
            final(self).wf(),
            final(self).text() == old(self).text(),
            old(self).at() < old(self).text().len() ==> {
                &&& r == Some(old(self).text()[old(self).at()])
                &&& final(self).at() == old(self).at() + 1
            },
            old(self).at() >= old(self).text().len() ==> {
                &&& r == None::<char>
                &&& *final(self) == *old(self)
            },
    {
        if self.pos < self.src.len() {
            let c = self.src[self.pos];
            self.pos += 1;
            proof {
                lemma_cursor_bounds(self.src@, self.pos - 1 as int);
            }
            if is_vertical_ws(&c) {
                if c == '\n' && self.pos >= 2 && self.src[self.pos - 2] == '\r' {
                    // the second half of a CRLF pair stays in the same
                    // vertical whitespace unit
                } else {
                    self.line += 1;
                    self.col = 1;
                }
            } else {
                self.col += 1;
            }
            Some(c)
        } else {
            None
        }
    }
}

} // verus!
