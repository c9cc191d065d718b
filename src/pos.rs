//! Positions and ranges in source text.

use vstd::prelude::*;
use crate::num::{push_int, int_text};
use crate::text::push_char;

verus! {

/// A place in source text: character offset, line and column, each counted
/// from zero; the start of a file is one place before its first character.
#[derive(PartialEq, Eq, Structural, Clone, Copy, Debug)]
pub struct Pos {
    pub src_index: i64,
    pub line_index: i64,
    pub col_index: i64,
}

impl Pos {
    pub fn new(src_index: i64, line_index: i64, col_index: i64) -> (r: Pos)
        ensures
            r == (Pos { src_index, line_index, col_index }),
    {
        Pos { src_index, line_index, col_index }
    }

    /// The place before the first character of a file.
    pub fn start() -> (r: Pos)
        ensures
            r.src_index == -1,
            r.line_index == 0,
            r.col_index == -1,
    {
        Pos::new(-1, 0, -1)
    }

    /// Moves one character on.
    pub fn advance(&mut self)
        requires
            old(self).src_index < i64::MAX,
            old(self).col_index < i64::MAX,
        ensures
            final(self).src_index == old(self).src_index + 1,
            final(self).col_index == old(self).col_index + 1,
            final(self).line_index == old(self).line_index,
    {
        self.src_index = self.src_index + 1;
        self.col_index = self.col_index + 1;
    }

    /// Moves to the start of the next line.
    pub fn line(&mut self)
        requires
            old(self).line_index < i64::MAX,
        ensures
            final(self).src_index == old(self).src_index,
            final(self).col_index == -1,
            final(self).line_index == old(self).line_index + 1,
    {
        self.col_index = -1;
        self.line_index = self.line_index + 1;
    }
}

/// A stretch of source text from `start` to `end`.
#[derive(PartialEq, Eq, Structural, Clone, Copy, Debug)]
pub struct Range {
    pub start: Pos,
    pub end: Pos,
}

impl Range {
    pub fn new(start: Pos, end: Pos) -> (r: Range)
        ensures
            r == (Range { start, end }),
    {
        Range { start, end }
    }

    /// Moves the end one character on.
    pub fn end_advance(&mut self)
        requires
            old(self).end.src_index < i64::MAX,
            old(self).end.col_index < i64::MAX,
        ensures
            final(self).start == old(self).start,
            final(self).end.src_index == old(self).end.src_index + 1,
            final(self).end.col_index == old(self).end.col_index + 1,
            final(self).end.line_index == old(self).end.line_index,
    {
        self.end.advance();
    }

    /// Moves the end to the start of the next line.
    pub fn end_line(&mut self)
        requires
            old(self).end.line_index < i64::MAX,
        ensures
            final(self).start == old(self).start,
            final(self).end.src_index == old(self).end.src_index,
            final(self).end.col_index == -1,
            final(self).end.line_index == old(self).end.line_index + 1,
    {
        self.end.line();
    }

    /// Moves the start up to the end.
    pub fn catchup(&mut self)
        ensures
            final(self).start == old(self).end,
            final(self).end == old(self).end,
    {
        self.start = self.end;
    }
}

/// A place as text: `line:column`, both counted from one.
pub open spec fn pos_text(p: Pos) -> Seq<char> {
    int_text(p.line_index + 1).push(':') + int_text(p.col_index + 1)
}

/// A range as text: one place where it is empty, else `start-end`.
pub open spec fn range_text(r: Range) -> Seq<char> {
    if r.start == r.end {
        pos_text(r.end)
    } else {
        pos_text(r.start).push('-') + pos_text(r.end)
    }
}

impl Pos {
    pub fn text(&self) -> (r: String)
        ensures
            r@ == pos_text(*self),
    {
        let mut s = String::new();
        push_int(&mut s, self.line_index as i128 + 1);
        push_char(&mut s, ':');
        push_int(&mut s, self.col_index as i128 + 1);
        assert(s@ =~= pos_text(*self));
        s
    }
}

impl Range {
    pub fn text(&self) -> (r: String)
        ensures
            r@ == range_text(*self),
    {
        if self.start == self.end {
            self.end.text()
        } else {
            let mut s = self.start.text();
            push_char(&mut s, '-');
            let e = self.end.text();
            crate::text::push_str(&mut s, e.as_str());
            assert(s@ =~= range_text(*self));
            s
        }
    }
}

} // verus!
