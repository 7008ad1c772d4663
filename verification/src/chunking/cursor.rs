//! A reading position in a text, with look-ahead that does not move it.
//!
//! Whoever reads with a cursor looks ahead as far as a decision needs, and
//! then either moves the cursor past what was recognised or leaves it where
//! it stands, so that what follows is read again as ordinary text.

use vstd::prelude::*;
use crate::chunking::sections::{rest_of_line, run_len};

verus! {

pub struct Cursor<'a> {
    chars: &'a [char],
    pos: usize,
}

impl<'a> Cursor<'a> {
    /// The text that the cursor reads.
    pub closed spec fn text(&self) -> Seq<char> {
        self.chars@
    }

    /// How many code points of the text lie behind the cursor.
    pub closed spec fn pos(&self) -> int {
        self.pos as int
    }

    /// The cursor stands inside its text, or at its end.
    pub open spec fn wf(&self) -> bool {
        0 <= self.pos() <= self.text().len()
    }

    /// A cursor at the beginning of `chars`.
    pub fn new(chars: &'a [char]) -> (cursor: Self)
        ensures
            cursor.wf(),
            cursor.text() == chars@,
            cursor.pos() == 0,
    {
        Cursor { chars, pos: 0 }
    }

    /// Where the cursor stands.
    pub fn position(&self) -> (pos: usize)
        ensures
            pos == self.pos(),
    {
        self.pos
    }

    /// How many code points lie ahead of the cursor.
    pub fn remaining(&self) -> (left: usize)
        requires
            self.wf(),
        ensures
            left == self.text().len() - self.pos(),
    {
        self.chars.len() - self.pos
    }

    /// The code point that stands `ahead` places after the cursor, if the
    /// text reaches that far. The cursor does not move.
    pub fn peek(&self, ahead: usize) -> (next: Option<char>)
        requires
            self.wf(),
        ensures
            next == if self.pos() + ahead < self.text().len() {
                Some(self.text()[self.pos() + ahead])
            } else {
                None
            },
    {
        if ahead < self.chars.len() - self.pos {
            Some(self.chars[self.pos + ahead])
        } else {
            None
        }
    }

    /// Moves the cursor over the next `n` code points.
    pub fn advance(&mut self, n: usize)
        requires
            old(self).wf(),
            old(self).pos() + n <= old(self).text().len(),
        ensures
            final(self).wf(),
            final(self).text() == old(self).text(),
            final(self).pos() == old(self).pos() + n,
    {
        assert(self.chars@.len() == self.chars.len());
        self.pos = self.pos + n;
    }

    /// How many times `symbol` stands in a row at the cursor, counted no
    /// further than `cap`. The cursor does not move.
    pub fn run_ahead(&self, symbol: char, cap: usize) -> (n: usize)
        requires
            self.wf(),
        ensures
            n == if run_len(self.text(), symbol, self.pos()) <= cap {
                run_len(self.text(), symbol, self.pos())
            } else {
                cap as nat
            },
            self.pos() + n <= self.text().len(),
    {
        let left: usize = self.chars.len() - self.pos;
        let mut n: usize = 0;
        while n < cap && n < left && self.chars[self.pos + n] == symbol
            invariant
                self.wf(),
                left == self.chars.len() - self.pos,
                n <= cap,
                n <= left,
                run_len(self.chars@, symbol, self.pos as int) == n + run_len(
                    self.chars@,
                    symbol,
                    self.pos + n,
                ),
            decreases left - n,
        {
            n += 1;
        }
        n
    }

    /// How many code points stand at the cursor before the next line break,
    /// or before the end of the text. The cursor does not move.
    pub fn line_ahead(&self) -> (n: usize)
        requires
            self.wf(),
        ensures
            n == rest_of_line(self.text(), self.pos()),
            self.pos() + n <= self.text().len(),
    {
        let left: usize = self.chars.len() - self.pos;
        let mut n: usize = 0;
        while n < left && self.chars[self.pos + n] != '\n'
            invariant
                self.wf(),
                left == self.chars.len() - self.pos,
                n <= left,
                rest_of_line(self.chars@, self.pos as int) == n + rest_of_line(
                    self.chars@,
                    self.pos + n,
                ),
            decreases left - n,
        {
            n += 1;
        }
        n
    }
}

} // verus!
