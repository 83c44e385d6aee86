use vstd::prelude::*;

use crate::location::Location;

verus! {

/// The (line, column) of the character at index `i` of `s`; for `i == s.len()`,
/// the position just past the end. Lines and columns count from zero; the
/// character after a `'\n'` starts a new line.
pub open spec fn loc_at(s: Seq<char>, i: nat) -> (nat, nat)
    decreases i,
{
    if i == 0 {
        (0, 0)
    } else {
        let p = loc_at(s, (i - 1) as nat);
        if s[i - 1] == '\n' {
            (p.0 + 1, 0)
        } else {
            (p.0, p.1 + 1)
        }
    }
}

pub proof fn lemma_loc_at_bounded(s: Seq<char>, i: nat)
    ensures
        loc_at(s, i).0 <= i,
        loc_at(s, i).1 <= i,
    decreases i,
{
    if i > 0 {
        lemma_loc_at_bounded(s, (i - 1) as nat);
    }
}

/// A character source that knows the location of the next character.
pub struct CharLocations {
    chars: Vec<char>,
    pos: usize,
    line: usize,
    col: usize,
}

impl CharLocations {
    /// The whole source.
    pub closed spec fn source(&self) -> Seq<char> {
        self.chars@
    }

    /// The number of characters consumed so far.
    pub closed spec fn position(&self) -> nat {
        self.pos as nat
    }

    pub closed spec fn wf(&self) -> bool {
        &&& self.pos <= self.chars.len()
        &&& (self.line as nat, self.col as nat) == loc_at(self.chars@, self.pos as nat)
    }

    pub proof fn lemma_position_bounded(&self)
        requires
            self.wf(),
        ensures
            self.position() <= self.source().len(),
    {
    }

    pub fn new(source: Vec<char>) -> (r: CharLocations)
        ensures
            r.wf(),
            r.source() == source@,
            r.position() == 0,
    {
        CharLocations { chars: source, pos: 0, line: 0, col: 0 }
    }

    /// The location that the next character occupies (or the one just past the end).
    pub fn peek_location(&self) -> (r: Location)
        requires
            self.wf(),
        ensures
            (r.line as nat, r.col as nat) == loc_at(self.source(), self.position()),
    {
        Location::new(self.line, self.col)
    }

    /// The next character, without consuming it.
    pub fn peek(&self) -> (r: Option<char>)
        requires
            self.wf(),
        ensures
            self.position() < self.source().len() ==> r == Some(self.source()[self.position() as int]),
            self.position() >= self.source().len() ==> r is None,
    {
        if self.pos < self.chars.len() {
            Some(self.chars[self.pos])
        } else {
            None
        }
    }

    /// Consumes and returns the next character.
    pub fn next(&mut self) -> (r: Option<char>)
        requires
            old(self).wf(),
        ensures
            final(self).wf(),
            final(self).source() == old(self).source(),
            old(self).position() < old(self).source().len() ==> r == Some(
                old(self).source()[old(self).position() as int],
            ) && final(self).position() == old(self).position() + 1,
            old(self).position() >= old(self).source().len() ==> r is None && final(self).position()
                == old(self).position(),
    {
        if self.pos >= self.chars.len() {
            return None;
        }
        let c = self.chars[self.pos];
        proof {
            lemma_loc_at_bounded(self.chars@, self.pos as nat);
        }
        if c == '\n' {
            self.line = self.line + 1;
            self.col = 0;
        } else {
            self.col = self.col + 1;
        }
        self.pos = self.pos + 1;
        Some(c)
    }
}

} // verus!
