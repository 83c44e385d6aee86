use vstd::prelude::*;
use vstd::string::StringExecFns;

use crate::text::string_from_chars;

verus! {

/// A zero-based (line, column) position in a character source.
#[derive(Clone, Copy, Debug, PartialEq, Eq, Structural)]
pub struct Location {
    pub line: usize,
    pub col: usize,
}

/// The character of the decimal digit `d`.
pub open spec fn digit_char(d: int) -> char {
    ('0' as int + d) as char
}

/// The decimal notation of `n`.
pub open spec fn decimal(n: nat) -> Seq<char>
    decreases n,
{
    if n < 10 {
        seq![digit_char(n as int)]
    } else {
        decimal(n / 10).push(digit_char((n % 10) as int))
    }
}

fn digit_char_of(d: usize) -> (r: char)
    requires
        d < 10,
    ensures
        r == digit_char(d as int),
{
    if d == 0 { '0' } else if d == 1 { '1' } else if d == 2 { '2' } else if d == 3 { '3' }
    else if d == 4 { '4' } else if d == 5 { '5' } else if d == 6 { '6' } else if d == 7 { '7' }
    else if d == 8 { '8' } else { '9' }
}

/// Appends the decimal notation of `n` to `out`.
pub fn push_decimal(n: usize, out: &mut Vec<char>)
    ensures
        final(out)@ == old(out)@ + decimal(n as nat),
    decreases n,
{
    let ghost before = out@;
    if n >= 10 {
        push_decimal(n / 10, out);
    }
    out.push(digit_char_of(n % 10));
    assert(out@ =~= before + decimal(n as nat));
}

/// How a location reads in an error message.
pub open spec fn location_text(l: Location) -> Seq<char> {
    "line: "@ + decimal(l.line as nat) + ", col: "@ + decimal(l.col as nat)
}

impl Location {
    pub fn new(line: usize, col: usize) -> (r: Location)
        ensures
            r.line == line,
            r.col == col,
    {
        Location { line, col }
    }

    pub fn line(&self) -> (r: usize)
        ensures
            r == self.line,
    {
        self.line
    }

    pub fn col(&self) -> (r: usize)
        ensures
            r == self.col,
    {
        self.col
    }

    /// The location as text: `line: L, col: C`.
    pub fn describe(&self) -> (r: String)
        ensures
            r@ == location_text(*self),
    {
        let mut line: Vec<char> = Vec::new();
        push_decimal(self.line, &mut line);
        let mut col: Vec<char> = Vec::new();
        push_decimal(self.col, &mut col);
        let l = string_from_chars(&line);
        let c = string_from_chars(&col);
        "line: ".to_owned().concat(l.as_str()).concat(", col: ").concat(c.as_str())
    }
}

/// The source locations where a token starts and where it ends (exclusive).
#[derive(Clone, Copy, Debug, PartialEq, Eq, Structural)]
pub struct Span {
    pub start: Location,
    pub end: Location,
}

} // verus!
