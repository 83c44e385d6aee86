use vstd::prelude::*;

use crate::error::{Item, JQErr};
use crate::lexical::{
    all_hex, decodes, hex_val, hex_value, is_control, keyword_text, lemma_decodes_push, punct_char,
    simple_escape, unit_decodes, unit_len,
};
use crate::sanitized::Sanitized;
use crate::stream_context::{feed_model, initial_context, ContextView};
use crate::text::chars_of;
use crate::token::Token;

verus! {

/// The lower-case hexadecimal digit for `v` (0 to 15).
pub open spec fn hex_char(v: int) -> char {
    if v < 10 {
        ('0' as int + v) as char
    } else {
        ('a' as int + v - 10) as char
    }
}

/// How a character is written inside a JSON string literal.
pub open spec fn escape_char(c: char) -> Seq<char> {
    if c == '"' {
        seq!['\\', '"']
    } else if c == '\\' {
        seq!['\\', '\\']
    } else if c == '\n' {
        seq!['\\', 'n']
    } else if c == '\r' {
        seq!['\\', 'r']
    } else if c == '\t' {
        seq!['\\', 't']
    } else if c == '\u{8}' {
        seq!['\\', 'b']
    } else if c == '\u{c}' {
        seq!['\\', 'f']
    } else if is_control(c) {
        seq!['\\', 'u', '0', '0', hex_char(c as int / 16), hex_char(c as int % 16)]
    } else {
        seq![c]
    }
}

/// The body of a JSON string literal for the text `s`.
pub open spec fn escape(s: Seq<char>) -> Seq<char>
    decreases s.len(),
{
    if s.len() == 0 {
        Seq::empty()
    } else {
        escape(s.drop_last()) + escape_char(s.last())
    }
}

/// The compact JSON text of one token.
pub open spec fn compact_text(t: Token) -> Seq<char> {
    match t {
        Token::String(s) => seq!['"'] + escape(s@) + seq!['"'],
        Token::Number(n) => n@,
        Token::True | Token::False | Token::Null => keyword_text(t),
        _ => seq![punct_char(t)],
    }
}

proof fn lemma_escape_char_decodes(c: char)
    ensures
        escape_char(c).len() >= 1,
        unit_len(escape_char(c)) == escape_char(c).len(),
        unit_decodes(escape_char(c), c),
{
    let b = escape_char(c);
    if is_control(c) && c != '\n' && c != '\r' && c != '\t' && c != '\u{8}' && c != '\u{c}' {
        let v = c as int;
        assert(0 <= v < 32);
        let h = b.subrange(2, 6);
        assert(h =~= seq!['0', '0', hex_char(v / 16), hex_char(v % 16)]);
        let h1 = h.drop_last();
        let h2 = h1.drop_last();
        let h3 = h2.drop_last();
        let h4 = h3.drop_last();
        assert(h4 =~= Seq::<char>::empty());
        assert(h3 =~= seq!['0']);
        assert(h2 =~= seq!['0', '0']);
        assert(h1 =~= seq!['0', '0', hex_char(v / 16)]);
        assert(hex_value(h4) == 0);
        assert(hex_value(h3) == 0);
        assert(hex_value(h2) == 0);
        assert(hex_val(hex_char(v / 16)) == v / 16);
        assert(hex_val(hex_char(v % 16)) == v % 16);
        assert(hex_value(h1) == v / 16);
        assert(hex_value(h) == (v / 16) * 16 + v % 16);
        assert(hex_value(h) == v);
        assert(all_hex(h));
    }
}

/// The escaped text of a string decodes back to the string: rendering a
/// string token and reading it again gives the same text.
pub proof fn lemma_escape_round_trip(s: Seq<char>)
    ensures
        decodes(escape(s), s),
    decreases s.len(),
{
    if s.len() == 0 {
        assert(decodes(Seq::<char>::empty(), Seq::<char>::empty()));
    } else {
        lemma_escape_round_trip(s.drop_last());
        lemma_escape_char_decodes(s.last());
        lemma_decodes_push(escape(s.drop_last()), s.drop_last(), escape_char(s.last()), s.last());
        assert(s.drop_last().push(s.last()) =~= s);
    }
}

fn hex_char_of(v: u32) -> (r: char)
    requires
        v < 16,
    ensures
        r == hex_char(v as int),
{
    if v == 0 { '0' } else if v == 1 { '1' } else if v == 2 { '2' } else if v == 3 { '3' }
    else if v == 4 { '4' } else if v == 5 { '5' } else if v == 6 { '6' } else if v == 7 { '7' }
    else if v == 8 { '8' } else if v == 9 { '9' } else if v == 10 { 'a' } else if v == 11 { 'b' }
    else if v == 12 { 'c' } else if v == 13 { 'd' } else if v == 14 { 'e' } else { 'f' }
}

/// Appends the escaped form of `c` to `out`.
fn push_escaped(c: char, out: &mut Vec<char>)
    ensures
        final(out)@ == old(out)@ + escape_char(c),
{
    let ghost before = out@;
    if c == '"' {
        out.push('\\');
        out.push('"');
    } else if c == '\\' {
        out.push('\\');
        out.push('\\');
    } else if c == '\n' {
        out.push('\\');
        out.push('n');
    } else if c == '\r' {
        out.push('\\');
        out.push('r');
    } else if c == '\t' {
        out.push('\\');
        out.push('t');
    } else if c == '\u{8}' {
        out.push('\\');
        out.push('b');
    } else if c == '\u{c}' {
        out.push('\\');
        out.push('f');
    } else if c <= '\u{1f}' {
        let v = c as u32;
        out.push('\\');
        out.push('u');
        out.push('0');
        out.push('0');
        out.push(hex_char_of(v / 16));
        out.push(hex_char_of(v % 16));
    } else {
        out.push(c);
    }
    assert(out@ =~= before + escape_char(c));
}

/// Appends the compact JSON text of `t` to `out`.
pub fn push_compact(t: &Token, out: &mut Vec<char>)
    ensures
        final(out)@ == old(out)@ + compact_text(*t),
{
    let ghost before = out@;
    match t {
        Token::String(s) => {
            let cs = chars_of(s.as_str());
            out.push('"');
            let mut k: usize = 0;
            while k < cs.len()
                invariant
                    cs@ == s@,
                    k <= cs.len(),
                    out@ == before + seq!['"'] + escape(cs@.subrange(0, k as int)),
                decreases cs.len() - k,
            {
                push_escaped(cs[k], out);
                proof {
                    assert(cs@.subrange(0, k + 1).drop_last() =~= cs@.subrange(0, k as int));
                }
                k = k + 1;
            }
            out.push('"');
            assert(cs@.subrange(0, k as int) =~= cs@);
        },
        Token::Number(n) => {
            let cs = chars_of(n.as_str());
            let mut k: usize = 0;
            while k < cs.len()
                invariant
                    cs@ == n@,
                    k <= cs.len(),
                    out@ == before + cs@.subrange(0, k as int),
                decreases cs.len() - k,
            {
                out.push(cs[k]);
                k = k + 1;
                assert(out@ =~= before + cs@.subrange(0, k as int));
            }
            assert(cs@.subrange(0, k as int) =~= cs@);
        },
        Token::True => {
            out.push('t');
            out.push('r');
            out.push('u');
            out.push('e');
        },
        Token::False => {
            out.push('f');
            out.push('a');
            out.push('l');
            out.push('s');
            out.push('e');
        },
        Token::Null => {
            out.push('n');
            out.push('u');
            out.push('l');
            out.push('l');
        },
        Token::ObjectStart => out.push('{'),
        Token::ObjectEnd => out.push('}'),
        Token::ArrayStart => out.push('['),
        Token::ArrayEnd => out.push(']'),
        Token::Colon => out.push(':'),
        Token::Comma => out.push(','),
    }
    assert(out@ =~= before + compact_text(*t));
}

/// Renders a token stream as compact JSON text, one line per top-level value.
pub struct CompactChars {
    input: Sanitized,
}

impl CompactChars {
    pub closed spec fn context(&self) -> ContextView {
        self.input.view()
    }

    pub closed spec fn wf(&self) -> bool {
        self.input.wf()
    }

    pub fn new() -> (r: CompactChars)
        ensures
            r.wf(),
            r.context() == initial_context(),
    {
        CompactChars { input: Sanitized::new() }
    }

    /// Takes one pull of the upstream (`None`: it ended), appends the text of
    /// the token to `out` (with a newline when a top-level value completes),
    /// and returns the error that the stream carries, if any.
    pub fn feed(&mut self, item: Option<Item>, out: &mut Vec<char>) -> (r: Option<JQErr>)
        requires
            old(self).wf(),
        ensures
            final(self).wf(),
            ({
                let (q, o) = feed_model(old(self).context(), item);
                &&& final(self).context() == q
                &&& match o {
                    None => final(out)@ == old(out)@ && r is None,
                    Some(Err(e)) => final(out)@ == old(out)@ && r == Some(e),
                    Some(Ok(t)) => r is None && final(out)@ == old(out)@ + compact_text(t) + (if q.path.len()
                        == 0 {
                        seq!['\n']
                    } else {
                        Seq::<char>::empty()
                    }),
                }
            }),
    {
        match self.input.feed(item) {
            None => None,
            Some(Err(e)) => Some(e),
            Some(Ok(t)) => {
                push_compact(&t, out);
                let ghost mid = out@;
                if self.input.get_path().len() == 0 {
                    out.push('\n');
                }
                assert(out@ =~= old(out)@ + compact_text(t) + (if self.input.view().path.len() == 0 {
                    seq!['\n']
                } else {
                    Seq::<char>::empty()
                }));
                None
            },
        }
    }
}

} // verus!
