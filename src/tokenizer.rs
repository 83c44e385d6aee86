use vstd::prelude::*;

use crate::char_locations::{loc_at, CharLocations};
use crate::error::JQErr;
use crate::lexical::{
    all_digits, all_hex, decodes, extends_number, hex_val, hex_value, is_digit, is_hex, is_int,
    is_number, is_punct, is_ws, keyword_at, keyword_text, lemma_char_range, lemma_decodes_push, lexes, number_parts,
    punct_char, punct_token, simple_escape, skip_ws, string_at, string_lexeme, unit_decodes,
    unit_len, lemma_unit_ok, is_control, mismatch_from, keyword_of, starts_lexeme, digit_run, int_start, lemma_number_scan, number_at, number_lexeme,
};
use crate::location::{Location, Span};
use crate::text::{char_from_code, string_from_chars};
use crate::token::Token;
use crate::round_trip::lemma_decodes_align;

verus! {

/// A token with the span of source text that it came from, or a lexical error.
pub type Lexed = Result<(Token, Span), JQErr>;

/// The location `l` is the pair `p`.
pub open spec fn loc_is(l: Location, p: (nat, nat)) -> bool {
    l.line as nat == p.0 && l.col as nat == p.1
}

/// An error that the tokenizer reports on characters.
pub open spec fn is_lexical_error(e: JQErr) -> bool {
    ||| e is UnexpectedEOF
    ||| e is UnexpectedCharacter
    ||| e is IllegalLeading0
    ||| e is UnescapedEscapeCharacter
    ||| e is InvalidEscapeSequence
}

fn is_digit_char(c: char) -> (r: bool)
    ensures
        r == is_digit(c),
{
    '0' <= c && c <= '9'
}

fn hex_digit(c: char) -> (r: Option<u32>)
    ensures
        r is Some <==> is_hex(c),
        r matches Some(v) ==> v as int == hex_val(c) && v < 16,
{
    if '0' <= c && c <= '9' {
        Some((c as u32) - ('0' as u32))
    } else if 'a' <= c && c <= 'f' {
        Some((c as u32) - ('a' as u32) + 10)
    } else if 'A' <= c && c <= 'F' {
        Some((c as u32) - ('A' as u32) + 10)
    } else {
        None
    }
}

fn escape_of(c: char) -> (r: Option<char>)
    ensures
        r == simple_escape(c),
{
    if c == '"' {
        Some('"')
    } else if c == '\\' {
        Some('\\')
    } else if c == '/' {
        Some('/')
    } else if c == 'b' {
        Some('\u{8}')
    } else if c == 'f' {
        Some('\u{c}')
    } else if c == 'n' {
        Some('\n')
    } else if c == 'r' {
        Some('\r')
    } else if c == 't' {
        Some('\t')
    } else {
        None
    }
}

/// Where the scan of a string body stands (`pos0`, after the body `text`),
/// relative to a unit boundary `p` of the same body: the scan has not passed
/// `p`, and before `p` the unit at `pos0` is well formed.
proof fn lemma_string_stop(s: Seq<char>, q: int, pos0: int, text: Seq<char>, p: int, v: Seq<char>)
    requires
        0 <= q,
        q + 1 <= pos0 <= s.len(),
        q + 1 <= p < s.len(),
        decodes(s.subrange(q + 1, pos0), text),
        decodes(s.subrange(q + 1, p), v),
        is_control(s[p]),
    ensures
        p >= pos0,
        p > pos0 ==> {
            &&& s[pos0] != '"'
            &&& !is_control(s[pos0])
            &&& s[pos0] == '\\' ==> pos0 + 1 < p
            &&& s[pos0] == '\\' && s[pos0 + 1] == 'u' ==> pos0 + 6 <= p && all_hex(s.subrange(pos0 + 2, pos0 + 6))
                && !(0xD800 <= hex_value(s.subrange(pos0 + 2, pos0 + 6)) <= 0xDFFF) && hex_value(
                s.subrange(pos0 + 2, pos0 + 6),
            ) <= 0x10FFFF
            &&& s[pos0] == '\\' && s[pos0 + 1] != 'u' ==> simple_escape(s[pos0 + 1]) is Some
        },
{
    let r1 = s.subrange(q + 1, pos0);
    let r2 = s.subrange(q + 1, p);
    if p < pos0 {
        assert(r2 =~= r1.subrange(0, r2.len() as int));
        lemma_decodes_align(r2, v, r1, text);
        let rest = r1.subrange(r2.len() as int, r1.len() as int);
        assert(rest[0] == s[p]);
        lemma_unit_ok(rest, text.subrange(v.len() as int, text.len() as int));
    } else if p > pos0 {
        assert(r1 =~= r2.subrange(0, r1.len() as int));
        lemma_decodes_align(r1, text, r2, v);
        let rest = r2.subrange(r1.len() as int, r2.len() as int);
        assert(rest =~= s.subrange(pos0, p));
        let w = v.subrange(text.len() as int, v.len() as int);
        lemma_unit_ok(rest, w);
        assert(rest[0] == s[pos0]);
        if s[pos0] == '\\' {
            assert(rest[1] == s[pos0 + 1]);
            if s[pos0 + 1] == 'u' {
                assert(rest.subrange(2, 6) =~= s.subrange(pos0 + 2, pos0 + 6));
                lemma_char_range(w[0]);
            }
        }
    }
}

/// Splits a character source into JSON tokens. After its first error or its
/// end it yields nothing more.
pub struct Tokenizer {
    chars: CharLocations,
    done: bool,
}

impl Tokenizer {
    pub closed spec fn source(&self) -> Seq<char> {
        self.chars.source()
    }

    /// The number of characters consumed so far.
    pub closed spec fn position(&self) -> nat {
        self.chars.position()
    }

    pub closed spec fn is_done(&self) -> bool {
        self.done
    }

    pub closed spec fn wf(&self) -> bool {
        self.chars.wf()
    }

    pub proof fn lemma_position_bounded(&self)
        requires
            self.wf(),
        ensures
            self.position() <= self.source().len(),
    {
        self.chars.lemma_position_bounded();
    }

    pub fn new(source: Vec<char>) -> (r: Tokenizer)
        ensures
            r.wf(),
            r.source() == source@,
            r.position() == 0,
            !r.is_done(),
    {
        Tokenizer { chars: CharLocations::new(source), done: false }
    }

    fn fail(&mut self, e: JQErr) -> (r: Option<Lexed>)
        ensures
            final(self).is_done(),
            final(self).chars == old(self).chars,
            r == Some(Err::<(Token, Span), JQErr>(e)),
    {
        self.done = true;
        Some(Err(e))
    }

    fn emit(&self, t: Token, start: Location) -> (r: Option<Lexed>)
        requires
            self.wf(),
        ensures
            r matches Some(Ok((t2, sp))) && t2 == t && sp.start == start && loc_is(
                sp.end,
                loc_at(self.source(), self.position()),
            ),
    {
        let end = self.chars.peek_location();
        Some(Ok((t, Span { start, end })))
    }

    /// Consumes the next character if it is `e`; otherwise reports the
    /// location of the character found (or of the end).
    fn expect(&mut self, e: char) -> (r: Result<(), Location>)
        requires
            old(self).wf(),
        ensures
            final(self).wf(),
            final(self).source() == old(self).source(),
            final(self).done == old(self).done,
            final(self).position() >= old(self).position(),
            r is Ok ==> final(self).position() == old(self).position() + 1 && old(self).source()[old(
                self,
            ).position() as int] == e,
            r is Err ==> old(self).position() >= old(self).source().len() || old(self).source()[old(
                self,
            ).position() as int] != e,
            r matches Err(l) ==> loc_is(l, loc_at(old(self).source(), old(self).position())),
    {
        let loc = self.chars.peek_location();
        match self.chars.next() {
            Some(c) => {
                if c == e {
                    Ok(())
                } else {
                    Err(loc)
                }
            },
            None => Err(loc),
        }
    }

    /// Reads four hexadecimal digits.
    fn read_hex4(&mut self) -> (r: Result<u32, Location>)
        requires
            old(self).wf(),
        ensures
            final(self).wf(),
            final(self).source() == old(self).source(),
            final(self).done == old(self).done,
            final(self).position() >= old(self).position(),
            r matches Ok(code) ==> {
                let s = old(self).source();
                let p = old(self).position() as int;
                &&& final(self).position() == p + 4
                &&& all_hex(s.subrange(p, p + 4))
                &&& code as int == hex_value(s.subrange(p, p + 4))
            },
            r is Err ==> !(old(self).position() + 4 <= old(self).source().len() && all_hex(
                old(self).source().subrange(old(self).position() as int, old(self).position() + 4int),
            )),
    {
        let ghost s = self.source();
        let ghost p = self.position() as int;
        let mut code: u32 = 0;
        let mut k: usize = 0;
        proof {
            self.lemma_position_bounded();
            assert(s.subrange(p, p) =~= Seq::<char>::empty());
        }
        while k < 4
            invariant
                s == old(self).source(),
                p == old(self).position(),
                self.wf(),
                self.source() == s,
                self.done == old(self).done,
                k <= 4,
                self.position() == p + k,
                all_hex(s.subrange(p, p + k)),
                code as int == hex_value(s.subrange(p, p + k)),
                (code as int) < (if k == 0 {
                    1int
                } else if k == 1 {
                    16int
                } else if k == 2 {
                    256int
                } else if k == 3 {
                    4096int
                } else {
                    65536int
                }),
            decreases 4 - k,
        {
            let loc = self.chars.peek_location();
            let h = match self.chars.next() {
                Some(h) => h,
                None => return Err(loc),
            };
            let v = match hex_digit(h) {
                Some(v) => v,
                None => {
                    proof {
                        if p + 4 <= s.len() {
                            assert(s.subrange(p, p + 4)[k as int] == h);
                        }
                    }
                    return Err(loc);
                },
            };
            proof {
                let r = s.subrange(p, p + k + 1);
                assert(r.drop_last() =~= s.subrange(p, p + k));
                assert(r.last() == h);
                assert forall|x: int| 0 <= x < r.len() implies is_hex(#[trigger] r[x]) by {
                    if x < k {
                        assert(r[x] == s.subrange(p, p + k)[x]);
                    }
                }
            }
            code = code * 16 + v;
            k = k + 1;
        }
        Ok(code)
    }

    /// Reads the rest of a string literal whose opening quote was just consumed.
    fn lex_string(&mut self, start: Location) -> (r: Option<Lexed>)
        requires
            old(self).wf(),
            !old(self).done,
            old(self).position() >= 1,
            old(self).source()[old(self).position() - 1] == '"',
        ensures
            final(self).wf(),
            final(self).source() == old(self).source(),
            final(self).position() >= old(self).position(),
            r is Some,
            r matches Some(Ok((t, sp))) ==> {
                &&& !final(self).done
                &&& lexes(old(self).source(), old(self).position() - 1, final(self).position() as int, t)
                &&& sp.start == start
                &&& loc_is(sp.end, loc_at(old(self).source(), final(self).position()))
            },
            r matches Some(Err(e)) ==> final(self).done && is_lexical_error(e),
            string_at(old(self).source(), old(self).position() - 1) ==> (r matches Some(Ok(_))),
            r matches Some(Ok((t, _))) ==> t is String,
            forall|p: int, v: Seq<char>|
                #![trigger decodes(old(self).source().subrange(old(self).position() as int, p), v)]
                old(self).position() <= p < old(self).source().len() && decodes(
                    old(self).source().subrange(old(self).position() as int, p),
                    v,
                ) && is_control(old(self).source()[p]) ==> (r matches Some(
                    Err(JQErr::UnescapedEscapeCharacter(l)),
                ) && loc_is(l, loc_at(old(self).source(), p as nat))),
    {
        let ghost s = self.source();
        let ghost q = self.position() - 1;
        let ghost owed = string_at(s, q);
        let ghost close: int = 0;
        let ghost w: Seq<char> = Seq::empty();
        proof {
            if owed {
                let (e0, v0) = choose|e0: int, v0: Seq<char>| string_lexeme(s, q, e0, v0);
                close = e0;
                w = v0;
            }
        }
        let mut text: Vec<char> = Vec::new();
        proof {
            self.lemma_position_bounded();
            assert(s.subrange(q + 1, q + 1) =~= Seq::<char>::empty());
        }
        loop
            invariant
                s == old(self).source(),
                q == old(self).position() - 1,
                q >= 0,
                self.wf(),
                self.source() == s,
                !self.done,
                q + 1 <= self.position() <= s.len(),
                s[q] == '"',
                decodes(s.subrange(q + 1, self.position() as int), text@),
                owed == string_at(s, q),
                owed ==> self.position() <= close - 1 && close <= s.len() && s[close - 1] == '"'
                    && decodes(s.subrange(self.position() as int, close - 1), w),
            decreases s.len() - self.position(),
        {
            let ghost pos0 = self.position() as int;
            let ghost raw = s.subrange(pos0, close - 1);
            let loc = self.chars.peek_location();
            let c = match self.chars.next() {
                Some(c) => c,
                None => {
                proof {
                        assert forall|p: int, v: Seq<char>|
                            #![trigger decodes(s.subrange(q + 1, p), v)]
                            q + 1 <= p < s.len() && decodes(s.subrange(q + 1, p), v) && is_control(s[p]) implies false by {
                            lemma_string_stop(s, q, pos0, text@, p, v);
                        }
                    }
                    return self.fail(JQErr::UnexpectedEOF);
                },
            };
            proof {
                if owed && c != '"' {
                    assert(pos0 != close - 1);
                    assert(raw.len() > 0 && raw[0] == c);
                    assert(unit_len(raw) <= raw.len());
                    assert(unit_decodes(raw.subrange(0, unit_len(raw)), w[0]));
                    assert(raw.subrange(0, unit_len(raw))[0] == c);
                }
            }
            if c == '"' {
                assert(s.subrange(q + 1, self.position() - 1) == s.subrange(q + 1, pos0));
                let v = string_from_chars(&text);
                proof {
                    self.lemma_position_bounded();
                    assert(s[pos0] == '"');
                }
                proof {
                    assert(s[pos0] == '"');
                    assert forall|p: int, v: Seq<char>|
                        #![trigger decodes(s.subrange(q + 1, p), v)]
                        q + 1 <= p < s.len() && decodes(s.subrange(q + 1, p), v) && is_control(s[p]) implies false by {
                        lemma_string_stop(s, q, pos0, text@, p, v);
                    }
                }
                return self.emit(Token::String(v), start);
            } else if c == '\\' {
                let eloc = self.chars.peek_location();
                let esc = match self.chars.next() {
                    Some(esc) => esc,
                    None => {
                proof {
                            assert forall|p: int, v: Seq<char>|
                                #![trigger decodes(s.subrange(q + 1, p), v)]
                                q + 1 <= p < s.len() && decodes(s.subrange(q + 1, p), v) && is_control(s[p]) implies false by {
                                lemma_string_stop(s, q, pos0, text@, p, v);
                            }
                        }
                        return self.fail(JQErr::UnexpectedEOF);
                    },
                };
                proof {
                    if owed {
                        assert(raw[1] == esc);
                    }
                }
                if esc == 'u' {
                    let code = match self.read_hex4() {
                        Ok(code) => code,
                        Err(l) => {
                            proof {
                                if owed {
                                    assert(raw.subrange(0, 6).subrange(2, 6) =~= s.subrange(pos0 + 2, pos0 + 6));
                                }
                            }
                            proof {
                                assert forall|p: int, v: Seq<char>|
                                    #![trigger decodes(s.subrange(q + 1, p), v)]
                                    q + 1 <= p < s.len() && decodes(s.subrange(q + 1, p), v) && is_control(s[p]) implies false by {
                                    lemma_string_stop(s, q, pos0, text@, p, v);
                                }
                            }
                            return self.fail(JQErr::UnexpectedCharacter(l));
                        },
                    };
                    proof {
                        if owed {
                            assert(raw.subrange(0, 6).subrange(2, 6) =~= s.subrange(pos0 + 2, pos0 + 6));
                        }
                    }
                    match char_from_code(code) {
                        Some(ch) => {
                            proof {
                                self.lemma_position_bounded();
                                let b = s.subrange(pos0, pos0 + 6);
                                assert(b.subrange(2, 6) =~= s.subrange(pos0 + 2, pos0 + 6));
                                assert(b[0] == '\\' && b[1] == 'u');
                                lemma_decodes_push(s.subrange(q + 1, pos0), text@, b, ch);
                                assert(s.subrange(q + 1, pos0) + b =~= s.subrange(
                                    q + 1,
                                    self.position() as int,
                                ));
                                if owed {
                                    assert(raw.subrange(6, raw.len() as int) =~= s.subrange(
                                        pos0 + 6,
                                        close - 1,
                                    ));
                                    w = w.drop_first();
                                }
                            }
                            text.push(ch);
                        },
                        None => {
                            proof {
                                if owed {
                                    assert(unit_len(raw) == 6);
                                    let u = raw.subrange(0, 6);
                                    assert(u.subrange(2, 6) =~= s.subrange(pos0 + 2, pos0 + 6));
                                    assert(unit_decodes(u, w[0]));
                                    assert(w[0] as int == code as int);
                                    lemma_char_range(w[0]);
                                }
                            }
                            proof {
                                assert forall|p: int, v: Seq<char>|
                                    #![trigger decodes(s.subrange(q + 1, p), v)]
                                    q + 1 <= p < s.len() && decodes(s.subrange(q + 1, p), v) && is_control(s[p]) implies false by {
                                    lemma_string_stop(s, q, pos0, text@, p, v);
                                }
                            }
                            return self.fail(JQErr::InvalidEscapeSequence(eloc));
                        },
                    }
                } else {
                    match escape_of(esc) {
                        Some(d) => {
                            proof {
                                let b = s.subrange(pos0, pos0 + 2);
                                assert(b[0] == '\\' && b[1] == esc);
                                lemma_decodes_push(s.subrange(q + 1, pos0), text@, b, d);
                                assert(s.subrange(q + 1, pos0) + b =~= s.subrange(
                                    q + 1,
                                    self.position() as int,
                                ));
                                if owed {
                                    assert(raw.subrange(2, raw.len() as int) =~= s.subrange(
                                        pos0 + 2,
                                        close - 1,
                                    ));
                                    w = w.drop_first();
                                }
                            }
                            text.push(d);
                        },
                        None => {
                            proof {
                                if owed {
                                    assert(unit_len(raw) == 2);
                                    assert(raw.subrange(0, 2)[1] == esc);
                                }
                            }
                            proof {
                                assert forall|p: int, v: Seq<char>|
                                    #![trigger decodes(s.subrange(q + 1, p), v)]
                                    q + 1 <= p < s.len() && decodes(s.subrange(q + 1, p), v) && is_control(s[p]) implies false by {
                                    lemma_string_stop(s, q, pos0, text@, p, v);
                                }
                            }
                            if esc <= '\u{1f}' {
                                return self.fail(JQErr::UnescapedEscapeCharacter(eloc));
                            } else {
                                return self.fail(JQErr::InvalidEscapeSequence(eloc));
                            }
                        },
                    }
                }
            } else if c <= '\u{1f}' {
                proof {
                    assert forall|p: int, v: Seq<char>|
                        #![trigger decodes(s.subrange(q + 1, p), v)]
                        q + 1 <= p < s.len() && decodes(s.subrange(q + 1, p), v) && is_control(s[p]) implies p
                        == pos0 by {
                        lemma_string_stop(s, q, pos0, text@, p, v);
                    }
                }
                return self.fail(JQErr::UnescapedEscapeCharacter(loc));
            } else {
                proof {
                    let b = s.subrange(pos0, pos0 + 1);
                    assert(b[0] == c);
                    lemma_decodes_push(s.subrange(q + 1, pos0), text@, b, c);
                    assert(s.subrange(q + 1, pos0) + b =~= s.subrange(q + 1, self.position() as int));
                    if owed {
                        assert(raw.subrange(1, raw.len() as int) =~= s.subrange(pos0 + 1, close - 1));
                        w = w.drop_first();
                    }
                }
                text.push(c);
            }
        }
    }

    /// Consumes more digits while they come; `text` gets them.
    fn digits(&mut self, text: &mut Vec<char>)
        requires
            old(self).wf(),
            old(text)@ == old(self).source().subrange(
                old(self).position() - old(text)@.len(),
                old(self).position() as int,
            ),
            old(text)@.len() <= old(self).position(),
        ensures
            final(self).wf(),
            final(self).source() == old(self).source(),
            final(self).done == old(self).done,
            final(self).position() >= old(self).position(),
            final(text)@.len() == old(text)@.len() + (final(self).position() - old(self).position()),
            final(text)@ == final(self).source().subrange(
                final(self).position() - final(text)@.len(),
                final(self).position() as int,
            ),
            final(text)@.subrange(0, old(text)@.len() as int) == old(text)@,
            all_digits(final(text)@.subrange(old(text)@.len() as int, final(text)@.len() as int)),
            final(self).position() == final(self).source().len() || !is_digit(
                final(self).source()[final(self).position() as int],
            ),
    {
        let ghost s = self.source();
        let ghost t0 = text@;
        let ghost pos0 = self.position();
        loop
            invariant
                s == old(self).source(),
                t0 == old(text)@,
                pos0 == old(self).position(),
                self.wf(),
                self.source() == s,
                self.done == old(self).done,
                self.position() >= pos0,
                text@.len() == t0.len() + (self.position() - pos0),
                text@.len() <= self.position(),
                text@ == s.subrange(self.position() - text@.len(), self.position() as int),
                text@.subrange(0, t0.len() as int) == t0,
                all_digits(text@.subrange(t0.len() as int, text@.len() as int)),
            decreases s.len() - self.position(),
        {
            proof {
                self.lemma_position_bounded();
            }
            match self.chars.peek() {
                Some(c) => {
                    if is_digit_char(c) {
                        self.chars.next();
                        let ghost before = text@;
                        text.push(c);
                        proof {
                            assert(text@ =~= s.subrange(
                                self.position() - text@.len(),
                                self.position() as int,
                            ));
                            assert(text@.subrange(0, t0.len() as int) =~= before.subrange(
                                0,
                                t0.len() as int,
                            ));
                            let d = text@.subrange(t0.len() as int, text@.len() as int);
                            assert forall|x: int| 0 <= x < d.len() implies is_digit(#[trigger] d[x]) by {
                                if x < d.len() - 1 {
                                    assert(d[x] == before.subrange(
                                        t0.len() as int,
                                        before.len() as int,
                                    )[x]);
                                }
                            }
                        }
                    } else {
                        return ;
                    }
                },
                None => {
                    return ;
                },
            }
        }
    }

    /// Reads the rest of a number whose first character, `first` (`-` or a
    /// digit), was just consumed.
    #[verifier::rlimit(100)]
    #[verifier::spinoff_prover]
    fn lex_number(&mut self, first: char, start: Location) -> (r: Option<Lexed>)
        requires
            old(self).wf(),
            !old(self).done,
            old(self).position() >= 1,
            old(self).source()[old(self).position() - 1] == first,
            first == '-' || is_digit(first),
        ensures
            final(self).wf(),
            final(self).source() == old(self).source(),
            final(self).position() >= old(self).position(),
            r is Some,
            r matches Some(Ok((t, sp))) ==> {
                &&& !final(self).done
                &&& lexes(old(self).source(), old(self).position() - 1, final(self).position() as int, t)
                &&& sp.start == start
                &&& loc_is(sp.end, loc_at(old(self).source(), final(self).position()))
            },
            r matches Some(Err(e)) ==> final(self).done && is_lexical_error(e),
            number_at(old(self).source(), old(self).position() - 1) ==> (r matches Some(Ok(_))),
            ({
                let s = old(self).source();
                let a = int_start(s, old(self).position() - 1);
                a + 1 < s.len() && s[a] == '0' && is_digit(s[a + 1]) ==> (r matches Some(
                    Err(JQErr::IllegalLeading0(l)),
                ) && loc_is(l, loc_at(s, (a + 1) as nat)))
            }),
            r matches Some(Ok((t, _))) ==> t is Number,
    {
        let ghost s = self.source();
        let ghost q = self.position() - 1;
        let ghost owed = number_at(s, q);
        let ghost end_w: int = 0;
        proof {
            self.lemma_position_bounded();
            if owed {
                end_w = choose|e: int| number_lexeme(s, q, e);
                lemma_number_scan(s, q, end_w, q, q);
            }
        }
        let mut text: Vec<char> = Vec::new();
        text.push(first);
        assert(text@ =~= s.subrange(q, self.position() as int));
        let ghost i: int = 0;
        if first == '-' {
            let loc = self.chars.peek_location();
            match self.chars.next() {
                Some(d) => {
                    if is_digit_char(d) {
                        text.push(d);
                        proof {
                            i = 1;
                            assert(text@ =~= s.subrange(q, self.position() as int));
                        }
                    } else {
                        return self.fail(JQErr::UnexpectedCharacter(loc));
                    }
                },
                None => return self.fail(JQErr::UnexpectedEOF),
            }
        }
        let ghost t0 = text@;
        assert(t0.len() == i + 1 && is_digit(t0[i]));
        assert(i == 1 ==> t0[0] == '-');
        // integer part
        let lead = text[text.len() - 1];
        if lead == '0' {
            if let Some(d) = self.chars.peek() {
                if is_digit_char(d) {
                    proof {
                        self.lemma_position_bounded();
                        if owed {
                            assert(int_start(s, q) == q + i);
                            assert(s[q + i] == '0');
                        }
                    }
                    let loc = self.chars.peek_location();
                    return self.fail(JQErr::IllegalLeading0(loc));
                }
            }
        } else {
            self.digits(&mut text);
        }
        let ghost t1 = text@;
        let ghost j: int = t1.len() as int;
        proof {
            self.lemma_position_bounded();
            assert(t1.subrange(0, t0.len() as int) == t0);
            assert(t1[i] == t0[i]);
            assert(i == 1 ==> t1[0] == '-');
            let d = t1.subrange(i, j);
            assert(is_int(d)) by {
                assert forall|x: int| 0 <= x < d.len() implies is_digit(#[trigger] d[x]) by {
                    if x > 0 {
                        assert(d[x] == t1.subrange(i + 1, j)[x - 1]);
                    }
                }
            }
            assert(t1 == s.subrange(q, self.position() as int));
            assert(self.position() == s.len() || !is_digit(s[self.position() as int]));
            assert(int_start(s, q) == q + i);
            assert forall|x: int| q + i <= x < q + j implies is_digit(#[trigger] s[x]) by {
                assert(s[x] == t1[x - q]);
                assert(t1[x - q] == d[x - q - i]);
            }
            assert(digit_run(s, q + i, q + j));
        }
        // fraction
        let ghost pos1: int = self.position() as int;
        let mut has_frac = false;
        if let Some('.') = self.chars.peek() {
            self.chars.next();
            text.push('.');
            let loc = self.chars.peek_location();
            proof {
                if owed {
                    lemma_number_scan(s, q, end_w, pos1, pos1);
                }
            }
            match self.chars.peek() {
                Some(d) => {
                    if !is_digit_char(d) {
                        return self.fail(JQErr::UnexpectedCharacter(loc));
                    }
                },
                None => return self.fail(JQErr::UnexpectedCharacter(loc)),
            }
            assert(text@ =~= s.subrange(self.position() - text@.len(), self.position() as int));
            let ghost before = text@;
            self.digits(&mut text);
            proof {
                assert(text@.len() > j + 1);
                assert(text@.subrange(0, j + 1) == before);
                assert(text@.subrange(0, j) =~= t1);
                assert(before[j] == '.');
                assert(text@[j] == text@.subrange(0, j + 1)[j]);
                assert(text@.subrange(j + 1, text@.len() as int) =~= text@.subrange(
                    before.len() as int,
                    text@.len() as int,
                ));
            }
            has_frac = true;
        }
        let ghost t2 = text@;
        let ghost k: int = t2.len() as int;
        proof {
            self.lemma_position_bounded();
            assert(t2.subrange(0, j) =~= t1);
            assert(!has_frac ==> t2 == t1 && self.position() == pos1);
            assert(has_frac ==> t2[j] == '.' && all_digits(t2.subrange(j + 1, k)) && k > j + 1);
            assert(self.position() == s.len() || !is_digit(s[self.position() as int]));
            assert(has_frac ==> s[pos1 as int] == '.');
            assert(!has_frac ==> pos1 == s.len() || s[pos1 as int] != '.');
            if has_frac {
                assert forall|x: int| pos1 + 1 <= x < q + k implies is_digit(#[trigger] s[x]) by {
                    assert(s[x] == t2[x - q]);
                    assert(t2[x - q] == t2.subrange(j + 1, k)[x - q - j - 1]);
                }
                assert(digit_run(s, pos1 + 1, q + k));
            }
        }
        // exponent
        let ghost pos2: int = self.position() as int;
        let mut has_exp = false;
        match self.chars.peek() {
            Some(e) => {
                if e == 'e' || e == 'E' {
                    proof {
                        if owed {
                            lemma_number_scan(s, q, end_w, pos1, pos2);
                        }
                    }
                    self.chars.next();
                    text.push(e);
                    let loc = self.chars.peek_location();
                    match self.chars.peek() {
                        Some(d) => {
                            if !is_digit_char(d) {
                                return self.fail(JQErr::UnexpectedCharacter(loc));
                            }
                        },
                        None => return self.fail(JQErr::UnexpectedCharacter(loc)),
                    }
                    assert(text@ =~= s.subrange(self.position() - text@.len(), self.position() as int));
                    let ghost before = text@;
                    self.digits(&mut text);
                    proof {
                        assert(text@.subrange(0, k + 1) == before);
                        assert(text@.subrange(0, k) =~= t2);
                        assert(before[k] == e);
                        assert(text@[k] == text@.subrange(0, k + 1)[k]);
                        assert(text@.subrange(k + 1, text@.len() as int) =~= text@.subrange(
                            before.len() as int,
                            text@.len() as int,
                        ));
                    }
                    has_exp = true;
                }
            },
            None => {},
        }
        let v = string_from_chars(&text);
        proof {
            self.lemma_position_bounded();
            let n = text@;
            let end = self.position() as int;
            assert(n.subrange(0, k) =~= t2);
            assert(n.subrange(0, j) =~= t1);
            assert(n[i] == t1[i]);
            assert(n.subrange(i, j) =~= t1.subrange(i, j));
            assert(i == 1 ==> n[0] == '-');
            if has_frac {
                assert(n[j] == t2[j]);
                assert(n.subrange(j + 1, k) =~= t2.subrange(j + 1, k));
            }
            assert(!has_exp ==> n == t2 && end == pos2);
            assert(number_parts(n, i, j, k));
            assert(is_number(n));
            assert(s.subrange(q, end) =~= n);
            if end < s.len() {
                let c = s[end];
                assert(!is_digit(c));
                if c == '.' {
                    if has_frac {
                        assert(n[j] == '.');
                    } else if has_exp {
                        assert(n[k] == 'e' || n[k] == 'E');
                    } else {
                        assert(end == pos1);
                    }
                }
                if c == 'e' || c == 'E' {
                    if has_exp {
                        assert(n[k] == 'e' || n[k] == 'E');
                    } else {
                        assert(end == pos2);
                    }
                }
                assert(!extends_number(n, c));
            }
        }
        self.emit(Token::Number(v), start)
    }

    /// The next token with its span, or the first lexical error; `None` once
    /// the source is exhausted or an error was reported.
    pub fn next(&mut self) -> (r: Option<Lexed>)
        requires
            old(self).wf(),
        ensures
            final(self).wf(),
            final(self).source() == old(self).source(),
            final(self).position() >= old(self).position(),
            old(self).is_done() ==> r is None && final(self).is_done() && final(self).position()
                == old(self).position(),
            !old(self).is_done() ==> {
                let s = old(self).source();
                let start = skip_ws(s, old(self).position() as int);
                match r {
                    None => final(self).is_done() && start == s.len(),
                    Some(Ok((t, sp))) => {
                        &&& !final(self).is_done()
                        &&& lexes(s, start, final(self).position() as int, t)
                        &&& loc_is(sp.start, loc_at(s, start as nat))
                        &&& loc_is(sp.end, loc_at(s, final(self).position()))
                    },
                    Some(Err(e)) => final(self).is_done() && is_lexical_error(e),
                }
            },
            !old(self).is_done() ==> {
                let s = old(self).source();
                let start = skip_ws(s, old(self).position() as int);
                &&& start == s.len() ==> r is None
                &&& string_at(s, start) ==> (r matches Some(Ok((Token::String(_), _))))
                &&& number_at(s, start) ==> (r matches Some(Ok((Token::Number(_), _))))
                &&& start < s.len() && is_punct(s[start]) ==> (r matches Some(Ok((t, _))) && t == punct_token(
                    s[start],
                ))
                &&& keyword_at(s, start, keyword_text(Token::True)) ==> (r matches Some(Ok((Token::True, _))))
                &&& keyword_at(s, start, keyword_text(Token::False)) ==> (r matches Some(
                    Ok((Token::False, _)),
                ))
                &&& keyword_at(s, start, keyword_text(Token::Null)) ==> (r matches Some(Ok((Token::Null, _))))
                &&& forall|p: int, v: Seq<char>|
                    #![trigger decodes(s.subrange(start + 1, p), v)]
                    start < s.len() && s[start] == '"' && start + 1 <= p < s.len() && decodes(
                        s.subrange(start + 1, p),
                        v,
                    ) && is_control(s[p]) ==> (r matches Some(Err(JQErr::UnescapedEscapeCharacter(l))) && loc_is(
                        l,
                        loc_at(s, p as nat),
                    ))
                &&& start < s.len() && !starts_lexeme(s[start]) && !is_ws(s[start]) ==> (r matches Some(
                    Err(JQErr::UnexpectedCharacter(l)),
                ) && loc_is(l, loc_at(s, start as nat)))
                &&& start < s.len() && keyword_of(s[start]) is Some && !keyword_at(
                    s,
                    start,
                    keyword_text(keyword_of(s[start]).unwrap()),
                ) ==> (r matches Some(Err(JQErr::UnexpectedCharacter(l))) && loc_is(
                    l,
                    loc_at(
                        s,
                        (start + mismatch_from(s, start, keyword_text(keyword_of(s[start]).unwrap()), 1)) as nat,
                    ),
                ))
                &&& start < s.len() && (s[start] == '-' || is_digit(s[start])) && int_start(s, start) + 1
                    < s.len() && s[int_start(s, start)] == '0' && is_digit(s[int_start(s, start) + 1])
                    ==> (r matches Some(Err(JQErr::IllegalLeading0(l))) && loc_is(
                    l,
                    loc_at(s, (int_start(s, start) + 1) as nat),
                ))
            },
    {
        if self.done {
            return None;
        }
        let ghost s = self.source();
        let ghost pos0 = self.position() as int;
        loop
            invariant
                s == old(self).source(),
                pos0 == old(self).position(),
                self.wf(),
                self.source() == s,
                !self.done,
                pos0 <= self.position(),
                skip_ws(s, pos0) == skip_ws(s, self.position() as int),
            ensures
                self.wf(),
                self.source() == s,
                !self.done,
                pos0 <= self.position(),
                skip_ws(s, pos0) == self.position(),
            decreases s.len() - self.position(),
        {
            proof {
                self.lemma_position_bounded();
            }
            match self.chars.peek() {
                Some(c) => {
                    if c == ' ' || c == '\n' || c == '\r' || c == '\t' {
                        self.chars.next();
                    } else {
                        assert(!is_ws(s[self.position() as int]));
                        break ;
                    }
                },
                None => {
                    break ;
                },
            }
        }
        let start = self.chars.peek_location();
        let c = match self.chars.next() {
            Some(c) => c,
            None => {
                self.done = true;
                proof {
                    self.lemma_position_bounded();
                }
                return None;
            },
        };
        let ghost q = self.position() - 1;
        proof {
            self.lemma_position_bounded();
            if number_at(s, q) {
                let e = choose|e: int| number_lexeme(s, q, e);
                lemma_number_scan(s, q, e, q, q);
            }
        }
        if c == '{' {
            self.emit(Token::ObjectStart, start)
        } else if c == '}' {
            self.emit(Token::ObjectEnd, start)
        } else if c == '[' {
            self.emit(Token::ArrayStart, start)
        } else if c == ']' {
            self.emit(Token::ArrayEnd, start)
        } else if c == ':' {
            self.emit(Token::Colon, start)
        } else if c == ',' {
            self.emit(Token::Comma, start)
        } else if c == 't' {
            if let Err(l) = self.expect('r') {
                proof {
                    let kw = keyword_text(Token::True);

                    assert(mismatch_from(s, q, kw, 1) == 1);
                }
                return self.fail(JQErr::UnexpectedCharacter(l));
            }
            if let Err(l) = self.expect('u') {
                proof {
                    let kw = keyword_text(Token::True);
                    self.lemma_position_bounded();
                    assert(kw[1] == s[q + 1]);
                    assert(mismatch_from(s, q, kw, 1) == mismatch_from(s, q, kw, 2));
                    assert(mismatch_from(s, q, kw, 2) == 2);
                }
                return self.fail(JQErr::UnexpectedCharacter(l));
            }
            if let Err(l) = self.expect('e') {
                proof {
                    let kw = keyword_text(Token::True);
                    self.lemma_position_bounded();
                    assert(kw[1] == s[q + 1]);
                    assert(mismatch_from(s, q, kw, 1) == mismatch_from(s, q, kw, 2));
                    self.lemma_position_bounded();
                    assert(kw[2] == s[q + 2]);
                    assert(mismatch_from(s, q, kw, 2) == mismatch_from(s, q, kw, 3));
                    assert(mismatch_from(s, q, kw, 3) == 3);
                }
                return self.fail(JQErr::UnexpectedCharacter(l));
            }
            assert(s[q] == 't' && s[q + 1] == 'r' && s[q + 2] == 'u' && s[q + 3] == 'e');
            proof {
                self.lemma_position_bounded();
            }
            assert(s.subrange(q, self.position() as int) =~= keyword_text(Token::True));
            self.emit(Token::True, start)
        } else if c == 'f' {
            if let Err(l) = self.expect('a') {
                proof {
                    let kw = keyword_text(Token::False);

                    assert(mismatch_from(s, q, kw, 1) == 1);
                }
                return self.fail(JQErr::UnexpectedCharacter(l));
            }
            if let Err(l) = self.expect('l') {
                proof {
                    let kw = keyword_text(Token::False);
                    self.lemma_position_bounded();
                    assert(kw[1] == s[q + 1]);
                    assert(mismatch_from(s, q, kw, 1) == mismatch_from(s, q, kw, 2));
                    assert(mismatch_from(s, q, kw, 2) == 2);
                }
                return self.fail(JQErr::UnexpectedCharacter(l));
            }
            if let Err(l) = self.expect('s') {
                proof {
                    let kw = keyword_text(Token::False);
                    self.lemma_position_bounded();
                    assert(kw[1] == s[q + 1]);
                    assert(mismatch_from(s, q, kw, 1) == mismatch_from(s, q, kw, 2));
                    self.lemma_position_bounded();
                    assert(kw[2] == s[q + 2]);
                    assert(mismatch_from(s, q, kw, 2) == mismatch_from(s, q, kw, 3));
                    assert(mismatch_from(s, q, kw, 3) == 3);
                }
                return self.fail(JQErr::UnexpectedCharacter(l));
            }
            if let Err(l) = self.expect('e') {
                proof {
                    let kw = keyword_text(Token::False);
                    self.lemma_position_bounded();
                    assert(kw[1] == s[q + 1]);
                    assert(mismatch_from(s, q, kw, 1) == mismatch_from(s, q, kw, 2));
                    self.lemma_position_bounded();
                    assert(kw[2] == s[q + 2]);
                    assert(mismatch_from(s, q, kw, 2) == mismatch_from(s, q, kw, 3));
                    self.lemma_position_bounded();
                    assert(kw[3] == s[q + 3]);
                    assert(mismatch_from(s, q, kw, 3) == mismatch_from(s, q, kw, 4));
                    assert(mismatch_from(s, q, kw, 4) == 4);
                }
                return self.fail(JQErr::UnexpectedCharacter(l));
            }
            assert(s[q] == 'f' && s[q + 1] == 'a' && s[q + 2] == 'l' && s[q + 3] == 's' && s[q + 4]
                == 'e');
            proof {
                self.lemma_position_bounded();
            }
            assert(s.subrange(q, self.position() as int) =~= keyword_text(Token::False));
            self.emit(Token::False, start)
        } else if c == 'n' {
            if let Err(l) = self.expect('u') {
                proof {
                    let kw = keyword_text(Token::Null);

                    assert(mismatch_from(s, q, kw, 1) == 1);
                }
                return self.fail(JQErr::UnexpectedCharacter(l));
            }
            if let Err(l) = self.expect('l') {
                proof {
                    let kw = keyword_text(Token::Null);
                    self.lemma_position_bounded();
                    assert(kw[1] == s[q + 1]);
                    assert(mismatch_from(s, q, kw, 1) == mismatch_from(s, q, kw, 2));
                    assert(mismatch_from(s, q, kw, 2) == 2);
                }
                return self.fail(JQErr::UnexpectedCharacter(l));
            }
            if let Err(l) = self.expect('l') {
                proof {
                    let kw = keyword_text(Token::Null);
                    self.lemma_position_bounded();
                    assert(kw[1] == s[q + 1]);
                    assert(mismatch_from(s, q, kw, 1) == mismatch_from(s, q, kw, 2));
                    self.lemma_position_bounded();
                    assert(kw[2] == s[q + 2]);
                    assert(mismatch_from(s, q, kw, 2) == mismatch_from(s, q, kw, 3));
                    assert(mismatch_from(s, q, kw, 3) == 3);
                }
                return self.fail(JQErr::UnexpectedCharacter(l));
            }
            assert(s[q] == 'n' && s[q + 1] == 'u' && s[q + 2] == 'l' && s[q + 3] == 'l');
            proof {
                self.lemma_position_bounded();
            }
            assert(s.subrange(q, self.position() as int) =~= keyword_text(Token::Null));
            self.emit(Token::Null, start)
        } else if c == '"' {
            self.lex_string(start)
        } else if c == '-' || is_digit_char(c) {
            self.lex_number(c, start)
        } else {
            self.fail(JQErr::UnexpectedCharacter(start))
        }
    }
}

} // verus!
