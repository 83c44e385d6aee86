use vstd::prelude::*;

use crate::compact::{compact_text, push_compact};
use crate::error::{Item, JQErr};
use crate::sanitized::Sanitized;
use crate::stream_context::{feed_model, initial_context, ContextView};
use crate::token::Token;

verus! {

/// Two spaces for each level of nesting.
pub open spec fn indent(n: nat) -> Seq<char>
    decreases n,
{
    if n == 0 {
        Seq::empty()
    } else {
        indent((n - 1) as nat) + seq![' ', ' ']
    }
}

pub open spec fn new_line(n: nat) -> Seq<char> {
    seq!['\n'] + indent(n)
}

pub open spec fn is_open(prev: Option<Token>) -> bool {
    prev matches Some(pt) && (pt is ObjectStart || pt is ArrayStart)
}

/// The pretty text of token `t` arriving in context `p` (`q` after it),
/// after the token `prev`. A non-empty container puts each child on a line
/// of its own, indented one level deeper; an empty one stays `{}` or `[]`; a
/// colon is followed by a space; top-level values are separated by a newline.
pub open spec fn pretty_text(prev: Option<Token>, p: ContextView, q: ContextView, t: Token) -> Seq<char> {
    let separator = if p.path.len() == 0 && prev is Some {
        seq!['\n']
    } else {
        Seq::empty()
    };
    let lead = if is_open(prev) {
        new_line(p.path.len())
    } else {
        Seq::empty()
    };
    separator + match t {
        Token::ObjectEnd => if prev == Some(Token::ObjectStart) {
            seq!['}']
        } else {
            new_line(q.path.len()) + seq!['}']
        },
        Token::ArrayEnd => if prev == Some(Token::ArrayStart) {
            seq![']']
        } else {
            new_line(q.path.len()) + seq![']']
        },
        Token::Colon => seq![':', ' '],
        Token::Comma => seq![','] + new_line(q.path.len()),
        _ => lead + compact_text(t),
    }
}

fn push_new_line(n: usize, out: &mut Vec<char>)
    ensures
        final(out)@ == old(out)@ + new_line(n as nat),
{
    let ghost before = out@;
    out.push('\n');
    let mut k: usize = 0;
    while k < n
        invariant
            k <= n,
            out@ == before + new_line(k as nat),
        decreases n - k,
    {
        out.push(' ');
        out.push(' ');
        k = k + 1;
        assert(out@ =~= before + new_line(k as nat));
    }
}

/// Renders a token stream as indented JSON text.
pub struct PrettyChars {
    input: Sanitized,
    previous: Option<Token>,
}

impl PrettyChars {
    pub closed spec fn context(&self) -> ContextView {
        self.input.view()
    }

    /// The token rendered last.
    pub closed spec fn previous(&self) -> Option<Token> {
        self.previous
    }

    pub closed spec fn wf(&self) -> bool {
        self.input.wf()
    }

    pub fn new() -> (r: PrettyChars)
        ensures
            r.wf(),
            r.context() == initial_context(),
            r.previous() is None,
    {
        PrettyChars { input: Sanitized::new(), previous: None }
    }

    /// Takes one pull of the upstream (`None`: it ended), appends the text of
    /// the token to `out`, and returns the error that the stream carries, if any.
    pub fn feed(&mut self, item: Option<Item>, out: &mut Vec<char>) -> (r: Option<JQErr>)
        requires
            old(self).wf(),
        ensures
            final(self).wf(),
            ({
                let p = old(self).context();
                let (q, o) = feed_model(p, item);
                &&& final(self).context() == q
                &&& match o {
                    None => final(out)@ == old(out)@ && r is None && final(self).previous() == old(self).previous(),
                    Some(Err(e)) => final(out)@ == old(out)@ && r == Some(e) && final(self).previous() == old(self).previous(),
                    Some(Ok(t)) => {
                        &&& r is None
                        &&& final(out)@ == old(out)@ + pretty_text(old(self).previous(), p, q, t)
                        &&& final(self).previous() == Some(t)
                    },
                }
            }),
    {
        let depth = self.input.get_path().len();
        let ghost before = out@;
        match self.input.feed(item) {
            None => None,
            Some(Err(e)) => Some(e),
            Some(Ok(t)) => {
                let after = self.input.get_path().len();
                let prev_open = matches!(self.previous, Some(Token::ObjectStart) | Some(Token::ArrayStart));
                if depth == 0 && self.previous.is_some() {
                    out.push('\n');
                }
                let ghost sep = out@;
                match t {
                    Token::ObjectEnd => {
                        if !matches!(self.previous, Some(Token::ObjectStart)) {
                            push_new_line(after, out);
                        }
                        out.push('}');
                    },
                    Token::ArrayEnd => {
                        if !matches!(self.previous, Some(Token::ArrayStart)) {
                            push_new_line(after, out);
                        }
                        out.push(']');
                    },
                    Token::Colon => {
                        out.push(':');
                        out.push(' ');
                    },
                    Token::Comma => {
                        out.push(',');
                        push_new_line(after, out);
                    },
                    _ => {
                        if prev_open {
                            push_new_line(depth, out);
                        }
                        push_compact(&t, out);
                    },
                }
                proof {
                    let p = old(self).context();
                    let q = self.input.view();
                    assert(out@ =~= before + pretty_text(old(self).previous(), p, q, t));
                }
                self.previous = Some(t);
                None
            },
        }
    }
}

} // verus!
