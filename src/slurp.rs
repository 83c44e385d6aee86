use vstd::prelude::*;

use crate::error::Item;
use crate::sanitized::Sanitized;
use crate::stream_context::{feed_model, initial_context, ContextView};
use crate::token::Token;

verus! {

/// The `slurp` operator: wraps all top-level values of its input in one array.
pub struct Slurp {
    input: Sanitized,
    started: bool,
    has_value: bool,
    finished: bool,
}

impl Slurp {
    pub closed spec fn context(&self) -> ContextView {
        self.input.view()
    }

    /// Whether the opening `[` has been yielded.
    pub closed spec fn is_started(&self) -> bool {
        self.started
    }

    /// Whether a top-level value has begun already.
    pub closed spec fn has_value(&self) -> bool {
        self.has_value
    }

    pub closed spec fn is_finished(&self) -> bool {
        self.finished
    }

    pub closed spec fn wf(&self) -> bool {
        self.input.wf()
    }

    pub fn new() -> (r: Slurp)
        ensures
            r.wf(),
            r.context() == initial_context(),
            !r.is_started(),
            !r.has_value(),
            !r.is_finished(),
    {
        Slurp { input: Sanitized::new(), started: false, has_value: false, finished: false }
    }

    /// Takes one pull of the upstream (`None`: it ended) and appends what the
    /// operator yields for it to `out`: the opening `[` first, a `,` before
    /// each top-level value but the first, and the closing `]` at the end.
    pub fn feed(&mut self, item: Option<Item>, out: &mut Vec<Item>)
        requires
            old(self).wf(),
        ensures
            final(self).wf(),
            old(self).is_finished() ==> final(out)@ == old(out)@ && *final(self) == *old(self),
            !old(self).is_finished() ==> {
                let p = old(self).context();
                let (q, o) = feed_model(p, item);
                let opening = if old(self).is_started() {
                    Seq::<Item>::empty()
                } else {
                    seq![Ok(Token::ArrayStart)]
                };
                &&& final(self).context() == q
                &&& final(self).is_started()
                &&& match o {
                    None => final(out)@ == old(out)@ + opening + seq![Ok(Token::ArrayEnd)]
                        && final(self).is_finished(),
                    Some(Err(e)) => final(out)@ == old(out)@ + opening + seq![Err(e)]
                        && final(self).is_finished(),
                    Some(Ok(t)) => {
                        let separator = if p.path.len() == 0 && old(self).has_value() {
                            seq![Ok(Token::Comma)]
                        } else {
                            Seq::<Item>::empty()
                        };
                        &&& final(out)@ == old(out)@ + opening + separator + seq![Ok(t)]
                        &&& final(self).has_value() == (old(self).has_value() || p.path.len() == 0)
                        &&& !final(self).is_finished()
                    },
                }
            },
    {
        if self.finished {
            return ;
        }
        let ghost before = out@;
        let depth = self.input.get_path().len();
        if !self.started {
            self.started = true;
            out.push(Ok(Token::ArrayStart));
        }
        let ghost opened = out@;
        match self.input.feed(item) {
            None => {
                self.finished = true;
                out.push(Ok(Token::ArrayEnd));
            },
            Some(Err(e)) => {
                self.finished = true;
                out.push(Err(e));
            },
            Some(Ok(t)) => {
                if depth == 0 {
                    if self.has_value {
                        out.push(Ok(Token::Comma));
                    }
                    self.has_value = true;
                }
                out.push(Ok(t));
            },
        }
        proof {
            if old(self).started {
                assert(opened =~= before + Seq::<Item>::empty());
            } else {
                assert(opened =~= before + seq![Ok(Token::ArrayStart)]);
            }
            assert(out@ =~= old(out)@ + (opened.subrange(before.len() as int, opened.len() as int))
                + out@.subrange(opened.len() as int, out@.len() as int));
        }
    }
}

} // verus!
