use vstd::prelude::*;

use crate::error::Item;
use crate::operators::{
    acted, build_messages, child_token, is_child_token, messages_are, push_failure, Action,
};
use crate::sanitized::Sanitized;
use crate::stream_context::{feed_model, initial_context, ContextView};
use crate::token::Token;

verus! {

/// What `.[]` does with token `t` arriving in context `p`.
pub open spec fn values_action(strict: bool, p: ContextView, t: Token) -> Action {
    if p.path.len() == 0 {
        if t is ArrayStart || t is ObjectStart {
            Action::Skip
        } else if strict {
            Action::Fail
        } else {
            Action::Skip
        }
    } else if child_token(p, t) {
        Action::Forward
    } else {
        Action::Skip
    }
}

/// The `.[]` operator (`.[]?` when not strict): each element of each
/// top-level array, and each member value of each top-level object, becomes a
/// top-level value of its own; any other value is an error, or is skipped when
/// not strict.
pub struct Values {
    input: Sanitized,
    strict: bool,
    finished: bool,
    /// The error message for each kind of value.
    messages: Vec<String>,
}

impl Values {
    pub closed spec fn context(&self) -> ContextView {
        self.input.view()
    }

    pub closed spec fn is_strict(&self) -> bool {
        self.strict
    }

    pub closed spec fn is_finished(&self) -> bool {
        self.finished
    }

    /// The error message for each kind of value.
    pub closed spec fn messages(&self) -> Seq<String> {
        self.messages@
    }

    pub closed spec fn wf(&self) -> bool {
        self.input.wf() && self.messages@.len() == 6
    }

    pub fn new(strict: bool) -> (r: Values)
        ensures
            r.wf(),
            r.context() == initial_context(),
            r.is_strict() == strict,
            !r.is_finished(),
            messages_are(r.messages(), "Cannot iterate over "@, ""@),
    {
        let messages = build_messages("Cannot iterate over ", "");
        Values { input: Sanitized::new(), strict, finished: false, messages }
    }

    /// Takes one pull of the upstream (`None`: it ended) and appends what the
    /// operator yields for it to `out`.
    pub fn feed(&mut self, item: Option<Item>, out: &mut Vec<Item>)
        requires
            old(self).wf(),
        ensures
            final(self).wf(),
            final(self).is_strict() == old(self).is_strict(),
            final(self).messages() == old(self).messages(),
            old(self).is_finished() ==> final(out)@ == old(out)@ && *final(self) == *old(self),
            !old(self).is_finished() ==> {
                let p = old(self).context();
                let (q, o) = feed_model(p, item);
                &&& final(self).context() == q
                &&& match o {
                    None => final(out)@ == old(out)@ && !final(self).is_finished(),
                    Some(Err(e)) => final(out)@ == old(out)@.push(Err(e)) && final(self).is_finished(),
                    Some(Ok(t)) => {
                        let a = values_action(old(self).is_strict(), p, t);
                        &&& acted(a, t, old(out)@, final(out)@, old(self).messages())
                        &&& final(self).is_finished() == (a == Action::Fail)
                    },
                }
            },
    {
        if self.finished {
            return ;
        }
        let depth = self.input.get_path().len();
        let state = self.input.state();
        let ghost p = self.input.view();
        match self.input.feed(item) {
            None => {},
            Some(Err(e)) => {
                self.finished = true;
                out.push(Err(e));
            },
            Some(Ok(t)) => {
                if depth == 0 {
                    match t {
                        Token::ArrayStart | Token::ObjectStart => {},
                        _ => {
                            if self.strict {
                                push_failure(out, &self.messages, &t);
                                self.finished = true;
                            }
                        },
                    }
                } else if is_child_token(depth, state, &t, Ghost(p)) {
                    out.push(Ok(t));
                }
            },
        }
    }
}

} // verus!
