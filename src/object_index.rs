use vstd::prelude::*;
use vstd::string::StringExecFns;

use crate::error::Item;
use crate::operators::{
    acted, build_messages, child_token, is_child_token, messages_are, push_failure, Action,
};
use crate::sanitized::Sanitized;
use crate::scope::Scope;
use crate::stream_context::{feed_model, initial_context, ContextView};
use crate::token::Token;

verus! {

/// The outermost open container is an object, at the member `key`.
pub open spec fn outer_key_is(p: ContextView, key: Seq<char>) -> bool {
    p.path.len() > 0 && (p.path[0] matches Scope::ObjectAtKey { key: k, .. } && k@ == key)
}

/// What `.[key]` does with token `t` arriving in context `p`; `matched` says
/// whether the current top-level object has shown the key already.
pub open spec fn key_action(key: Seq<char>, strict: bool, matched: bool, p: ContextView, t: Token) -> Action {
    if p.path.len() == 0 {
        match t {
            Token::ObjectStart => Action::Skip,
            Token::Null => Action::YieldNull,
            _ => if strict {
                Action::Fail
            } else {
                Action::Skip
            },
        }
    } else if child_token(p, t) && outer_key_is(p, key) {
        Action::Forward
    } else if p.path.len() == 1 && t is ObjectEnd && !matched {
        Action::YieldNull
    } else {
        Action::Skip
    }
}

/// Whether the current top-level object has shown the key, after token `t`.
pub open spec fn key_matched_after(key: Seq<char>, matched: bool, p: ContextView, t: Token) -> bool {
    if p.path.len() == 0 {
        false
    } else {
        matched || key_action(key, true, matched, p, t) == Action::Forward
    }
}

/// The `.[key]` operator (`.[key]?` when not strict): for each top-level
/// value, the value of its member `key` if it is an object (`null` when it has
/// no such member), `null` for `null`, and for any other value an error, or
/// nothing when not strict.
pub struct ObjectKeyIndex {
    input: Sanitized,
    key: String,
    strict: bool,
    matched: bool,
    finished: bool,
    /// The error message for each kind of value.
    messages: Vec<String>,
}

impl ObjectKeyIndex {
    pub closed spec fn context(&self) -> ContextView {
        self.input.view()
    }

    pub closed spec fn key(&self) -> Seq<char> {
        self.key@
    }

    pub closed spec fn is_strict(&self) -> bool {
        self.strict
    }

    pub closed spec fn matched(&self) -> bool {
        self.matched
    }

    pub closed spec fn is_finished(&self) -> bool {
        self.finished
    }

    /// The error message for each kind of value.
    pub closed spec fn messages(&self) -> Seq<String> {
        self.messages@
    }

    pub closed spec fn wf(&self) -> bool {
        self.input.wf() && self.messages@.len() == 6
    }

    pub fn new(key: String, strict: bool) -> (r: ObjectKeyIndex)
        ensures
            r.wf(),
            r.context() == initial_context(),
            r.key() == key@,
            r.is_strict() == strict,
            !r.matched(),
            !r.is_finished(),
            messages_are(r.messages(), "Cannot index "@, " with string \""@ + key@ + "\""@),
    {
        let suffix = " with string \"".to_owned().concat(key.as_str()).concat("\"");
        let messages = build_messages("Cannot index ", suffix.as_str());
        ObjectKeyIndex { input: Sanitized::new(), key, strict, matched: false, finished: false, messages }
    }

    /// Takes one pull of the upstream (`None`: it ended) and appends what the
    /// operator yields for it to `out`.
    pub fn feed(&mut self, item: Option<Item>, out: &mut Vec<Item>)
        requires
            old(self).wf(),
        ensures
            final(self).wf(),
            final(self).key() == old(self).key(),
            final(self).is_strict() == old(self).is_strict(),
            final(self).messages() == old(self).messages(),
            old(self).is_finished() ==> final(out)@ == old(out)@ && *final(self) == *old(self),
            !old(self).is_finished() ==> {
                let p = old(self).context();
                let (q, o) = feed_model(p, item);
                &&& final(self).context() == q
                &&& match o {
                    None => final(out)@ == old(out)@ && final(self).matched() == old(self).matched()
                        && !final(self).is_finished(),
                    Some(Err(e)) => final(out)@ == old(out)@.push(Err(e)) && final(self).is_finished(),
                    Some(Ok(t)) => {
                        let a = key_action(old(self).key(), old(self).is_strict(), old(self).matched(), p, t);
                        &&& acted(a, t, old(out)@, final(out)@, old(self).messages())
                        &&& final(self).matched() == key_matched_after(old(self).key(), old(self).matched(), p, t)
                        &&& final(self).is_finished() == (a == Action::Fail)
                    },
                }
            },
    {
        if self.finished {
            return ;
        }
        let depth = self.input.get_path().len();
        let ghost p = self.input.view();
        let child_key: Option<bool> = if depth >= 1 {
            match &self.input.get_path()[0] {
                Scope::ObjectAtKey { index: _, key } => Some(*key == self.key),
                _ => None,
            }
        } else {
            None
        };
        let state = self.input.state();
        match self.input.feed(item) {
            None => {},
            Some(Err(e)) => {
                self.finished = true;
                out.push(Err(e));
            },
            Some(Ok(t)) => {
                let is_child = is_child_token(depth, state, &t, Ghost(p));
                if depth == 0 {
                    self.matched = false;
                    match t {
                        Token::ObjectStart => {},
                        Token::Null => out.push(Ok(Token::Null)),
                        _ => {
                            if self.strict {
                                push_failure(out, &self.messages, &t);
                                self.finished = true;
                            }
                        },
                    }
                } else if is_child && child_key == Some(true) {
                    self.matched = true;
                    out.push(Ok(t));
                } else if depth == 1 && matches!(t, Token::ObjectEnd) && !self.matched {
                    out.push(Ok(Token::Null));
                }
            },
        }
    }
}

} // verus!
