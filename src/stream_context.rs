use vstd::prelude::*;

use crate::error::{Item, JQErr};
use crate::scope::Scope;
use crate::token::Token;

verus! {

/// The states of the JSON grammar automaton.
#[derive(Clone, Copy, Debug, PartialEq, Eq, Structural)]
pub enum JsonParsingState {
    /// A value is expected.
    Value,
    /// The first element of an array, or its end, is expected.
    FirstArrayValue,
    /// The first key of an object, or its end, is expected.
    FirstObjectKey,
    /// A further key of an object is expected.
    ObjectKey,
    /// The colon after an object key is expected.
    ObjectColon,
    /// A value has just been completed.
    AfterValue,
    /// The stream has ended or failed; nothing more is accepted.
    Finished,
}

/// The abstract state of the automaton: its state, the path of open
/// containers (outermost first) and the index that the next key of the
/// innermost object will get.
pub struct ContextView {
    pub state: JsonParsingState,
    pub path: Seq<Scope>,
    pub next_key: usize,
}

pub open spec fn initial_context() -> ContextView {
    ContextView { state: JsonParsingState::Value, path: Seq::empty(), next_key: 0 }
}

/// The state after a container closes: inside a container a value is
/// complete; at top level another document may start.
pub open spec fn after_pop(path: Seq<Scope>) -> JsonParsingState {
    if path.len() == 0 {
        JsonParsingState::Value
    } else {
        JsonParsingState::AfterValue
    }
}

pub open spec fn pop_context(c: ContextView) -> ContextView {
    ContextView { state: after_pop(c.path.drop_last()), path: c.path.drop_last(), next_key: c.next_key }
}

/// A token in value position.
pub open spec fn start_value(c: ContextView, t: Token) -> Option<ContextView> {
    match t {
        Token::ObjectStart => Some(
            ContextView {
                state: JsonParsingState::FirstObjectKey,
                path: c.path.push(Scope::Object),
                next_key: c.next_key,
            },
        ),
        Token::ArrayStart => Some(
            ContextView {
                state: JsonParsingState::FirstArrayValue,
                path: c.path.push(Scope::Array(0)),
                next_key: c.next_key,
            },
        ),
        _ => if t.is_leaf() {
            Some(ContextView { state: JsonParsingState::AfterValue, path: c.path, next_key: c.next_key })
        } else {
            None
        },
    }
}

/// The key `k` taken as the `index`-th key of the innermost object.
pub open spec fn at_key_context(c: ContextView, index: usize, k: String) -> ContextView {
    ContextView {
        state: JsonParsingState::ObjectColon,
        path: c.path.drop_last().push(Scope::ObjectAtKey { index, key: k }),
        next_key: c.next_key,
    }
}

/// The transition of the automaton on one token, or `None` where the JSON
/// grammar does not allow the token.
pub open spec fn step(c: ContextView, t: Token) -> Option<ContextView> {
    match c.state {
        JsonParsingState::Finished => None,
        JsonParsingState::Value => start_value(c, t),
        JsonParsingState::FirstArrayValue => if t is ArrayEnd {
            Some(pop_context(c))
        } else {
            start_value(c, t)
        },
        JsonParsingState::FirstObjectKey => match t {
            Token::ObjectEnd => Some(pop_context(c)),
            Token::String(k) => Some(at_key_context(c, 0, k)),
            _ => None,
        },
        JsonParsingState::ObjectKey => match t {
            Token::String(k) => Some(at_key_context(c, c.next_key, k)),
            _ => None,
        },
        JsonParsingState::ObjectColon => if t is Colon {
            Some(ContextView { state: JsonParsingState::Value, path: c.path, next_key: c.next_key })
        } else {
            None
        },
        JsonParsingState::AfterValue => if c.path.len() == 0 {
            start_value(c, t)
        } else {
            match t {
                Token::Comma => match c.path.last() {
                    Scope::Array(i) => if i < usize::MAX {
                        Some(
                            ContextView {
                                state: JsonParsingState::Value,
                                path: c.path.drop_last().push(Scope::Array((i + 1) as usize)),
                                next_key: c.next_key,
                            },
                        )
                    } else {
                        None
                    },
                    Scope::ObjectAtKey { index, key: _ } => if index < usize::MAX {
                        Some(
                            ContextView {
                                state: JsonParsingState::ObjectKey,
                                path: c.path.drop_last().push(Scope::Object),
                                next_key: (index + 1) as usize,
                            },
                        )
                    } else {
                        None
                    },
                    Scope::Object => None,
                },
                Token::ArrayEnd => if c.path.last() is Array {
                    Some(pop_context(c))
                } else {
                    None
                },
                Token::ObjectEnd => if c.path.last() is Array {
                    None
                } else {
                    Some(pop_context(c))
                },
                _ => None,
            }
        },
    }
}

/// The automaton run over a token sequence, or `None` if some token is refused.
pub open spec fn run_tokens(c: ContextView, ts: Seq<Token>) -> Option<ContextView>
    decreases ts.len(),
{
    if ts.len() == 0 {
        Some(c)
    } else {
        match run_tokens(c, ts.drop_last()) {
            Some(c2) => step(c2, ts.last()),
            None => None,
        }
    }
}

/// How a token changes the nesting depth.
pub open spec fn depth_change(t: Token) -> int {
    match t {
        Token::ObjectStart | Token::ArrayStart => 1,
        Token::ObjectEnd | Token::ArrayEnd => -1,
        _ => 0,
    }
}

/// Open brackets minus closed brackets.
pub open spec fn nesting(ts: Seq<Token>) -> int
    decreases ts.len(),
{
    if ts.len() == 0 {
        0
    } else {
        nesting(ts.drop_last()) + depth_change(ts.last())
    }
}

/// A legal structural path for the given state: an `Object` frame (an object
/// between keys) is only ever the innermost frame, and each state has the
/// innermost frame that it needs.
pub open spec fn legal(c: ContextView) -> bool {
    &&& forall|i: int| 0 <= i < c.path.len() - 1 ==> !(#[trigger] c.path[i] is Object)
    &&& match c.state {
        JsonParsingState::Value | JsonParsingState::AfterValue => c.path.len() == 0 || !(
        c.path.last() is Object),
        JsonParsingState::FirstArrayValue => c.path.len() > 0 && c.path.last() == Scope::Array(0),
        JsonParsingState::FirstObjectKey | JsonParsingState::ObjectKey => c.path.len() > 0
            && c.path.last() is Object,
        JsonParsingState::ObjectColon => c.path.len() > 0 && c.path.last() is ObjectAtKey,
        JsonParsingState::Finished => true,
    }
}

pub proof fn lemma_step_legal(c: ContextView, t: Token)
    requires
        legal(c),
        step(c, t) is Some,
    ensures
        legal(step(c, t).unwrap()),
        step(c, t).unwrap().path.len() == c.path.len() + depth_change(t),
        step(c, t).unwrap().state != JsonParsingState::Finished,
{
    let c2 = step(c, t).unwrap();
    assert forall|i: int| 0 <= i < c2.path.len() - 1 implies !(#[trigger] c2.path[i] is Object) by {
        assert(c2.path[i] == c.path[i]);
    }
}

/// Every token sequence that the automaton accepts from the start leaves a
/// legal path whose length is the nesting depth of the tokens.
pub proof fn lemma_scope_well_formed(ts: Seq<Token>)
    requires
        run_tokens(initial_context(), ts) is Some,
    ensures
        legal(run_tokens(initial_context(), ts).unwrap()),
        run_tokens(initial_context(), ts).unwrap().path.len() == nesting(ts),
        run_tokens(initial_context(), ts).unwrap().state != JsonParsingState::Finished,
    decreases ts.len(),
{
    if ts.len() > 0 {
        lemma_scope_well_formed(ts.drop_last());
        lemma_step_legal(run_tokens(initial_context(), ts.drop_last()).unwrap(), ts.last());
    }
}

/// The validator on one pull of its upstream (`None`: the upstream ended):
/// the next state and what it yields.
pub open spec fn feed_model(c: ContextView, item: Option<Item>) -> (ContextView, Option<Item>) {
    let finished = ContextView { state: JsonParsingState::Finished, path: c.path, next_key: c.next_key };
    if c.state == JsonParsingState::Finished {
        (c, None)
    } else {
        match item {
            None => (finished, if c.path.len() == 0 {
                None
            } else {
                Some(Err(JQErr::UnexpectedEOF))
            }),
            Some(Err(e)) => (finished, Some(Err(e))),
            Some(Ok(t)) => match step(c, t) {
                Some(c2) => (c2, Some(Ok(t))),
                None => (finished, Some(Err(JQErr::InvalidStream))),
            },
        }
    }
}

pub open spec fn opt_seq(o: Option<Item>) -> Seq<Item> {
    match o {
        Some(x) => seq![x],
        None => Seq::empty(),
    }
}

/// What the validator yields, from state `c`, for the upstream items `s`
/// followed by the end of the upstream.
pub open spec fn validate_run(c: ContextView, s: Seq<Item>) -> Seq<Item>
    decreases s.len(),
{
    if s.len() == 0 {
        opt_seq(feed_model(c, None).1)
    } else {
        let (c2, o) = feed_model(c, Some(s[0]));
        opt_seq(o) + validate_run(c2, s.drop_first())
    }
}

proof fn lemma_finished_run_empty(c: ContextView, s: Seq<Item>)
    requires
        c.state == JsonParsingState::Finished,
    ensures
        validate_run(c, s) == Seq::<Item>::empty(),
    decreases s.len(),
{
    if s.len() > 0 {
        lemma_finished_run_empty(c, s.drop_first());
        assert(validate_run(c, s) =~= validate_run(c, s.drop_first()));
    }
}

/// Validating a validated stream again changes nothing.
pub proof fn lemma_validate_idempotent(c: ContextView, s: Seq<Item>)
    ensures
        validate_run(c, validate_run(c, s)) == validate_run(c, s),
    decreases s.len(),
{
    let out = validate_run(c, s);
    if c.state == JsonParsingState::Finished {
        lemma_finished_run_empty(c, s);
        lemma_finished_run_empty(c, out);
    } else if s.len() == 0 {
        let o = feed_model(c, None).1;
        if o is Some {
            let (c2, o2) = feed_model(c, Some(o.unwrap()));
            lemma_finished_run_empty(c2, out.drop_first());
            assert(out.drop_first() =~= Seq::<Item>::empty());
        }
    } else {
        let (c2, o) = feed_model(c, Some(s[0]));
        let rest = validate_run(c2, s.drop_first());
        assert(s == seq![s[0]] + s.drop_first());
        match o {
            Some(x) => {
                assert(out == seq![x] + rest);
                assert(out[0] == x);
                assert(out.drop_first() =~= rest);
                let (c3, o3) = feed_model(c, Some(x));
                match x {
                    Ok(t) => {
                        assert(c3 == c2);
                        lemma_validate_idempotent(c2, s.drop_first());
                    },
                    Err(e) => {
                        assert(c2.state == JsonParsingState::Finished);
                        lemma_finished_run_empty(c2, s.drop_first());
                        lemma_finished_run_empty(c3, out.drop_first());
                        assert(validate_run(c, out) =~= seq![x]);
                    },
                }
            },
            None => {
                assert(false);
            },
        }
    }
}

/// In a validated stream an error is the last item.
pub proof fn lemma_validate_fused(c: ContextView, s: Seq<Item>, i: int)
    requires
        0 <= i < validate_run(c, s).len(),
        validate_run(c, s)[i] is Err,
    ensures
        i == validate_run(c, s).len() - 1,
    decreases s.len(),
{
    if c.state == JsonParsingState::Finished {
        lemma_finished_run_empty(c, s);
    } else if s.len() > 0 {
        let (c2, o) = feed_model(c, Some(s[0]));
        let rest = validate_run(c2, s.drop_first());
        let out = validate_run(c, s);
        assert(out == opt_seq(o) + rest);
        match o {
            Some(Err(e)) => {
                lemma_finished_run_empty(c2, s.drop_first());
            },
            Some(Ok(t)) => {
                assert(out[i] == rest[i - 1]);
                lemma_validate_fused(c2, s.drop_first(), i - 1);
            },
            None => {
                lemma_validate_fused(c2, s.drop_first(), i);
            },
        }
    }
}

/// The tokens among `s`, in order.
pub open spec fn tokens_of(s: Seq<Item>) -> Seq<Token>
    decreases s.len(),
{
    if s.len() == 0 {
        Seq::empty()
    } else {
        match s[0] {
            Ok(t) => seq![t] + tokens_of(s.drop_first()),
            Err(_) => tokens_of(s.drop_first()),
        }
    }
}

pub open spec fn has_error(s: Seq<Item>) -> bool {
    exists|i: int| 0 <= i < s.len() && (#[trigger] s[i]) is Err
}

proof fn lemma_closure_from(c: ContextView, h: Seq<Token>, s: Seq<Item>)
    requires
        run_tokens(initial_context(), h) == Some(c),
        c.state != JsonParsingState::Finished,
    ensures
        run_tokens(initial_context(), h + tokens_of(validate_run(c, s))) is Some,
        !has_error(validate_run(c, s)) ==> run_tokens(
            initial_context(),
            h + tokens_of(validate_run(c, s)),
        ).unwrap().path.len() == 0,
    decreases s.len(),
{
    let out = validate_run(c, s);
    if s.len() == 0 {
        if c.path.len() == 0 {
            assert(out =~= Seq::<Item>::empty());
            assert(h + tokens_of(out) =~= h);
        } else {
            assert(out == seq![Err::<Token, JQErr>(JQErr::UnexpectedEOF)]);
            assert(out[0] is Err);
            assert(tokens_of(out.drop_first()) =~= Seq::<Token>::empty());
            assert(h + tokens_of(out) =~= h);
        }
    } else {
        let (c2, o) = feed_model(c, Some(s[0]));
        let rest = validate_run(c2, s.drop_first());
        assert(out == opt_seq(o) + rest);
        match o {
            Some(Ok(t)) => {
                assert(out[0] == Ok::<Token, JQErr>(t));
                assert(out.drop_first() =~= rest);
                let h2 = h.push(t);
                assert(h2.drop_last() =~= h);
                assert(run_tokens(initial_context(), h2) == Some(c2));
                lemma_step_legal_state(c, t);
                lemma_closure_from(c2, h2, s.drop_first());
                assert(h + tokens_of(out) =~= h2 + tokens_of(rest));
                if !has_error(out) {
                    assert forall|i: int| 0 <= i < rest.len() implies !(#[trigger] rest[i] is Err) by {
                        assert(rest[i] == out[i + 1]);
                    }
                }
            },
            Some(Err(e)) => {
                lemma_finished_run_empty(c2, s.drop_first());
                assert(out =~= seq![Err::<Token, JQErr>(e)]);
                assert(out[0] is Err);
                assert(tokens_of(out.drop_first()) =~= Seq::<Token>::empty());
                assert(h + tokens_of(out) =~= h);
            },
            None => {},
        }
    }
}

proof fn lemma_step_legal_state(c: ContextView, t: Token)
    requires
        step(c, t) is Some,
    ensures
        step(c, t).unwrap().state != JsonParsingState::Finished,
{
}

/// Whatever the input stream, the tokens that validation lets through are a
/// run of the JSON automaton, and when validation yields no error they end
/// with every document complete.
pub proof fn lemma_grammar_closure(s: Seq<Item>)
    ensures
        run_tokens(initial_context(), tokens_of(validate_run(initial_context(), s))) is Some,
        !has_error(validate_run(initial_context(), s)) ==> run_tokens(
            initial_context(),
            tokens_of(validate_run(initial_context(), s)),
        ).unwrap().path.len() == 0,
{
    let out = validate_run(initial_context(), s);
    lemma_closure_from(initial_context(), Seq::empty(), s);
    assert(Seq::<Token>::empty() + tokens_of(out) =~= tokens_of(out));
}

/// A validator over a token stream: it checks the JSON grammar one token at a
/// time and keeps the structural path of the stream.
pub struct StreamContext {
    scopes: Vec<Scope>,
    state: JsonParsingState,
    next_key: usize,
    accepted: Ghost<Seq<Token>>,
}

impl StreamContext {
    /// The tokens accepted so far.
    pub closed spec fn history(&self) -> Seq<Token> {
        self.accepted@
    }

    pub closed spec fn view(&self) -> ContextView {
        ContextView { state: self.state, path: self.scopes@, next_key: self.next_key }
    }

    /// The accepted tokens are a run of the automaton that ends on the
    /// current path, and, unless the stream has finished, in the current state.
    pub open spec fn wf(&self) -> bool {
        &&& run_tokens(initial_context(), self.history()) is Some
        &&& run_tokens(initial_context(), self.history()).unwrap().path == self.view().path
        &&& self.view().state != JsonParsingState::Finished ==> run_tokens(
            initial_context(),
            self.history(),
        ) == Some(self.view())
    }

    pub fn new() -> (r: StreamContext)
        ensures
            r.view() == initial_context(),
            r.history() == Seq::<Token>::empty(),
            r.wf(),
    {
        StreamContext {
            scopes: Vec::new(),
            state: JsonParsingState::Value,
            next_key: 0,
            accepted: Ghost(Seq::empty()),
        }
    }

    /// The structural path before the next token.
    pub fn get_path(&self) -> (r: &Vec<Scope>)
        ensures
            r@ == self.view().path,
    {
        &self.scopes
    }

    pub fn state(&self) -> (r: JsonParsingState)
        ensures
            r == self.view().state,
    {
        self.state
    }

    pub fn is_finished(&self) -> (r: bool)
        ensures
            r == (self.view().state == JsonParsingState::Finished),
    {
        self.state == JsonParsingState::Finished
    }

    /// Marks the stream as finished; the path stays as it was.
    pub fn finish(&mut self)
        requires
            old(self).wf(),
        ensures
            final(self).view() == (ContextView { state: JsonParsingState::Finished, ..old(self).view() }),
            final(self).history() == old(self).history(),
            final(self).wf(),
    {
        self.state = JsonParsingState::Finished;
    }

    fn pop_scope(&mut self)
        requires
            old(self).scopes.len() > 0,
        ensures
            final(self).view() == pop_context(old(self).view()),
            final(self).history() == old(self).history(),
    {
        self.scopes.pop();
        self.state = if self.scopes.len() == 0 {
            JsonParsingState::Value
        } else {
            JsonParsingState::AfterValue
        };
    }

    fn replace_top(&mut self, s: Scope)
        requires
            old(self).scopes.len() > 0,
        ensures
            final(self).scopes@ == old(self).scopes@.drop_last().push(s),
            final(self).state == old(self).state,
            final(self).next_key == old(self).next_key,
            final(self).history() == old(self).history(),
    {
        self.scopes.pop();
        self.scopes.push(s);
    }

    fn start_value(&mut self, t: &Token) -> (ok: bool)
        ensures
            ok == start_value(old(self).view(), *t) is Some,
            ok ==> final(self).view() == start_value(old(self).view(), *t).unwrap(),
            !ok ==> final(self).view() == old(self).view(),
            final(self).history() == old(self).history(),
    {
        match t {
            Token::ObjectStart => {
                self.scopes.push(Scope::Object);
                self.state = JsonParsingState::FirstObjectKey;
                true
            },
            Token::ArrayStart => {
                self.scopes.push(Scope::Array(0));
                self.state = JsonParsingState::FirstArrayValue;
                true
            },
            Token::String(_) | Token::Number(_) | Token::True | Token::False | Token::Null => {
                self.state = JsonParsingState::AfterValue;
                true
            },
            _ => false,
        }
    }

    /// One transition of the automaton. On a refused token nothing changes.
    pub fn accept(&mut self, t: &Token) -> (ok: bool)
        requires
            old(self).wf(),
        ensures
            ok == step(old(self).view(), *t) is Some,
            ok ==> final(self).view() == step(old(self).view(), *t).unwrap() && final(self).history()
                == old(self).history().push(*t),
            !ok ==> final(self).view() == old(self).view() && final(self).history() == old(self).history(),
            final(self).wf(),
    {
        let ghost before = self.view();
        let ok = match self.state {
            JsonParsingState::Finished => false,
            JsonParsingState::Value => self.start_value(t),
            JsonParsingState::FirstArrayValue => {
                if let Token::ArrayEnd = t {
                    self.pop_scope();
                    true
                } else {
                    self.start_value(t)
                }
            },
            JsonParsingState::FirstObjectKey => match t {
                Token::ObjectEnd => {
                    self.pop_scope();
                    true
                },
                Token::String(k) => {
                    self.replace_top(Scope::ObjectAtKey { index: 0, key: k.clone() });
                    self.state = JsonParsingState::ObjectColon;
                    true
                },
                _ => false,
            },
            JsonParsingState::ObjectKey => match t {
                Token::String(k) => {
                    let index = self.next_key;
                    self.replace_top(Scope::ObjectAtKey { index, key: k.clone() });
                    self.state = JsonParsingState::ObjectColon;
                    true
                },
                _ => false,
            },
            JsonParsingState::ObjectColon => {
                if let Token::Colon = t {
                    self.state = JsonParsingState::Value;
                    true
                } else {
                    false
                }
            },
            JsonParsingState::AfterValue => {
                if self.scopes.len() == 0 {
                    self.start_value(t)
                } else {
                    let last = self.scopes.len() - 1;
                    match t {
                        Token::Comma => match &self.scopes[last] {
                            Scope::Array(i) => {
                                let i = *i;
                                if i < usize::MAX {
                                    self.replace_top(Scope::Array(i + 1));
                                    self.state = JsonParsingState::Value;
                                    true
                                } else {
                                    false
                                }
                            },
                            Scope::ObjectAtKey { index, key: _ } => {
                                let index = *index;
                                if index < usize::MAX {
                                    self.replace_top(Scope::Object);
                                    self.next_key = index + 1;
                                    self.state = JsonParsingState::ObjectKey;
                                    true
                                } else {
                                    false
                                }
                            },
                            Scope::Object => false,
                        },
                        Token::ArrayEnd => {
                            if let Scope::Array(_) = &self.scopes[last] {
                                self.pop_scope();
                                true
                            } else {
                                false
                            }
                        },
                        Token::ObjectEnd => {
                            if let Scope::Array(_) = &self.scopes[last] {
                                false
                            } else {
                                self.pop_scope();
                                true
                            }
                        },
                        _ => false,
                    }
                }
            },
        };
        if ok {
            self.accepted = Ghost(self.accepted@.push(*t));
            proof {
                let ts = self.accepted@;
                assert(ts.drop_last() =~= old(self).accepted@);
            }
        }
        ok
    }

    /// One pull through the validator: `item` is what the upstream gave
    /// (`None` when it ended), the result is what the validator yields.
    pub fn feed(&mut self, item: Option<Item>) -> (r: Option<Item>)
        requires
            old(self).wf(),
        ensures
            (final(self).view(), r) == feed_model(old(self).view(), item),
            final(self).wf(),
            r matches Some(Ok(t)) ==> final(self).history() == old(self).history().push(t),
            !(r is Some && r.unwrap() is Ok) ==> final(self).history() == old(self).history(),
    {
        if self.state == JsonParsingState::Finished {
            return None;
        }
        match item {
            None => {
                self.state = JsonParsingState::Finished;
                if self.scopes.len() == 0 {
                    None
                } else {
                    Some(Err(JQErr::UnexpectedEOF))
                }
            },
            Some(Err(e)) => {
                self.state = JsonParsingState::Finished;
                Some(Err(e))
            },
            Some(Ok(t)) => {
                if self.accept(&t) {
                    Some(Ok(t))
                } else {
                    self.state = JsonParsingState::Finished;
                    Some(Err(JQErr::InvalidStream))
                }
            },
        }
    }
}

} // verus!
