use vstd::prelude::*;

use crate::error::{Item, JQErr};
use crate::lexical::{
    decodes, int_start, is_control, is_digit, is_ws, keyword_of, mismatch_from, starts_lexeme,
    is_punct, keyword_at, keyword_text, lemma_skip_ws_bounds, lexes, punct_token, skip_ws, string_at,
    number_at,
};
use crate::scope::Scope;
use crate::jq_stream::fused;
use crate::stream_context::{
    has_error, tokens_of,
    initial_context, run_tokens, step, ContextView, JsonParsingState, StreamContext,
};
use crate::token::Token;
use crate::tokenizer::{is_lexical_error, loc_is, Tokenizer};
use crate::char_locations::loc_at;
use crate::round_trip::{lemma_lexes_kind, lemma_lexes_unique, lemma_same_token_step};

verus! {

/// What one pull of a raw token stream does: `before` is the stream before
/// it, `r` what it yields and `after` the stream after it.
pub open spec fn pull(before: RawTokenStream, r: Option<Item>, after: RawTokenStream) -> bool {
    &&& after.wf()
    &&& after.chars() == before.chars()
    &&& run_tokens(initial_context(), after.history()) is Some
    &&& before.is_finished() ==> r is None && after.is_finished() && after.history() == before.history()
    &&& !before.is_finished() ==> after.remaining() < before.remaining()
    &&& (r matches Some(Ok(t)) ==> after.history() == before.history().push(t) && !after.is_finished())
    &&& (r matches Some(Err(e)) ==> after.is_finished() && after.history() == before.history())
    &&& r is None ==> after.is_finished() && after.history() == before.history()
    &&& r is None && !before.is_finished() ==> after.view().path.len() == 0
    &&& (r matches Some(Ok(t)) ==> step(before.view(), t) == Some(after.view()) && lexes(
            before.chars(),
            skip_ws(before.chars(), before.position() as int),
            after.position() as int,
            t,
        ))
    &&& (r matches Some(Err(e)) ==> is_lexical_error(e))
    &&& !before.is_finished() ==> {
            let s = before.chars();
            let start = skip_ws(s, before.position() as int);
            let c = before.view();
            &&& start == s.len() ==> (r is None <==> c.path.len() == 0)
            &&& start == s.len() && c.path.len() > 0 ==> r == Some(Err::<Token, JQErr>(JQErr::UnexpectedEOF))
            &&& start < s.len() && is_punct(s[start]) && step(c, punct_token(s[start])) is Some ==> r
                == Some(Ok::<Token, JQErr>(punct_token(s[start])))
            &&& string_at(s, start) && (forall|k: String| #[trigger] step(c, Token::String(k)) is Some)
                ==> (r matches Some(Ok(Token::String(_))))
            &&& number_at(s, start) && (forall|n: String| #[trigger] step(c, Token::Number(n)) is Some)
                ==> (r matches Some(Ok(Token::Number(_))))
            &&& keyword_at(s, start, keyword_text(Token::True)) && step(c, Token::True) is Some ==> r
                == Some(Ok::<Token, JQErr>(Token::True))
            &&& keyword_at(s, start, keyword_text(Token::False)) && step(c, Token::False) is Some ==> r
                == Some(Ok::<Token, JQErr>(Token::False))
            &&& keyword_at(s, start, keyword_text(Token::Null)) && step(c, Token::Null) is Some ==> r
                == Some(Ok::<Token, JQErr>(Token::Null))
            &&& forall|e: int, t: Token|
                #![trigger lexes(s, start, e, t), step(c, t)]
                lexes(s, start, e, t) && step(c, t) is None ==> (r matches Some(
                    Err(JQErr::UnexpectedCharacter(l)),
                ) && loc_is(l, loc_at(s, start as nat)))
            &&& forall|p: int, v: Seq<char>|
                #![trigger decodes(s.subrange(start + 1, p), v)]
                start < s.len() && s[start] == '"' && start + 1 <= p < s.len() && decodes(
                    s.subrange(start + 1, p),
                    v,
                ) && is_control(s[p]) ==> (r matches Some(Err(JQErr::UnescapedEscapeCharacter(l))) && loc_is(
                    l,
                    loc_at(s, p as nat),
                ))
            &&& start < s.len() && !starts_lexeme(s[start]) && !is_ws(s[start]) ==> (r matches Some(
                Err(JQErr::UnexpectedCharacter(l)),
            ) && loc_is(l, loc_at(s, start as nat)))
            &&& start < s.len() && keyword_of(s[start]) is Some && !keyword_at(
                s,
                start,
                keyword_text(keyword_of(s[start]).unwrap()),
            ) ==> (r matches Some(Err(JQErr::UnexpectedCharacter(l))) && loc_is(
                l,
                loc_at(
                    s,
                    (start + mismatch_from(s, start, keyword_text(keyword_of(s[start]).unwrap()), 1)) as nat,
                ),
            ))
            &&& start < s.len() && (s[start] == '-' || is_digit(s[start])) && int_start(s, start) + 1 < s.len()
                && s[int_start(s, start)] == '0' && is_digit(s[int_start(s, start) + 1]) ==> (r matches Some(
                Err(JQErr::IllegalLeading0(l)),
            ) && loc_is(l, loc_at(s, (int_start(s, start) + 1) as nat)))
        }
}

/// `r` is a raw stream at the start of the text `cs`.
pub open spec fn fresh_over(r: RawTokenStream, cs: Seq<char>) -> bool {
    &&& r.wf()
    &&& !r.is_finished()
    &&& r.chars() == cs
    &&& r.position() == 0
    &&& r.history() == Seq::<Token>::empty()
    &&& r.view() == initial_context()
}

/// The raw token stream of the text `cs` yields `src` and then ends.
pub open spec fn json_yields(cs: Seq<char>, src: Seq<Item>) -> bool {
    exists|r: RawTokenStream| #[trigger] fresh_over(r, cs) && raw_yields(r, src)
}

/// Pulling repeatedly from `r` yields the items `src` and then ends.
pub open spec fn raw_yields(r: RawTokenStream, src: Seq<Item>) -> bool
    decreases src.len(),
{
    if src.len() == 0 {
        exists|r2: RawTokenStream| #[trigger] pull(r, None, r2)
    } else {
        exists|r2: RawTokenStream| #[trigger] pull(r, Some(src[0]), r2) && raw_yields(r2, src.drop_first())
    }
}

/// The JSON tokens of a character source, checked against the JSON grammar.
/// Grammar errors carry the source location of the offending token.
pub struct RawTokenStream {
    source: Tokenizer,
    context: StreamContext,
    finished: bool,
}

impl RawTokenStream {
    /// The tokens yielded so far.
    pub closed spec fn history(&self) -> Seq<Token> {
        self.context.history()
    }

    pub closed spec fn view(&self) -> ContextView {
        self.context.view()
    }

    pub closed spec fn is_finished(&self) -> bool {
        self.finished
    }

    pub closed spec fn chars(&self) -> Seq<char> {
        self.source.source()
    }

    /// The number of characters consumed so far.
    pub closed spec fn position(&self) -> nat {
        self.source.position()
    }

    /// A measure that every pull decreases until the stream is finished.
    pub closed spec fn remaining(&self) -> nat {
        if self.finished {
            0
        } else {
            (self.source.source().len() - self.source.position() + 1) as nat
        }
    }

    pub closed spec fn wf(&self) -> bool {
        &&& self.source.wf()
        &&& self.context.wf()
        &&& !self.finished ==> self.context.view().state != JsonParsingState::Finished
        &&& !self.finished ==> !self.source.is_done()
    }

    pub fn new(chars: Vec<char>) -> (r: RawTokenStream)
        ensures
            r.wf(),
            !r.is_finished(),
            r.chars() == chars@,
            r.history() == Seq::<Token>::empty(),
            r.view() == initial_context(),
            r.position() == 0,
    {
        RawTokenStream { source: Tokenizer::new(chars), context: StreamContext::new(), finished: false }
    }

    /// The structural path before the next token.
    pub fn get_path(&self) -> (r: &Vec<Scope>)
        ensures
            r@ == self.view().path,
    {
        self.context.get_path()
    }

    /// The next token or error. The tokens yielded so far are always a run of
    /// the grammar automaton; the stream ends cleanly only where every
    /// document is complete, and it yields nothing after its first error.
    pub fn next(&mut self) -> (r: Option<Item>)
        requires
            old(self).wf(),
        ensures
            final(self).wf(),
            pull(*old(self), r, *final(self)),
    {
        if self.finished {
            return None;
        }
        let ghost pos0 = self.source.position();
        proof {
            self.source.lemma_position_bounded();
            lemma_skip_ws_bounds(self.source.source(), pos0 as int);
        }
        match self.source.next() {
            None => {
                self.finished = true;
                self.context.finish();
                if self.context.get_path().len() == 0 {
                    None
                } else {
                    Some(Err(JQErr::UnexpectedEOF))
                }
            },
            Some(Err(e)) => {
                proof {
                    let s = self.source.source();
                    let start = skip_ws(s, pos0 as int);
                    assert forall|e2: int, t1: Token| #![trigger lexes(s, start, e2, t1)] !lexes(s, start, e2, t1) by {
                        if lexes(s, start, e2, t1) {
                            lemma_lexes_kind(s, start, e2, t1);
                        }
                    }
                }
                self.finished = true;
                self.context.finish();
                Some(Err(e))
            },
            Some(Ok((t, span))) => {
                proof {
                    self.source.lemma_position_bounded();
                    let s = self.source.source();
                    let start = skip_ws(s, pos0 as int);
                    assert forall|e: int, t1: Token|
                        #![trigger lexes(s, start, e, t1), step(self.context.view(), t1)]
                        lexes(s, start, e, t1) implies (step(self.context.view(), t1) is Some <==> step(
                        self.context.view(),
                        t,
                    ) is Some) by {
                        lemma_lexes_unique(s, start, e, t1, self.source.position() as int, t);
                        lemma_same_token_step(self.context.view(), t1, t);
                    }
                }
                if self.context.accept(&t) {
                    Some(Ok(t))
                } else {
                    self.finished = true;
                    self.context.finish();
                    Some(Err(JQErr::UnexpectedCharacter(span.start)))
                }
            },
        }
    }
}

proof fn lemma_wf_history(r: RawTokenStream)
    requires
        r.wf(),
    ensures
        run_tokens(initial_context(), r.history()) is Some,
        run_tokens(initial_context(), r.history()).unwrap().path == r.view().path,
{
}

proof fn lemma_trace(r: RawTokenStream, src: Seq<Item>)
    requires
        r.wf(),
        raw_yields(r, src),
    ensures
        r.is_finished() ==> src.len() == 0,
        fused(src),
        run_tokens(initial_context(), r.history() + tokens_of(src)) is Some,
        !has_error(src) && !r.is_finished() ==> run_tokens(
            initial_context(),
            r.history() + tokens_of(src),
        ).unwrap().path.len() == 0,
    decreases src.len(),
{
    lemma_wf_history(r);
    if src.len() == 0 {
        assert(r.history() + tokens_of(src) =~= r.history());
        let r2 = choose|r2: RawTokenStream| #[trigger] pull(r, None, r2);
        lemma_wf_history(r2);
    } else {
        let x = src[0];
        let rest = src.drop_first();
        let r2 = choose|r2: RawTokenStream| #[trigger] pull(r, Some(x), r2) && raw_yields(r2, rest);
        lemma_trace(r2, rest);
        match x {
            Ok(t) => {
                assert(tokens_of(src) == seq![t] + tokens_of(rest));
                assert(r.history() + tokens_of(src) =~= r2.history() + tokens_of(rest));
                assert forall|i: int| 0 <= i < src.len() - 1 implies (#[trigger] src[i]) is Ok by {
                    if i > 0 {
                        assert(src[i] == rest[i - 1]);
                    }
                }
                if !has_error(src) {
                    assert forall|i: int| 0 <= i < rest.len() implies !((#[trigger] rest[i]) is Err) by {
                        assert(rest[i] == src[i + 1]);
                    }
                }
            },
            Err(e) => {
                assert(rest.len() == 0);
                assert(tokens_of(src) == tokens_of(rest));
                assert(tokens_of(rest) =~= Seq::<Token>::empty());
                assert(r.history() + tokens_of(src) =~= r.history());
                assert(src[0] is Err);
            },
        }
    }
}

/// Whatever the text, the items that its raw token stream yields are tokens
/// that the JSON automaton accepts in order, with at most one error, which is
/// then the last item; and when no error comes, every document is complete.
pub proof fn lemma_raw_grammar_closure(cs: Seq<char>, src: Seq<Item>)
    requires
        json_yields(cs, src),
    ensures
        run_tokens(initial_context(), tokens_of(src)) is Some,
        fused(src),
        !has_error(src) ==> run_tokens(initial_context(), tokens_of(src)).unwrap().path.len() == 0,
{
    let r = choose|r: RawTokenStream| #[trigger] fresh_over(r, cs) && raw_yields(r, src);
    lemma_trace(r, src);
    assert(r.history() + tokens_of(src) =~= tokens_of(src));
}

} // verus!
