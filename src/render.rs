use vstd::prelude::*;

use crate::compact::{compact_text, CompactChars};
use crate::error::{Item, JQErr};
use crate::pretty::{pretty_text, PrettyChars};
use crate::array_index::oks;
use crate::stream_context::{
    depth_change, feed_model, has_error, initial_context, lemma_grammar_closure, lemma_scope_well_formed,
    lemma_step_legal, run_tokens, step, tokens_of, validate_run, ContextView,
};
use crate::text::string_from_chars;
use crate::token::Token;

verus! {

/// `r` with `a` put before its text.
pub open spec fn prepend(a: Seq<char>, r: Result<Seq<char>, JQErr>) -> Result<Seq<char>, JQErr> {
    match r {
        Ok(s) => Ok(a + s),
        Err(e) => Err(e),
    }
}

pub proof fn lemma_prepend_twice(a: Seq<char>, b: Seq<char>, r: Result<Seq<char>, JQErr>)
    ensures
        prepend(a, prepend(b, r)) == prepend(a + b, r),
{
    if let Ok(s) = r {
        assert(a + (b + s) =~= (a + b) + s);
    }
}

pub proof fn lemma_prepend_empty(r: Result<Seq<char>, JQErr>)
    ensures
        prepend(Seq::empty(), r) == r,
{
    if let Ok(s) = r {
        assert(Seq::<char>::empty() + s =~= s);
    }
}

/// The compact text of the stream `items` read from context `c`, or the first
/// error it carries.
pub open spec fn compact_run(c: ContextView, items: Seq<Item>) -> Result<Seq<char>, JQErr>
    decreases items.len(),
{
    if items.len() == 0 {
        match feed_model(c, None).1 {
            Some(Err(e)) => Err(e),
            _ => Ok(Seq::empty()),
        }
    } else {
        let (q, o) = feed_model(c, Some(items[0]));
        match o {
            None => compact_run(q, items.drop_first()),
            Some(Err(e)) => Err(e),
            Some(Ok(t)) => prepend(
                compact_text(t) + if q.path.len() == 0 {
                    seq!['\n']
                } else {
                    Seq::<char>::empty()
                },
                compact_run(q, items.drop_first()),
            ),
        }
    }
}

/// The pretty text of the stream `items` read from context `c` after the
/// token `prev`, or the first error it carries.
pub open spec fn pretty_run(c: ContextView, prev: Option<Token>, items: Seq<Item>) -> Result<Seq<char>, JQErr>
    decreases items.len(),
{
    if items.len() == 0 {
        match feed_model(c, None).1 {
            Some(Err(e)) => Err(e),
            _ => Ok(Seq::empty()),
        }
    } else {
        let (q, o) = feed_model(c, Some(items[0]));
        match o {
            None => pretty_run(q, prev, items.drop_first()),
            Some(Err(e)) => Err(e),
            Some(Ok(t)) => prepend(pretty_text(prev, c, q, t), pretty_run(q, Some(t), items.drop_first())),
        }
    }
}

/// The compact text of the tokens `ts` read from nesting depth `d`: the text
/// of each token, and a newline wherever a top-level value completes.
pub open spec fn documents_text(d: int, ts: Seq<Token>) -> Seq<char>
    decreases ts.len(),
{
    if ts.len() == 0 {
        Seq::empty()
    } else {
        let d2 = d + depth_change(ts[0]);
        compact_text(ts[0]) + (if d2 == 0 {
            seq!['\n']
        } else {
            Seq::<char>::empty()
        }) + documents_text(d2, ts.drop_first())
    }
}

/// A prefix of an accepted token sequence is accepted.
pub proof fn lemma_run_prefix(h: Seq<Token>, ts: Seq<Token>)
    requires
        run_tokens(initial_context(), h + ts) is Some,
    ensures
        run_tokens(initial_context(), h) is Some,
    decreases ts.len(),
{
    if ts.len() > 0 {
        assert((h + ts).drop_last() =~= h + ts.drop_last());
        lemma_run_prefix(h, ts.drop_last());
    } else {
        assert(h + ts =~= h);
    }
}

proof fn lemma_no_error_all_tokens(s: Seq<Item>)
    requires
        !has_error(s),
    ensures
        s == oks(tokens_of(s)),
    decreases s.len(),
{
    if s.len() == 0 {
        assert(oks(tokens_of(s)) =~= s);
    } else {
        assert(!(s[0] is Err));
        assert forall|i: int| 0 <= i < s.drop_first().len() implies !(#[trigger] s.drop_first()[i] is Err) by {
            assert(s.drop_first()[i] == s[i + 1]);
        }
        lemma_no_error_all_tokens(s.drop_first());
        let t = s[0].unwrap();
        let rest = tokens_of(s.drop_first());
        assert(tokens_of(s) == seq![t] + rest);
        assert(s[0] == Ok::<Token, JQErr>(t));
        assert forall|i: int| 0 <= i < s.len() implies oks(tokens_of(s))[i] == s[i] by {
            if i > 0 {
                assert(tokens_of(s)[i] == rest[i - 1]);
                assert(oks(rest)[i - 1] == s.drop_first()[i - 1]);
            }
        }
        assert(oks(tokens_of(s)) =~= s);
    }
}

proof fn lemma_render_accepted(c: ContextView, h: Seq<Token>, ts: Seq<Token>)
    requires
        run_tokens(initial_context(), h) == Some(c),
        run_tokens(initial_context(), h + ts) is Some,
        run_tokens(initial_context(), h + ts).unwrap().path.len() == 0,
    ensures
        compact_run(c, oks(ts)) == Ok::<Seq<char>, JQErr>(documents_text(c.path.len() as int, ts)),
    decreases ts.len(),
{
    lemma_scope_well_formed(h);
    if ts.len() == 0 {
        assert(h + ts =~= h);
        assert(oks(ts) =~= Seq::<Item>::empty());
    } else {
        let t = ts[0];
        let h2 = h.push(t);
        let rest = ts.drop_first();
        assert(h2 + rest =~= h + ts);
        lemma_run_prefix(h2, rest);
        assert(h2.drop_last() =~= h);
        let c2 = step(c, t).unwrap();
        lemma_step_legal(c, t);
        assert(oks(ts)[0] == Ok::<Token, JQErr>(t));
        assert(oks(ts).drop_first() =~= oks(rest));
        lemma_render_accepted(c2, h2, rest);
        let piece = compact_text(t) + if c2.path.len() == 0 {
            seq!['\n']
        } else {
            Seq::<char>::empty()
        };
        assert(piece + documents_text(c2.path.len() as int, rest) =~= documents_text(
            c.path.len() as int,
            ts,
        ));
    }
}

/// Rendering a validated stream that carries no error keeps its sequence of
/// top-level values: the text is the text of each token, in order, with a
/// newline exactly where a top-level value completes.
pub proof fn lemma_documents_preserved(s: Seq<Item>)
    ensures
        !has_error(validate_run(initial_context(), s)) ==> compact_run(
            initial_context(),
            validate_run(initial_context(), s),
        ) == Ok::<Seq<char>, JQErr>(documents_text(0, tokens_of(validate_run(initial_context(), s)))),
{
    let out = validate_run(initial_context(), s);
    if !has_error(out) {
        lemma_grammar_closure(s);
        lemma_no_error_all_tokens(out);
        assert(Seq::<Token>::empty() + tokens_of(out) =~= tokens_of(out));
        lemma_render_accepted(initial_context(), Seq::empty(), tokens_of(out));
    }
}

/// Renders a token stream as compact JSON text, one line per top-level value;
/// the first error of the stream is the result instead.
pub fn render_compact(stream: Vec<Item>) -> (r: Result<String, JQErr>)
    ensures
        match compact_run(initial_context(), stream@) {
            Ok(s) => r matches Ok(t) && t@ == s,
            Err(e) => r == Err::<String, JQErr>(e),
        },
{
    let ghost all = stream@;
    let mut rest: Vec<Item> = Vec::new();
    let mut items = stream;
    while items.len() > 0
        invariant
            all == stream@,
            rest@.len() + items@.len() == all.len(),
            forall|x: int| 0 <= x < rest@.len() ==> rest@[x] == all[all.len() - 1 - x],
            items@ == all.subrange(0, items@.len() as int),
        decreases items.len(),
    {
        let x = items.pop().unwrap();
        rest.push(x);
    }
    let mut printer = CompactChars::new();
    let mut out: Vec<char> = Vec::new();
    proof {
        assert(all.subrange(0, all.len() as int) =~= all);
        lemma_prepend_empty(compact_run(initial_context(), all));
    }
    while rest.len() > 0
        invariant
            all == stream@,
            printer.wf(),
            rest@.len() <= all.len(),
            forall|x: int| 0 <= x < rest@.len() ==> rest@[x] == all[all.len() - 1 - x],
            compact_run(initial_context(), all) == prepend(
                out@,
                compact_run(printer.context(), all.subrange(all.len() - rest@.len(), all.len() as int)),
            ),
        decreases rest.len(),
    {
        let ghost k = all.len() - rest@.len();
        let ghost tail = all.subrange(k, all.len() as int);
        let x = rest.pop().unwrap();
        assert(x == tail[0]);
        assert(tail.drop_first() =~= all.subrange(k + 1, all.len() as int));
        let ghost before = out@;
        let ghost c0 = printer.context();
        match printer.feed(Some(x), &mut out) {
            Some(e) => {
                assert(compact_run(c0, tail) == Err::<Seq<char>, JQErr>(e));
                return Err(e);
            },
            None => {
                proof {
                    let (q, o) = feed_model(c0, Some(x));
                    if let Some(Ok(t)) = o {
                        let piece = compact_text(t) + if q.path.len() == 0 {
                            seq!['\n']
                        } else {
                            Seq::<char>::empty()
                        };
                        assert(out@ == before + piece);
                        lemma_prepend_twice(before, piece, compact_run(q, tail.drop_first()));
                    } else {
                        assert(out@ == before);
                    }
                }
            },
        }
    }
    match printer.feed(None, &mut out) {
        Some(e) => Err(e),
        None => {
            assert(all.subrange(all.len() as int, all.len() as int) =~= Seq::<Item>::empty());
            assert(out@ =~= out@ + Seq::<char>::empty());
            Ok(string_from_chars(&out))
        },
    }
}

/// Renders a token stream as indented JSON text; the first error of the
/// stream is the result instead.
pub fn render_pretty(stream: Vec<Item>) -> (r: Result<String, JQErr>)
    ensures
        match pretty_run(initial_context(), None, stream@) {
            Ok(s) => r matches Ok(t) && t@ == s,
            Err(e) => r == Err::<String, JQErr>(e),
        },
{
    let ghost all = stream@;
    let mut rest: Vec<Item> = Vec::new();
    let mut items = stream;
    while items.len() > 0
        invariant
            all == stream@,
            rest@.len() + items@.len() == all.len(),
            forall|x: int| 0 <= x < rest@.len() ==> rest@[x] == all[all.len() - 1 - x],
            items@ == all.subrange(0, items@.len() as int),
        decreases items.len(),
    {
        let x = items.pop().unwrap();
        rest.push(x);
    }
    let mut printer = PrettyChars::new();
    let mut out: Vec<char> = Vec::new();
    proof {
        assert(all.subrange(0, all.len() as int) =~= all);
        lemma_prepend_empty(pretty_run(initial_context(), None, all));
    }
    while rest.len() > 0
        invariant
            all == stream@,
            printer.wf(),
            rest@.len() <= all.len(),
            forall|x: int| 0 <= x < rest@.len() ==> rest@[x] == all[all.len() - 1 - x],
            pretty_run(initial_context(), None, all) == prepend(
                out@,
                pretty_run(
                    printer.context(),
                    printer.previous(),
                    all.subrange(all.len() - rest@.len(), all.len() as int),
                ),
            ),
        decreases rest.len(),
    {
        let ghost k = all.len() - rest@.len();
        let ghost tail = all.subrange(k, all.len() as int);
        let x = rest.pop().unwrap();
        assert(x == tail[0]);
        assert(tail.drop_first() =~= all.subrange(k + 1, all.len() as int));
        let ghost before = out@;
        let ghost c0 = printer.context();
        let ghost prev = printer.previous();
        match printer.feed(Some(x), &mut out) {
            Some(e) => {
                assert(pretty_run(c0, prev, tail) == Err::<Seq<char>, JQErr>(e));
                return Err(e);
            },
            None => {
                proof {
                    let (q, o) = feed_model(c0, Some(x));
                    if let Some(Ok(t)) = o {
                        let piece = pretty_text(prev, c0, q, t);
                        lemma_prepend_twice(before, piece, pretty_run(q, Some(t), tail.drop_first()));
                    }
                }
            },
        }
    }
    match printer.feed(None, &mut out) {
        Some(e) => Err(e),
        None => {
            assert(all.subrange(all.len() as int, all.len() as int) =~= Seq::<Item>::empty());
            assert(out@ =~= out@ + Seq::<char>::empty());
            Ok(string_from_chars(&out))
        },
    }
}

} // verus!
