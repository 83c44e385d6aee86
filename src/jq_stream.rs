use vstd::prelude::*;

use crate::array_index::ArraySliceIndex;
use crate::error::{Item, JQErr};
use crate::object_index::ObjectKeyIndex;
use crate::raw::{fresh_over, json_yields, pull, raw_yields, RawTokenStream};
use crate::render::{compact_run, pretty_run, render_compact, render_pretty};
use crate::sanitized::Sanitized;
use crate::slurp::Slurp;
use crate::stream_context::{feed_model, initial_context, opt_seq, ContextView, JsonParsingState};
use crate::text::chars_of;
use crate::token::Token;
use crate::values::{values_action, Values};
use crate::object_index::{key_action, key_matched_after};
use crate::array_index::{elements_after, index_action, index_matched_after, replay};
use crate::operators::{emitted, lemma_acted_emitted, messages_are, Action};

verus! {

/// `after` is `before` with items appended that are tokens except perhaps
/// the last; nothing is appended once `was_done`, and an error appended
/// leaves `now_done`.
pub open spec fn fused_extension(before: Seq<Item>, after: Seq<Item>, was_done: bool, now_done: bool) -> bool {
    &&& after.len() >= before.len()
    &&& after.subrange(0, before.len() as int) == before
    &&& was_done ==> after == before && now_done
    &&& forall|i: int| before.len() <= i < after.len() - 1 ==> (#[trigger] after[i]) is Ok
    &&& (after.len() > before.len() && after.last() is Err) ==> now_done
}

/// A stream in which only the last item can be an error.
pub open spec fn fused(s: Seq<Item>) -> bool {
    forall|i: int| 0 <= i < s.len() - 1 ==> (#[trigger] s[i]) is Ok
}

pub proof fn lemma_fused_extension_trans(
    a: Seq<Item>,
    b: Seq<Item>,
    c: Seq<Item>,
    d0: bool,
    d1: bool,
    d2: bool,
)
    requires
        fused_extension(a, b, d0, d1),
        fused_extension(b, c, d1, d2),
    ensures
        fused_extension(a, c, d0, d2),
{
    assert(c.subrange(0, a.len() as int) =~= b.subrange(0, a.len() as int));
    assert forall|i: int| a.len() <= i < c.len() - 1 implies (#[trigger] c[i]) is Ok by {
        if i < b.len() {
            assert(c[i] == b[i]);
            if i == b.len() - 1 {
                if b[i] is Err {
                    assert(b.last() is Err);
                    assert(c == b);
                }
            }
        }
    }
    if c.len() > a.len() && c.last() is Err {
        if c.len() == b.len() {
            assert(c =~= b);
        }
    }
}

/// The abstract state of a pipeline stage.
pub enum OpModel {
    Sanitize { ctx: ContextView },
    AtKey {
        ctx: ContextView,
        key: Seq<char>,
        strict: bool,
        matched: bool,
        finished: bool,
        messages: Seq<String>,
    },
    AtIndex {
        ctx: ContextView,
        index: int,
        strict: bool,
        matched: bool,
        finished: bool,
        elements: Seq<Seq<Token>>,
        messages: Seq<String>,
    },
    Values { ctx: ContextView, strict: bool, finished: bool, messages: Seq<String> },
    Slurp { ctx: ContextView, started: bool, has_value: bool, finished: bool },
}

/// A stage's state and what it yields after one pull of its upstream
/// (`None`: the upstream ended).
pub open spec fn op_next(m: OpModel, item: Option<Item>) -> (OpModel, Seq<Item>) {
    match m {
        OpModel::Sanitize { ctx } => {
            let (q, o) = feed_model(ctx, item);
            (OpModel::Sanitize { ctx: q }, opt_seq(o))
        },
        OpModel::AtKey { ctx, key, strict, matched, finished, messages } => if finished {
            (m, Seq::empty())
        } else {
            let (q, o) = feed_model(ctx, item);
            match o {
                None => (OpModel::AtKey { ctx: q, key, strict, matched, finished: false, messages }, Seq::empty()),
                Some(Err(e)) => (
                    OpModel::AtKey { ctx: q, key, strict, matched: false, finished: true, messages },
                    seq![Err(e)],
                ),
                Some(Ok(t)) => {
                    let a = key_action(key, strict, matched, ctx, t);
                    let done = a == Action::Fail;
                    (
                        OpModel::AtKey {
                            ctx: q,
                            key,
                            strict,
                            matched: if done {
                                false
                            } else {
                                key_matched_after(key, matched, ctx, t)
                            },
                            finished: done,
                            messages,
                        },
                        emitted(a, t, messages),
                    )
                },
            }
        },
        OpModel::AtIndex { ctx, index, strict, matched, finished, elements, messages } => if finished {
            (m, Seq::empty())
        } else {
            let (q, o) = feed_model(ctx, item);
            match o {
                None => (
                    OpModel::AtIndex { ctx: q, index, strict, matched, finished: false, elements, messages },
                    Seq::empty(),
                ),
                Some(Err(e)) => (
                    OpModel::AtIndex {
                        ctx: q,
                        index,
                        strict,
                        matched: false,
                        finished: true,
                        elements: Seq::empty(),
                        messages,
                    },
                    seq![Err(e)],
                ),
                Some(Ok(t)) => {
                    let a = index_action(index, strict, matched, ctx, t);
                    let done = a == Action::Fail;
                    let n = if index < 0 {
                        (-index) as nat
                    } else {
                        0
                    };
                    (
                        OpModel::AtIndex {
                            ctx: q,
                            index,
                            strict,
                            matched: if done {
                                false
                            } else {
                                index_matched_after(index, matched, ctx, t)
                            },
                            finished: done,
                            elements: if index < 0 && !done {
                                elements_after(elements, ctx, t)
                            } else {
                                Seq::empty()
                            },
                            messages,
                        },
                        if index < 0 && ctx.path.len() == 1 && t is ArrayEnd {
                            replay(elements, n)
                        } else {
                            emitted(a, t, messages)
                        },
                    )
                },
            }
        },
        OpModel::Values { ctx, strict, finished, messages } => if finished {
            (m, Seq::empty())
        } else {
            let (q, o) = feed_model(ctx, item);
            match o {
                None => (OpModel::Values { ctx: q, strict, finished: false, messages }, Seq::empty()),
                Some(Err(e)) => (OpModel::Values { ctx: q, strict, finished: true, messages }, seq![Err(e)]),
                Some(Ok(t)) => {
                    let a = values_action(strict, ctx, t);
                    (OpModel::Values { ctx: q, strict, finished: a == Action::Fail, messages }, emitted(a, t, messages))
                },
            }
        },
        OpModel::Slurp { ctx, started, has_value, finished } => if finished {
            (m, Seq::empty())
        } else {
            let (q, o) = feed_model(ctx, item);
            let opening = if started {
                Seq::<Item>::empty()
            } else {
                seq![Ok(Token::ArrayStart)]
            };
            match o {
                None => (
                    OpModel::Slurp { ctx: q, started: true, has_value: false, finished: true },
                    opening + seq![Ok(Token::ArrayEnd)],
                ),
                Some(Err(e)) => (
                    OpModel::Slurp { ctx: q, started: true, has_value: false, finished: true },
                    opening + seq![Err(e)],
                ),
                Some(Ok(t)) => {
                    let separator = if ctx.path.len() == 0 && has_value {
                        seq![Ok(Token::Comma)]
                    } else {
                        Seq::<Item>::empty()
                    };
                    (
                        OpModel::Slurp {
                            ctx: q,
                            started: true,
                            has_value: has_value || ctx.path.len() == 0,
                            finished: false,
                        },
                        opening + separator + seq![Ok(t)],
                    )
                },
            }
        },
    }
}

/// `m` is a fresh `.[key]` stage (`.[key]?` when not strict).
pub open spec fn is_key_stage(m: OpModel, key: Seq<char>, strict: bool) -> bool {
    m matches OpModel::AtKey { ctx, key: k, strict: st, matched, finished, messages } && ctx
        == initial_context() && k == key && st == strict && !matched && !finished && messages_are(
        messages,
        "Cannot index "@,
        " with string \""@ + key + "\""@,
    )
}

/// `m` is a fresh `.[index]` stage (`.[index]?` when not strict).
pub open spec fn is_index_stage(m: OpModel, index: int, strict: bool) -> bool {
    m matches OpModel::AtIndex { ctx, index: i, strict: st, matched, finished, elements, messages } && ctx
        == initial_context() && i == index && st == strict && !matched && !finished && elements
        == Seq::<Seq<Token>>::empty() && messages_are(messages, "Cannot index "@, " with number"@)
}

/// `m` is a fresh `.[]` stage (`.[]?` when not strict).
pub open spec fn is_values_stage(m: OpModel, strict: bool) -> bool {
    m matches OpModel::Values { ctx, strict: st, finished, messages } && ctx == initial_context() && st
        == strict && !finished && messages_are(messages, "Cannot iterate over "@, ""@)
}

/// One stage of a query pipeline.
pub enum Operator {
    Sanitize(Sanitized),
    AtKey(ObjectKeyIndex),
    AtIndex(ArraySliceIndex),
    Values(Values),
    Slurp(Slurp),
}

impl Operator {
    pub closed spec fn wf(&self) -> bool {
        match self {
            Operator::Sanitize(s) => s.wf(),
            Operator::AtKey(s) => s.wf(),
            Operator::AtIndex(s) => s.wf(),
            Operator::Values(s) => s.wf(),
            Operator::Slurp(s) => s.wf(),
        }
    }

    /// The stage's abstract state.
    pub closed spec fn model(&self) -> OpModel {
        match self {
            Operator::Sanitize(s) => OpModel::Sanitize { ctx: s.view() },
            Operator::AtKey(s) => OpModel::AtKey {
                ctx: s.context(),
                key: s.key(),
                strict: s.is_strict(),
                matched: s.matched() && !s.is_finished(),
                finished: s.is_finished(),
                messages: s.messages(),
            },
            Operator::AtIndex(s) => OpModel::AtIndex {
                ctx: s.context(),
                index: s.index(),
                strict: s.is_strict(),
                matched: s.matched() && !s.is_finished(),
                finished: s.is_finished(),
                elements: if s.index() < 0 && !s.is_finished() {
                    s.elements()
                } else {
                    Seq::empty()
                },
                messages: s.messages(),
            },
            Operator::Values(s) => OpModel::Values {
                ctx: s.context(),
                strict: s.is_strict(),
                finished: s.is_finished(),
                messages: s.messages(),
            },
            Operator::Slurp(s) => OpModel::Slurp {
                ctx: s.context(),
                started: s.is_started(),
                has_value: s.has_value() && !s.is_finished(),
                finished: s.is_finished(),
            },
        }
    }

    /// The stage will yield nothing more.
    pub closed spec fn is_done(&self) -> bool {
        match self {
            Operator::Sanitize(s) => s.view().state == JsonParsingState::Finished,
            Operator::AtKey(s) => s.is_finished(),
            Operator::AtIndex(s) => s.is_finished(),
            Operator::Values(s) => s.is_finished(),
            Operator::Slurp(s) => s.is_finished(),
        }
    }

    /// Feeds one pull of the upstream to the stage and appends what it yields.
    pub fn feed(self, item: Option<Item>, out: &mut Vec<Item>) -> (r: Operator)
        requires
            self.wf(),
        ensures
            r.wf(),
            fused_extension(old(out)@, final(out)@, self.is_done(), r.is_done()),
            r.model() == op_next(self.model(), item).0,
            final(out)@ == old(out)@ + op_next(self.model(), item).1,
    {
        let ghost before = out@;
        let ghost me = self;
        let r = match self {
            Operator::Sanitize(mut s) => {
                if let Some(x) = s.feed(item) {
                    out.push(x);
                }
                Operator::Sanitize(s)
            },
            Operator::AtKey(mut s) => {
                s.feed(item, out);
                Operator::AtKey(s)
            },
            Operator::AtIndex(mut s) => {
                s.feed(item, out);
                Operator::AtIndex(s)
            },
            Operator::Values(mut s) => {
                s.feed(item, out);
                Operator::Values(s)
            },
            Operator::Slurp(mut s) => {
                s.feed(item, out);
                Operator::Slurp(s)
            },
        };
        proof {
            assert(out@.subrange(0, before.len() as int) =~= before);
            assert(before + Seq::<Item>::empty() =~= before);
            let (m2, o2) = op_next(me.model(), item);
            match me {
                Operator::Sanitize(s0) => {
                    if let Some(x) = feed_model(s0.view(), item).1 {
                        assert(before.push(x) =~= before + seq![x]);
                    }
                },
                Operator::AtKey(s0) => {
                    if !s0.is_finished() {
                        if let (_, Some(Ok(t))) = feed_model(s0.context(), item) {
                            lemma_acted_emitted(
                                key_action(s0.key(), s0.is_strict(), s0.matched(), s0.context(), t),
                                t,
                                before,
                                out@,
                                s0.messages(),
                            );
                        } else if let (_, Some(Err(e))) = feed_model(s0.context(), item) {
                            assert(before.push(Err(e)) =~= before + seq![Err::<Token, JQErr>(e)]);
                        }
                    }
                },
                Operator::AtIndex(s0) => {
                    if !s0.is_finished() {
                        if let (_, Some(Ok(t))) = feed_model(s0.context(), item) {
                            if !(s0.index() < 0 && s0.context().path.len() == 1 && t is ArrayEnd) {
                                lemma_acted_emitted(
                                    index_action(s0.index(), s0.is_strict(), s0.matched(), s0.context(), t),
                                    t,
                                    before,
                                    out@,
                                    s0.messages(),
                                );
                            }
                        } else if let (_, Some(Err(e))) = feed_model(s0.context(), item) {
                            assert(before.push(Err(e)) =~= before + seq![Err::<Token, JQErr>(e)]);
                        }
                    }
                },
                Operator::Values(s0) => {
                    if !s0.is_finished() {
                        if let (_, Some(Ok(t))) = feed_model(s0.context(), item) {
                            lemma_acted_emitted(
                                values_action(s0.is_strict(), s0.context(), t),
                                t,
                                before,
                                out@,
                                s0.messages(),
                            );
                        } else if let (_, Some(Err(e))) = feed_model(s0.context(), item) {
                            assert(before.push(Err(e)) =~= before + seq![Err::<Token, JQErr>(e)]);
                        }
                    }
                },
                Operator::Slurp(s0) => {
                    assert(out@ =~= before + o2);
                },
            }
            assert(out@ =~= before + o2);
        }
        r
    }
}

/// A stage's state and output after the items `ins`.
pub open spec fn stage_feed(m: OpModel, ins: Seq<Item>) -> (OpModel, Seq<Item>)
    decreases ins.len(),
{
    if ins.len() == 0 {
        (m, Seq::empty())
    } else {
        let (m1, o1) = stage_feed(m, ins.drop_last());
        let (m2, o2) = op_next(m1, Some(ins.last()));
        (m2, o1 + o2)
    }
}

/// A stage's state and output after the items `ins`, then the end of its
/// upstream if `end`.
pub open spec fn stage_run(m: OpModel, ins: Seq<Item>, end: bool) -> (OpModel, Seq<Item>) {
    let (m1, o1) = stage_feed(m, ins);
    if end {
        let (m2, o2) = op_next(m1, None);
        (m2, o1 + o2)
    } else {
        (m1, o1)
    }
}

/// The stages `ms` after the items `ins` (and the end, if `end`) pass through
/// them in order, and what the last stage yields.
pub open spec fn chain(ms: Seq<OpModel>, ins: Seq<Item>, end: bool) -> (Seq<OpModel>, Seq<Item>)
    decreases ms.len(),
{
    if ms.len() == 0 {
        (ms, ins)
    } else {
        let (m0, o) = stage_run(ms[0], ins, end);
        let (rest, out) = chain(ms.drop_first(), o, end);
        (seq![m0] + rest, out)
    }
}

/// The stages and the output so far after the source items `src`, pulled one
/// at a time.
pub open spec fn run_src(ms: Seq<OpModel>, src: Seq<Item>) -> (Seq<OpModel>, Seq<Item>)
    decreases src.len(),
{
    if src.len() == 0 {
        (ms, Seq::empty())
    } else {
        let (ms1, o1) = run_src(ms, src.drop_last());
        let (ms2, o2) = chain(ms1, seq![src.last()], false);
        (ms2, o1 + o2)
    }
}

/// The whole output of a pipeline with stages `ms` whose source yields `src`.
pub open spec fn pipeline_output(ms: Seq<OpModel>, src: Seq<Item>) -> Seq<Item> {
    run_src(ms, src).1 + chain(run_src(ms, src).0, Seq::empty(), true).1
}

/// `s` in reverse order.
pub open spec fn rev(s: Seq<Item>) -> Seq<Item> {
    Seq::new(s.len(), |i: int| s[s.len() - 1 - i])
}

/// The items of `v` in reverse order (so that `pop` yields them in order).
fn reversed(v: Vec<Item>) -> (r: Vec<Item>)
    ensures
        r@ == rev(v@),
{
    let ghost all = v@;
    let mut v = v;
    let mut r: Vec<Item> = Vec::new();
    while v.len() > 0
        invariant
            r@.len() + v@.len() == all.len(),
            v@ == all.subrange(0, v@.len() as int),
            forall|i: int| 0 <= i < r@.len() ==> r@[i] == all[all.len() - 1 - i],
        decreases v.len(),
    {
        let x = v.pop().unwrap();
        r.push(x);
    }
    assert(r@ =~= rev(all));
    r
}

/// Feeds the items `current` (and the end, if `end`) to one stage.
fn run_stage(stage: Operator, current: Vec<Item>, end: bool) -> (r: (Operator, Vec<Item>))
    requires
        stage.wf(),
    ensures
        r.0.wf(),
        fused_extension(Seq::empty(), r.1@, stage.is_done(), r.0.is_done()),
        stage_run(stage.model(), current@, end) == (r.0.model(), r.1@),
{
    let mut stage = stage;
    let ghost was_done = stage.is_done();
    let ghost cur = current@;
    let ghost m_start = stage.model();
    let mut stack = reversed(current);
    let mut next: Vec<Item> = Vec::new();
    proof {
        assert(next@.subrange(0, 0) =~= Seq::<Item>::empty());
        assert(fused_extension(Seq::empty(), next@, was_done, was_done));
        assert(cur.subrange(0, 0) =~= Seq::<Item>::empty());
        assert(next@ =~= Seq::<Item>::empty());
    }
    while stack.len() > 0
        invariant
            stage.wf(),
            fused_extension(Seq::empty(), next@, was_done, stage.is_done()),
            stack@.len() <= cur.len(),
            forall|i: int| 0 <= i < stack@.len() ==> stack@[i] == cur[cur.len() - 1 - i],
            stage_feed(m_start, cur.subrange(0, cur.len() - stack@.len())) == (stage.model(), next@),
        decreases stack.len(),
    {
        let ghost j = cur.len() - stack@.len();
        let ghost m_before = stage.model();
        let ghost o_before = next@;
        let x = stack.pop().unwrap();
        proof {
            assert(x == cur[j]);
            assert(cur.subrange(0, j + 1).drop_last() =~= cur.subrange(0, j));
        }
        let ghost mid = next@;
        let ghost d1 = stage.is_done();
        stage = stage.feed(Some(x), &mut next);
        proof {
            lemma_fused_extension_trans(Seq::empty(), mid, next@, was_done, d1, stage.is_done());
            assert(cur.subrange(0, j + 1).last() == x);
        }
    }
    proof {
        assert(cur.subrange(0, cur.len() as int) =~= cur);
    }
    if end {
        let ghost mid = next@;
        let ghost d1 = stage.is_done();
        stage = stage.feed(None, &mut next);
        proof {
            lemma_fused_extension_trans(Seq::empty(), mid, next@, was_done, d1, stage.is_done());
        }
    }
    (stage, next)
}

/// A lazy query pipeline: a source of tokens (JSON text, or given items that
/// are sanitized first) followed by a chain of operators, pulled one item at
/// a time.
pub struct JQStream {
    json: bool,
    raw: RawTokenStream,
    /// The items of a given stream, last first.
    items: Vec<Item>,
    stages: Vec<Operator>,
    /// Items yielded by the last stage and not pulled yet, last first.
    pending: Vec<Item>,
    ended: bool,
    returned: Ghost<Seq<Item>>,
    /// The source as it was built, and the stages as they were added.
    origin_raw: Ghost<RawTokenStream>,
    origin_items: Ghost<Seq<Item>>,
    origin_models: Ghost<Seq<OpModel>>,
    /// The items pulled from the source so far.
    pulled: Ghost<Seq<Item>>,
}

impl JQStream {
    /// The stages as they were added, before anything was pulled.
    pub closed spec fn origin_models(&self) -> Seq<OpModel> {
        self.origin_models@
    }

    /// The source, from its start, yields `src` and then ends.
    pub closed spec fn origin_yields(&self, src: Seq<Item>) -> bool {
        if self.json {
            raw_yields(self.origin_raw@, src)
        } else {
            src == self.origin_items@
        }
    }

    /// The abstract states of the stages.
    pub closed spec fn models(&self) -> Seq<OpModel> {
        self.stages@.map_values(|o: Operator| o.model())
    }

    /// The items pulled so far.
    pub closed spec fn output(&self) -> Seq<Item> {
        self.returned@
    }

    /// Everything the last stage has yielded so far.
    pub closed spec fn produced(&self) -> Seq<Item> {
        self.returned@ + rev(self.pending@)
    }

    /// The last stage (or the source, without stages) will yield nothing more.
    pub closed spec fn last_done(&self) -> bool {
        if self.stages@.len() > 0 {
            self.stages@.last().is_done()
        } else {
            self.raw.is_finished()
        }
    }

    pub closed spec fn wf(&self) -> bool {
        &&& self.raw.wf()
        &&& forall|i: int| 0 <= i < self.stages@.len() ==> (#[trigger] self.stages@[i]).wf()
        &&& self.stages@.len() == 0 ==> self.json
        &&& fused(self.produced())
        &&& (exists|i: int| 0 <= i < self.produced().len() && (#[trigger] self.produced()[i]) is Err)
            ==> self.last_done()
        &&& self.models() == (if self.ended {
            chain(run_src(self.origin_models@, self.pulled@).0, Seq::empty(), true).0
        } else {
            run_src(self.origin_models@, self.pulled@).0
        })
        &&& self.produced() == (if self.ended {
            pipeline_output(self.origin_models@, self.pulled@)
        } else {
            run_src(self.origin_models@, self.pulled@).1
        })
        &&& self.json && self.ended ==> raw_yields(self.origin_raw@, self.pulled@)
        &&& self.json && !self.ended ==> forall|rest: Seq<Item>|
            #[trigger] raw_yields(self.raw, rest) ==> raw_yields(self.origin_raw@, self.pulled@ + rest)
        &&& !self.json ==> self.origin_items@ == self.pulled@ + rev(self.items@)
        &&& !self.json && self.ended ==> self.items@.len() == 0
    }

    /// Nothing has been pulled yet.
    pub closed spec fn is_fresh(&self) -> bool {
        self.returned@.len() == 0 && self.pending@.len() == 0 && !self.ended && self.pulled@.len() == 0
    }

    /// The number of operators in the chain.
    pub closed spec fn stage_count(&self) -> nat {
        self.stages@.len()
    }

    /// Nothing more will come out.
    pub closed spec fn is_exhausted(&self) -> bool {
        self.ended && self.pending@.len() == 0
    }

    pub closed spec fn source_measure(&self) -> nat {
        if self.ended {
            0
        } else if self.json {
            self.raw.remaining() + 1
        } else {
            self.items@.len() + 1
        }
    }

    pub closed spec fn pending_count(&self) -> nat {
        self.pending@.len()
    }

    /// A pipeline over the JSON text `chars`, with no operator yet.
    pub fn from_chars(chars: Vec<char>) -> (r: JQStream)
        ensures
            r.wf(),
            r.is_fresh(),
            r.stage_count() == 0,
            r.origin_models() == Seq::<OpModel>::empty(),
            forall|src: Seq<Item>| #[trigger] r.origin_yields(src) ==> json_yields(chars@, src),
    {
        let ghost cs = chars@;
        let raw = RawTokenStream::new(chars);
        let ghost raw0 = raw;
        let r = JQStream {
            json: true,
            raw,
            items: Vec::new(),
            stages: Vec::new(),
            pending: Vec::new(),
            ended: false,
            returned: Ghost(Seq::empty()),
            origin_raw: Ghost(raw0),
            origin_items: Ghost(Seq::empty()),
            origin_models: Ghost(Seq::empty()),
            pulled: Ghost(Seq::empty()),
        };
        proof {
            assert(r.produced() =~= Seq::<Item>::empty());
            assert(r.models() =~= Seq::<OpModel>::empty());
            assert forall|rest: Seq<Item>| #[trigger] raw_yields(r.raw, rest) implies raw_yields(
                r.origin_raw@,
                r.pulled@ + rest,
            ) by {
                assert(r.pulled@ + rest =~= rest);
            }
            assert forall|src: Seq<Item>| #[trigger] r.origin_yields(src) implies json_yields(cs, src) by {
                assert(fresh_over(raw0, cs));
            }
        }
        r
    }

    /// A pipeline over the JSON text `text`, with no operator yet.
    pub fn from_json(text: &str) -> (r: JQStream)
        ensures
            r.wf(),
            r.is_fresh(),
            r.stage_count() == 0,
            r.origin_models() == Seq::<OpModel>::empty(),
            forall|src: Seq<Item>| #[trigger] r.origin_yields(src) ==> json_yields(text@, src),
    {
        JQStream::from_chars(chars_of(text))
    }

    /// A pipeline over the given token stream, sanitized.
    pub fn from_items(items: Vec<Item>) -> (r: JQStream)
        ensures
            r.wf(),
            r.is_fresh(),
            r.stage_count() == 1,
            r.origin_models() == seq![OpModel::Sanitize { ctx: initial_context() }],
            forall|src: Seq<Item>| #[trigger] r.origin_yields(src) <==> src == items@,
    {
        let ghost all = items@;
        let mut stages: Vec<Operator> = Vec::new();
        stages.push(Operator::Sanitize(Sanitized::new()));
        let items = reversed(items);
        let raw = RawTokenStream::new(Vec::new());
        let ghost raw0 = raw;
        let ghost om = seq![OpModel::Sanitize { ctx: initial_context() }];
        let r = JQStream {
            json: false,
            raw,
            items,
            stages,
            pending: Vec::new(),
            ended: false,
            returned: Ghost(Seq::empty()),
            origin_raw: Ghost(raw0),
            origin_items: Ghost(all),
            origin_models: Ghost(om),
            pulled: Ghost(Seq::empty()),
        };
        proof {
            assert(r.produced() =~= Seq::<Item>::empty());
            assert(r.models() =~= seq![OpModel::Sanitize { ctx: initial_context() }]);
            assert(rev(rev(all)) =~= all);
            assert(Seq::<Item>::empty() + rev(r.items@) =~= all);
        }
        r
    }

    fn with_stage(self, op: Operator) -> (r: JQStream)
        requires
            self.wf(),
            self.is_fresh(),
            op.wf(),
        ensures
            r.wf(),
            r.is_fresh(),
            r.stage_count() == self.stage_count() + 1,
            r.origin_models() == self.origin_models().push(op.model()),
            forall|src: Seq<Item>| #[trigger] r.origin_yields(src) == self.origin_yields(src),
    {
        let ghost om = self.origin_models@;
        let mut s = self;
        let ghost m = op.model();
        s.stages.push(op);
        s.origin_models = Ghost(om.push(m));
        proof {
            assert forall|i: int| 0 <= i < s.stages@.len() implies (#[trigger] s.stages@[i]).wf() by {
                if i < s.stages@.len() - 1 {
                    assert(s.stages@[i] == self.stages@[i]);
                }
            }
            assert(s.produced() =~= Seq::<Item>::empty());
            assert(self.models() == om);
            assert(s.models() =~= om.push(m));
            if s.json {
                assert forall|rest: Seq<Item>| #[trigger] raw_yields(s.raw, rest) implies raw_yields(
                    s.origin_raw@,
                    s.pulled@ + rest,
                ) by {
                    assert(raw_yields(self.raw, rest));
                }
            }
        }
        s
    }

    /// Checks the JSON grammar and ends the stream at its first error.
    pub fn sanitize(self) -> (r: JQStream)
        requires
            self.wf(),
            self.is_fresh(),
        ensures
            r.wf(),
            r.is_fresh(),
            r.stage_count() == self.stage_count() + 1,
            r.origin_models() == self.origin_models().push(OpModel::Sanitize { ctx: initial_context() }),
            forall|src: Seq<Item>| #[trigger] r.origin_yields(src) == self.origin_yields(src),
    {
        let op = Operator::Sanitize(Sanitized::new());
        let r = self.with_stage(op);
        proof {
            assert(r.origin_models().drop_last() =~= self.origin_models());
        }
        r
    }

    /// `.[key]`
    pub fn at_key(self, key: String) -> (r: JQStream)
        requires
            self.wf(),
            self.is_fresh(),
        ensures
            r.wf(),
            r.is_fresh(),
            r.stage_count() == self.stage_count() + 1,
            r.origin_models().drop_last() == self.origin_models() && r.origin_models().len() == self.origin_models().len() + 1 && is_key_stage(r.origin_models().last(), key@, true),
            forall|src: Seq<Item>| #[trigger] r.origin_yields(src) == self.origin_yields(src),
    {
        let op = Operator::AtKey(ObjectKeyIndex::new(key, true));
        let r = self.with_stage(op);
        proof {
            assert(r.origin_models().drop_last() =~= self.origin_models());
        }
        r
    }

    /// `.[key]?`
    pub fn at_key_suppress_errs(self, key: String) -> (r: JQStream)
        requires
            self.wf(),
            self.is_fresh(),
        ensures
            r.wf(),
            r.is_fresh(),
            r.stage_count() == self.stage_count() + 1,
            r.origin_models().drop_last() == self.origin_models() && r.origin_models().len() == self.origin_models().len() + 1 && is_key_stage(r.origin_models().last(), key@, false),
            forall|src: Seq<Item>| #[trigger] r.origin_yields(src) == self.origin_yields(src),
    {
        let op = Operator::AtKey(ObjectKeyIndex::new(key, false));
        let r = self.with_stage(op);
        proof {
            assert(r.origin_models().drop_last() =~= self.origin_models());
        }
        r
    }

    /// `.[index]`
    pub fn at_index(self, index: isize) -> (r: JQStream)
        requires
            self.wf(),
            self.is_fresh(),
        ensures
            r.wf(),
            r.is_fresh(),
            r.stage_count() == self.stage_count() + 1,
            r.origin_models().drop_last() == self.origin_models() && r.origin_models().len() == self.origin_models().len() + 1 && is_index_stage(r.origin_models().last(), index as int, true),
            forall|src: Seq<Item>| #[trigger] r.origin_yields(src) == self.origin_yields(src),
    {
        let op = Operator::AtIndex(ArraySliceIndex::new(index, true));
        let r = self.with_stage(op);
        proof {
            assert(r.origin_models().drop_last() =~= self.origin_models());
        }
        r
    }

    /// `.[index]?`
    pub fn at_index_suppress_errs(self, index: isize) -> (r: JQStream)
        requires
            self.wf(),
            self.is_fresh(),
        ensures
            r.wf(),
            r.is_fresh(),
            r.stage_count() == self.stage_count() + 1,
            r.origin_models().drop_last() == self.origin_models() && r.origin_models().len() == self.origin_models().len() + 1 && is_index_stage(r.origin_models().last(), index as int, false),
            forall|src: Seq<Item>| #[trigger] r.origin_yields(src) == self.origin_yields(src),
    {
        let op = Operator::AtIndex(ArraySliceIndex::new(index, false));
        let r = self.with_stage(op);
        proof {
            assert(r.origin_models().drop_last() =~= self.origin_models());
        }
        r
    }

    /// `.[]`
    pub fn values(self) -> (r: JQStream)
        requires
            self.wf(),
            self.is_fresh(),
        ensures
            r.wf(),
            r.is_fresh(),
            r.stage_count() == self.stage_count() + 1,
            r.origin_models().drop_last() == self.origin_models() && r.origin_models().len() == self.origin_models().len() + 1 && is_values_stage(r.origin_models().last(), true),
            forall|src: Seq<Item>| #[trigger] r.origin_yields(src) == self.origin_yields(src),
    {
        let op = Operator::Values(Values::new(true));
        let r = self.with_stage(op);
        proof {
            assert(r.origin_models().drop_last() =~= self.origin_models());
        }
        r
    }

    /// `.[]?`
    pub fn values_suppress_errs(self) -> (r: JQStream)
        requires
            self.wf(),
            self.is_fresh(),
        ensures
            r.wf(),
            r.is_fresh(),
            r.stage_count() == self.stage_count() + 1,
            r.origin_models().drop_last() == self.origin_models() && r.origin_models().len() == self.origin_models().len() + 1 && is_values_stage(r.origin_models().last(), false),
            forall|src: Seq<Item>| #[trigger] r.origin_yields(src) == self.origin_yields(src),
    {
        let op = Operator::Values(Values::new(false));
        let r = self.with_stage(op);
        proof {
            assert(r.origin_models().drop_last() =~= self.origin_models());
        }
        r
    }

    /// `slurp`
    pub fn slurp(self) -> (r: JQStream)
        requires
            self.wf(),
            self.is_fresh(),
        ensures
            r.wf(),
            r.is_fresh(),
            r.stage_count() == self.stage_count() + 1,
            r.origin_models() == self.origin_models().push(OpModel::Slurp { ctx: initial_context(), started: false, has_value: false, finished: false }),
            forall|src: Seq<Item>| #[trigger] r.origin_yields(src) == self.origin_yields(src),
    {
        let op = Operator::Slurp(Slurp::new());
        let r = self.with_stage(op);
        proof {
            assert(r.origin_models().drop_last() =~= self.origin_models());
        }
        r
    }

    /// One pull of the source (`None`: it ended).
    fn pull_source(&mut self) -> (r: Option<Item>)
        requires
            old(self).raw.wf(),
            !old(self).ended,
        ensures
            final(self).raw.wf(),
            final(self).stages == old(self).stages,
            final(self).pending == old(self).pending,
            final(self).ended == old(self).ended,
            final(self).json == old(self).json,
            final(self).returned == old(self).returned,
            final(self).origin_raw == old(self).origin_raw,
            final(self).origin_items == old(self).origin_items,
            final(self).origin_models == old(self).origin_models,
            final(self).pulled == old(self).pulled,
            old(self).json ==> pull(old(self).raw, r, final(self).raw),
            !old(self).json ==> final(self).items@ == old(self).items@.drop_last() || old(self).items@.len() == 0,
            !old(self).json ==> r == (if old(self).items@.len() == 0 {
                None
            } else {
                Some(old(self).items@.last())
            }),
            !old(self).json && old(self).items@.len() > 0 ==> final(self).items@ == old(self).items@.drop_last(),
            !old(self).json && old(self).items@.len() == 0 ==> final(self).items@.len() == 0,
            r is Some ==> final(self).source_measure() < old(self).source_measure(),
            old(self).json && old(self).raw.is_finished() ==> r is None,
            old(self).json && (r matches Some(Err(_))) ==> final(self).raw.is_finished(),
            old(self).json ==> (old(self).raw.is_finished() ==> final(self).raw.is_finished()),
    {
        if self.json {
            self.raw.next()
        } else {
            self.items.pop()
        }
    }

    /// Passes one pull of the source through every stage and returns what
    /// the last stage yields, in order.
    #[verifier::rlimit(100)]
    #[verifier::spinoff_prover]
    fn run_stages(&mut self, item: Option<Item>) -> (r: Vec<Item>)
        requires
            forall|i: int| 0 <= i < old(self).stages@.len() ==> (#[trigger] old(self).stages@[i]).wf(),
        ensures
            final(self).stages@.len() == old(self).stages@.len(),
            forall|i: int| 0 <= i < final(self).stages@.len() ==> (#[trigger] final(self).stages@[i]).wf(),
            final(self).json == old(self).json,
            final(self).raw == old(self).raw,
            final(self).items == old(self).items,
            final(self).pending == old(self).pending,
            final(self).ended == old(self).ended,
            final(self).returned == old(self).returned,
            final(self).origin_raw == old(self).origin_raw,
            final(self).origin_items == old(self).origin_items,
            final(self).origin_models == old(self).origin_models,
            final(self).pulled == old(self).pulled,
            old(self).stages@.len() > 0 ==> fused_extension(
                Seq::empty(),
                r@,
                old(self).stages@.last().is_done(),
                final(self).stages@.last().is_done(),
            ),
            old(self).stages@.len() == 0 ==> r@ == (match item {
                Some(x) => seq![x],
                None => Seq::<Item>::empty(),
            }),
            ({
                let c = chain(old(self).models(), opt_seq(item), item is None);
                final(self).models() == c.0 && r@ == c.1
            }),
    {
        let end = item.is_none();
        let mut current: Vec<Item> = Vec::new();
        if let Some(x) = item {
            current.push(x);
        }
        proof {
            if item is None {
                assert(current@ =~= Seq::<Item>::empty());
            } else {
                assert(current@ =~= seq![item.unwrap()]);
            }
        }
        let n = self.stages.len();
        let ghost start_stages = self.stages@;
        let ghost sm = old(self).models();
        let ghost ins = opt_seq(item);
        proof {
            assert(current@ == ins);
            assert(sm.subrange(0, n as int) =~= sm);
            assert(self.models().subrange(0, 0) + chain(sm.subrange(0, n as int), current@, end).0 =~= chain(sm, ins, end).0);
        }
        let mut k: usize = 0;
        while k < n
            invariant
                forall|i: int| 0 <= i < self.stages@.len() ==> (#[trigger] self.stages@[i]).wf(),
                self.stages@.len() == n,
                n == start_stages.len(),
                start_stages == old(self).stages@,
                k <= n,
                forall|i: int| k <= i < n ==> self.stages@[i] == start_stages[i],
                k > 0 ==> fused_extension(
                    Seq::empty(),
                    current@,
                    start_stages[k - 1].is_done(),
                    self.stages@[k - 1].is_done(),
                ),
                k == 0 ==> current@ == (match item {
                    Some(x) => seq![x],
                    None => Seq::<Item>::empty(),
                }),
                self.json == old(self).json,
                self.raw == old(self).raw,
                self.items == old(self).items,
                self.pending == old(self).pending,
                self.ended == old(self).ended,
                self.returned == old(self).returned,
                self.origin_raw == old(self).origin_raw,
                self.origin_items == old(self).origin_items,
                self.origin_models == old(self).origin_models,
                self.pulled == old(self).pulled,
                sm == old(self).models(),
                sm.len() == n,
                ins == opt_seq(item),
                end == (item is None),
                chain(sm, ins, end) == (
                    self.models().subrange(0, k as int) + chain(sm.subrange(k as int, n as int), current@, end).0,
                    chain(sm.subrange(k as int, n as int), current@, end).1,
                ),
                forall|i: int| k <= i < n ==> self.models()[i] == sm[i],
            decreases n - k,
        {
            let ghost before_stages = self.stages@;
            let ghost before_models = self.models();
            let ghost cur = current@;
            let mut stage = self.stages.remove(k);
            let ghost was_done = stage.is_done();
            let ghost m_start = stage.model();
            proof {
                assert(m_start == before_models[k as int]);
                assert(m_start == sm[k as int]);
            }
            let (st, next) = run_stage(stage, current, end);
            stage = st;

            let ghost removed = self.stages@;
            self.stages.insert(k, stage);
            proof {
                assert forall|i: int| 0 <= i < self.stages@.len() implies (#[trigger] self.stages@[i]).wf() by {
                    if i < k {
                        assert(self.stages@[i] == removed[i]);
                    } else if i > k {
                        assert(self.stages@[i] == removed[i - 1]);
                    }
                }
                assert forall|i: int| k + 1 <= i < n implies self.stages@[i] == start_stages[i] by {
                    assert(self.stages@[i] == removed[i - 1]);
                    assert(removed[i - 1] == before_stages[i]);
                }
                assert(was_done == start_stages[k as int].is_done());
                let tail = sm.subrange(k as int, n as int);
                assert(tail[0] == sm[k as int]);
                assert(tail.drop_first() =~= sm.subrange(k + 1, n as int));
                assert(self.models() =~= before_models.update(k as int, stage.model()));
                assert(self.models().subrange(0, k + 1) =~= self.models().subrange(0, k as int).push(stage.model()));
                assert(before_models.subrange(0, k as int) =~= self.models().subrange(0, k as int));
                let c1 = chain(tail.drop_first(), next@, end);
                assert(chain(tail, cur, end) == (seq![stage.model()] + c1.0, c1.1));
                assert(self.models().subrange(0, k + 1) + c1.0 =~= self.models().subrange(0, k as int) + (
                    seq![stage.model()] + c1.0));
            }
            current = next;
            k = k + 1;
        }
        proof {
            assert(sm.subrange(n as int, n as int) =~= Seq::<OpModel>::empty());
            assert(self.models().subrange(0, n as int) =~= self.models());
            assert(self.models().subrange(0, n as int) + Seq::<OpModel>::empty() =~= self.models());
        }
        current
    }

    proof fn lemma_refill(&self, outs: Seq<Item>, was_done: bool)
        requires
            fused(self.returned@),
            (exists|i: int| 0 <= i < self.returned@.len() && (#[trigger] self.returned@[i]) is Err) ==> was_done,
            fused_extension(Seq::empty(), outs, was_done, self.last_done()),
        ensures
            fused(self.returned@ + outs),
            (exists|i: int|
                0 <= i < (self.returned@ + outs).len() && (#[trigger] (self.returned@ + outs)[i]) is Err)
                ==> self.last_done(),
    {
        let all = self.returned@ + outs;
        let n = self.returned@.len();
        if exists|i: int| 0 <= i < n && (#[trigger] self.returned@[i]) is Err {
            assert(outs =~= Seq::<Item>::empty());
            assert(all =~= self.returned@);
        } else {
            assert forall|i: int| 0 <= i < all.len() - 1 implies (#[trigger] all[i]) is Ok by {
                if i < n {
                    assert(all[i] == self.returned@[i]);
                    assert(!(self.returned@[i] is Err));
                } else {
                    assert(all[i] == outs[i - n]);
                }
            }
            if exists|i: int| 0 <= i < all.len() && (#[trigger] all[i]) is Err {
                let i = choose|i: int| 0 <= i < all.len() && (#[trigger] all[i]) is Err;
                if i < n {
                    assert(all[i] == self.returned@[i]);
                } else {
                    assert(i == all.len() - 1);
                    assert(outs.last() == all[i]);
                }
            }
        }
    }

    proof fn lemma_exhausted(&self)
        requires
            self.wf(),
            self.is_exhausted(),
        ensures
            self.origin_yields(self.pulled@),
            self.output() == pipeline_output(self.origin_models@, self.pulled@),
    {
        assert(self.produced() =~= self.returned@);
        if !self.json {
            assert(self.pulled@ + rev(self.items@) =~= self.pulled@);
        }
    }

    /// Pulls the source once and passes the item through the stages.
    #[verifier::rlimit(100)]
    #[verifier::spinoff_prover]
    fn refill(&mut self)
        requires
            old(self).wf(),
            !old(self).ended,
            old(self).pending@.len() == 0,
        ensures
            final(self).wf(),
            final(self).source_measure() < old(self).source_measure(),
            final(self).returned == old(self).returned,
            final(self).json == old(self).json,
            final(self).origin_raw == old(self).origin_raw,
            final(self).origin_items == old(self).origin_items,
            final(self).origin_models == old(self).origin_models,
            final(self).stages@.len() == old(self).stages@.len(),
    {
        let ghost produced = self.produced();
        let ghost was_done = self.last_done();
        proof {
            assert(produced =~= self.returned@);
        }
        let ghost raw_before = self.raw;
        let ghost items_before = self.items@;
        let ghost om = self.origin_models@;
        let ghost pulled_before = self.pulled@;
        let ghost rs = run_src(om, pulled_before);
        proof {
            assert(self.models() == rs.0);
            assert(self.returned@ == rs.1);
        }
        let item = self.pull_source();
        let ghost pulled = item;
        let got = item.is_some();
        if !got {
            self.ended = true;
        }
        let outs = self.run_stages(item);
        if got {
            self.pulled = Ghost(pulled_before.push(pulled.unwrap()));
        }
        proof {
            let c = chain(rs.0, opt_seq(pulled), pulled is None);
            assert(self.models() == c.0 && outs@ == c.1);
            match pulled {
                Some(x) => {
                    let p2 = pulled_before.push(x);
                    assert(p2.drop_last() =~= pulled_before);
                    assert(p2.last() == x);
                    assert(opt_seq(pulled) == seq![x]);
                    assert(run_src(om, p2) == (c.0, rs.1 + c.1));
                    if self.json {
                        assert(pull(raw_before, Some(x), self.raw));
                        assert forall|rest: Seq<Item>| #[trigger] raw_yields(self.raw, rest) implies raw_yields(
                            self.origin_raw@,
                            p2 + rest,
                        ) by {
                            let xr = seq![x] + rest;
                            assert(xr[0] == x);
                            assert(xr.drop_first() =~= rest);
                            assert(pull(raw_before, Some(xr[0]), self.raw));
                            assert(raw_yields(raw_before, xr));
                            assert(pulled_before + xr =~= p2 + rest);
                        }
                    } else {
                        assert(rev(items_before) =~= seq![x] + rev(self.items@));
                        assert(pulled_before + rev(items_before) =~= p2 + rev(self.items@));
                    }
                },
                None => {
                    assert(opt_seq(pulled) =~= Seq::<Item>::empty());
                    if self.json {
                        assert(pull(raw_before, None, self.raw));
                        assert(raw_yields(raw_before, Seq::<Item>::empty()));
                        assert(pulled_before + Seq::<Item>::empty() =~= pulled_before);
                    } else {
                        assert(rev(items_before) =~= Seq::<Item>::empty());
                        assert(pulled_before + Seq::<Item>::empty() =~= pulled_before);
                    }
                },
            }
            if self.stages@.len() == 0 {
                assert(outs@.subrange(0, 0) =~= Seq::<Item>::empty());
                if was_done {
                    assert(pulled is None);
                    assert(outs@ =~= Seq::<Item>::empty());
                }
                if pulled matches Some(Err(_)) {
                    assert(self.raw.is_finished());
                    assert(outs@.last() == pulled.unwrap());
                }
                assert(fused_extension(Seq::empty(), outs@, was_done, self.last_done()));
            }
            self.lemma_refill(outs@, was_done);
        }
        self.pending = reversed(outs);
        proof {
            assert(rev(rev(outs@)) =~= outs@);
            assert(self.produced() =~= rs.1 + outs@);
        }
    }

    /// The next item of the pipeline's output, or `None` once it is
    /// exhausted. The items pulled are tokens except perhaps the last.
    pub fn next(&mut self) -> (r: Option<Item>)
        requires
            old(self).wf(),
        ensures
            final(self).wf(),
            final(self).stage_count() == old(self).stage_count(),
            final(self).output() == old(self).output() + match r {
                Some(x) => seq![x],
                None => Seq::<Item>::empty(),
            },
            fused(final(self).output()),
            old(self).is_exhausted() ==> r is None && final(self).is_exhausted(),
            r is None ==> final(self).is_exhausted(),
            r is Some ==> final(self).source_measure() < old(self).source_measure() || (
            final(self).source_measure() == old(self).source_measure() && final(self).pending_count()
                < old(self).pending_count()),
            final(self).origin_models() == old(self).origin_models(),
            forall|src: Seq<Item>| #[trigger] final(self).origin_yields(src) == old(self).origin_yields(src),
    {
        loop
            invariant
                self.wf(),
                self.json == old(self).json,
                self.origin_raw == old(self).origin_raw,
                self.origin_items == old(self).origin_items,
                self.origin_models == old(self).origin_models,
                self.stage_count() == old(self).stage_count(),
                self.output() == old(self).output(),
                old(self).is_exhausted() ==> self.is_exhausted(),
                self.source_measure() <= old(self).source_measure(),
                self.source_measure() == old(self).source_measure() ==> self.pending_count()
                    == old(self).pending_count(),
            decreases self.source_measure(),
        {
            let ghost produced = self.produced();
            if let Some(x) = self.pending.pop() {
                proof {
                    let p = old(self).pending@;
                    assert(rev(self.pending@) =~= rev(self.pending@.push(x)).drop_first());
                }
                self.returned = Ghost(self.returned@.push(x));
                proof {
                    assert(self.produced() =~= produced);
                    assert forall|i: int| 0 <= i < self.returned@.len() - 1 implies (#[trigger] self.returned@[i]) is Ok by {
                        assert(self.returned@[i] == produced[i]);
                    }
                    assert(self.returned@ =~= produced.subrange(0, self.returned@.len() as int));
                }
                return Some(x);
            }
            if self.ended {
                return None;
            }
            self.refill();
        }
    }

    /// All the remaining items of the pipeline's output, in order; they are
    /// tokens except perhaps the last.
    pub fn collect(self) -> (r: Vec<Item>)
        requires
            self.wf(),
        ensures
            fused(self.output() + r@),
            exists|src: Seq<Item>|
                self.origin_yields(src) && self.output() + r@ == pipeline_output(self.origin_models(), src),
    {
        let mut s = self;
        let mut out: Vec<Item> = Vec::new();
        loop
            invariant
                s.wf(),
                s.output() == self.output() + out@,
                s.origin_models() == self.origin_models(),
                forall|src: Seq<Item>| #[trigger] s.origin_yields(src) == self.origin_yields(src),
            ensures
                s.output() == self.output() + out@,
                fused(s.output()),
                s.wf(),
                s.is_exhausted(),
            decreases s.source_measure(), s.pending_count(),
        {
            match s.next() {
                Some(x) => {
                    out.push(x);
                    assert(s.output() =~= self.output() + out@);
                },
                None => {
                    assert(s.output() =~= self.output() + out@);
                    break ;
                },
            }
        }
        proof {
            s.lemma_exhausted();
            assert(s.origin_yields(s.pulled@));
        }
        out
    }

    /// The output rendered as compact JSON text, or its first error.
    pub fn to_string(self) -> (r: Result<String, JQErr>)
        requires
            self.wf(),
        ensures
            exists|src: Seq<Item>|
                #[trigger] self.origin_yields(src) && ({
                    let full = pipeline_output(self.origin_models(), src);
                    let rest = full.subrange(self.output().len() as int, full.len() as int);
                    &&& self.output().len() <= full.len()
                    &&& match compact_run(initial_context(), rest) {
                        Ok(s) => r matches Ok(t) && t@ == s,
                        Err(e) => r == Err::<String, JQErr>(e),
                    }
                }),
    {
        let ghost before = self.output();
        let items = self.collect();
        let ghost rest = items@;
        let r = render_compact(items);
        proof {
            let src = choose|src: Seq<Item>|
                self.origin_yields(src) && before + rest == pipeline_output(self.origin_models(), src);
            let full = pipeline_output(self.origin_models(), src);
            assert(full.subrange(before.len() as int, full.len() as int) =~= rest);
        }
        r
    }

    /// The output rendered as indented JSON text, or its first error.
    pub fn to_string_pretty(self) -> (r: Result<String, JQErr>)
        requires
            self.wf(),
        ensures
            exists|src: Seq<Item>|
                #[trigger] self.origin_yields(src) && ({
                    let full = pipeline_output(self.origin_models(), src);
                    let rest = full.subrange(self.output().len() as int, full.len() as int);
                    &&& self.output().len() <= full.len()
                    &&& match pretty_run(initial_context(), None, rest) {
                        Ok(s) => r matches Ok(t) && t@ == s,
                        Err(e) => r == Err::<String, JQErr>(e),
                    }
                }),
    {
        let ghost before = self.output();
        let items = self.collect();
        let ghost rest = items@;
        let r = render_pretty(items);
        proof {
            let src = choose|src: Seq<Item>|
                self.origin_yields(src) && before + rest == pipeline_output(self.origin_models(), src);
            let full = pipeline_output(self.origin_models(), src);
            assert(full.subrange(before.len() as int, full.len() as int) =~= rest);
        }
        r
    }
}

/// A source that yields a single `null` token.
pub struct Null {
    value: Option<Item>,
}

impl Default for Null {
    fn default() -> (r: Null)
        ensures
            r.remaining() == Some(Ok::<Token, JQErr>(Token::Null)),
    {
        Null { value: Some(Ok(Token::Null)) }
    }
}

impl Null {
    pub closed spec fn remaining(&self) -> Option<Item> {
        self.value
    }

    /// The `null` token the first time, `None` after.
    pub fn next(&mut self) -> (r: Option<Item>)
        ensures
            r == old(self).remaining(),
            final(self).remaining() is None,
    {
        self.value.take()
    }

    /// A pipeline whose source is this one.
    pub fn into_stream(self) -> (r: JQStream)
        ensures
            r.wf(),
            r.is_fresh(),
            r.stage_count() == 1,
    {
        let mut items: Vec<Item> = Vec::new();
        if let Some(x) = self.value {
            items.push(x);
        }
        JQStream::from_items(items)
    }
}

} // verus!
