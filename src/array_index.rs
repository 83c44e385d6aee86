use vstd::prelude::*;
use vstd::string::StringExecFns;

use crate::error::Item;
use crate::operators::{
    acted, build_messages, child_token, is_child_token, messages_are, push_failure, Action,
};
use crate::sanitized::Sanitized;
use crate::scope::Scope;
use crate::stream_context::{feed_model, initial_context, ContextView};
use crate::token::Token;

verus! {

/// The outermost open container is an array, at the element with index `i`.
pub open spec fn outer_index_is(p: ContextView, i: int) -> bool {
    p.path.len() > 0 && (p.path[0] matches Scope::Array(j) && j == i)
}

pub open spec fn outer_is_array(p: ContextView) -> bool {
    p.path.len() > 0 && p.path[0] is Array
}

/// What `.[index]` does with token `t` arriving in context `p`; `matched`
/// says whether the current top-level array has reached the index already.
/// For a negative index the elements are buffered, and the one that the
/// index picks is replayed when the array closes.
pub open spec fn index_action(index: int, strict: bool, matched: bool, p: ContextView, t: Token) -> Action {
    if p.path.len() == 0 {
        match t {
            Token::ArrayStart => Action::Skip,
            Token::Null => Action::YieldNull,
            _ => if strict {
                Action::Fail
            } else {
                Action::Skip
            },
        }
    } else if index >= 0 && child_token(p, t) && outer_index_is(p, index) {
        Action::Forward
    } else if p.path.len() == 1 && t is ArrayEnd && index >= 0 && !matched {
        Action::YieldNull
    } else {
        Action::Skip
    }
}

pub open spec fn index_matched_after(index: int, matched: bool, p: ContextView, t: Token) -> bool {
    if p.path.len() == 0 {
        false
    } else {
        matched || index_action(index, true, matched, p, t) == Action::Forward
    }
}

/// The elements of the current top-level array, as token lists, after token
/// `t` arrives in context `p`.
pub open spec fn elements_after(elements: Seq<Seq<Token>>, p: ContextView, t: Token) -> Seq<Seq<Token>> {
    if p.path.len() == 0 || (p.path.len() == 1 && t is ArrayEnd) {
        Seq::empty()
    } else if child_token(p, t) && outer_is_array(p) {
        if p.path.len() == 1 || elements.len() == 0 {
            elements.push(seq![t])
        } else {
            elements.update(elements.len() - 1, elements.last().push(t))
        }
    } else {
        elements
    }
}

/// The last `n` elements (all of them if there are fewer).
pub open spec fn last_n(elements: Seq<Seq<Token>>, n: nat) -> Seq<Seq<Token>> {
    if elements.len() <= n {
        elements
    } else {
        elements.subrange(elements.len() - n, elements.len() as int)
    }
}

pub open spec fn oks(ts: Seq<Token>) -> Seq<Item> {
    ts.map_values(|t: Token| Ok(t))
}

/// What a negative index `-n` yields when the array closes: the `n`-th
/// element from the end, or `null` when there are fewer than `n`.
pub open spec fn replay(elements: Seq<Seq<Token>>, n: nat) -> Seq<Item> {
    if elements.len() < n {
        seq![Ok(Token::Null)]
    } else {
        oks(elements[elements.len() - n])
    }
}

pub open spec fn ring_view(ring: Seq<Vec<Token>>) -> Seq<Seq<Token>> {
    ring.map_values(|v: Vec<Token>| v@)
}

/// The `.[index]` operator (`.[index]?` when not strict): for each top-level
/// value, its element at `index` if it is an array (counted from the end when
/// `index` is negative; `null` when the array is too short), `null` for
/// `null`, and for any other value an error, or nothing when not strict.
pub struct ArraySliceIndex {
    input: Sanitized,
    index: isize,
    strict: bool,
    matched: bool,
    finished: bool,
    /// For a negative index `-n`: the last `n` elements seen of the current array.
    ring: Vec<Vec<Token>>,
    elements: Ghost<Seq<Seq<Token>>>,
    /// The error message for each kind of value.
    messages: Vec<String>,
}

impl ArraySliceIndex {
    pub closed spec fn context(&self) -> ContextView {
        self.input.view()
    }

    pub closed spec fn index(&self) -> int {
        self.index as int
    }

    pub closed spec fn is_strict(&self) -> bool {
        self.strict
    }

    pub closed spec fn matched(&self) -> bool {
        self.matched
    }

    pub closed spec fn is_finished(&self) -> bool {
        self.finished
    }

    /// All elements seen so far of the current top-level array (buffered only
    /// for a negative index).
    pub closed spec fn elements(&self) -> Seq<Seq<Token>> {
        self.elements@
    }

    /// How many elements a negative index keeps.
    pub open spec fn depth_back(&self) -> nat {
        if self.index() < 0 {
            (-self.index()) as nat
        } else {
            0
        }
    }

    /// The error message for each kind of value.
    pub closed spec fn messages(&self) -> Seq<String> {
        self.messages@
    }

    pub closed spec fn wf(&self) -> bool {
        &&& self.input.wf()
        &&& self.messages@.len() == 6
        &&& self.index < 0 ==> ring_view(self.ring@) == last_n(self.elements@, self.depth_back())
        &&& self.index >= 0 ==> self.ring@.len() == 0
    }

    pub fn new(index: isize, strict: bool) -> (r: ArraySliceIndex)
        ensures
            r.wf(),
            r.context() == initial_context(),
            r.index() == index,
            r.is_strict() == strict,
            !r.matched(),
            !r.is_finished(),
            r.elements() == Seq::<Seq<Token>>::empty(),
            messages_are(r.messages(), "Cannot index "@, " with number"@),
    {
        let messages = build_messages("Cannot index ", " with number");
        let r = ArraySliceIndex {
            input: Sanitized::new(),
            index,
            strict,
            matched: false,
            finished: false,
            ring: Vec::new(),
            elements: Ghost(Seq::empty()),
            messages,
        };
        assert(ring_view(r.ring@) =~= Seq::<Seq<Token>>::empty());
        r
    }

    /// The buffered elements (for a negative index `-n`, the last `n` seen).
    pub fn queue(&self) -> (r: &Vec<Vec<Token>>)
        requires
            self.wf(),
        ensures
            self.index() < 0 ==> ring_view(r@) == last_n(self.elements(), self.depth_back()),
            self.index() < 0 ==> r@.len() <= self.depth_back(),
            self.index() >= 0 ==> r@.len() == 0,
    {
        proof {
            if self.index < 0 {
                assert(ring_view(self.ring@).len() == self.ring@.len());
            }
        }
        &self.ring
    }

    fn clear_ring(&mut self)
        requires
            old(self).wf(),
        ensures
            final(self).wf(),
            final(self).elements() == Seq::<Seq<Token>>::empty(),
            final(self).input == old(self).input,
            final(self).index == old(self).index,
            final(self).strict == old(self).strict,
            final(self).matched == old(self).matched,
            final(self).finished == old(self).finished,
            final(self).messages == old(self).messages,
    {
        self.ring = Vec::new();
        self.elements = Ghost(Seq::empty());
        assert(ring_view(self.ring@) =~= Seq::<Seq<Token>>::empty());
    }

    /// Buffers a token of the current element (`starts`: it begins a new one).
    fn buffer(&mut self, t: Token, starts: bool)
        requires
            old(self).wf(),
            old(self).index < 0,
        ensures
            final(self).wf(),
            final(self).elements() == (if starts || old(self).elements().len() == 0 {
                old(self).elements().push(seq![t])
            } else {
                old(self).elements().update(
                    old(self).elements().len() - 1,
                    old(self).elements().last().push(t),
                )
            }),
            final(self).input == old(self).input,
            final(self).index == old(self).index,
            final(self).strict == old(self).strict,
            final(self).matched == old(self).matched,
            final(self).finished == old(self).finished,
            final(self).messages == old(self).messages,
    {
        let ghost els = self.elements@;
        let ghost n = self.depth_back();
        let n_exec: usize = (-(self.index + 1)) as usize + 1;
        assert(n_exec == n);
        if starts || self.ring.len() == 0 {
            let ghost r0 = ring_view(self.ring@);
            if self.ring.len() == n_exec {
                self.ring.remove(0);
                assert(ring_view(self.ring@) =~= r0.drop_first());
            }
            let ghost r1 = ring_view(self.ring@);
            let mut slot: Vec<Token> = Vec::new();
            slot.push(t);
            self.ring.push(slot);
            let ghost new_els = els.push(seq![t]);
            self.elements = Ghost(new_els);
            proof {
                assert(slot@ =~= seq![t]);
                assert(ring_view(self.ring@) =~= r1.push(seq![t]));
                if els.len() + 1 <= n {
                    assert(r0 == els);
                    assert(ring_view(self.ring@) =~= last_n(new_els, n));
                } else {
                    assert(r0 =~= els.subrange(els.len() - n, els.len() as int));
                    assert(r1 =~= els.subrange(els.len() - n + 1, els.len() as int));
                    assert(ring_view(self.ring@) =~= last_n(new_els, n));
                }
            }
        } else {
            let ghost r0 = ring_view(self.ring@);
            let mut slot = match self.ring.pop() {
                Some(v) => v,
                None => Vec::new(),
            };
            assert(slot@ == r0.last());
            assert(ring_view(self.ring@) =~= r0.drop_last());
            slot.push(t);
            self.ring.push(slot);
            let ghost new_els = els.update(els.len() - 1, els.last().push(t));
            self.elements = Ghost(new_els);
            proof {
                assert(ring_view(self.ring@) =~= r0.update(r0.len() - 1, r0.last().push(t)));
                if els.len() <= n {
                    assert(ring_view(self.ring@) =~= last_n(new_els, n));
                } else {
                    assert(r0 =~= els.subrange(els.len() - n, els.len() as int));
                    assert(ring_view(self.ring@) =~= last_n(new_els, n));
                }
            }
        }
    }

    /// Takes one pull of the upstream (`None`: it ended) and appends what the
    /// operator yields for it to `out`.
    pub fn feed(&mut self, item: Option<Item>, out: &mut Vec<Item>)
        requires
            old(self).wf(),
        ensures
            final(self).wf(),
            final(self).index() == old(self).index(),
            final(self).is_strict() == old(self).is_strict(),
            final(self).messages() == old(self).messages(),
            old(self).is_finished() ==> final(out)@ == old(out)@ && *final(self) == *old(self),
            !old(self).is_finished() ==> {
                let p = old(self).context();
                let (q, o) = feed_model(p, item);
                &&& final(self).context() == q
                &&& match o {
                    None => final(out)@ == old(out)@ && final(self).matched() == old(self).matched()
                        && final(self).elements() == old(self).elements() && !final(self).is_finished(),
                    Some(Err(e)) => final(out)@ == old(out)@.push(Err(e)) && final(self).is_finished(),
                    Some(Ok(t)) => {
                        let a = index_action(old(self).index(), old(self).is_strict(), old(self).matched(), p, t);
                        &&& final(self).matched() == index_matched_after(old(self).index(), old(self).matched(), p, t)
                        &&& final(self).is_finished() == (a == Action::Fail)
                        &&& if old(self).index() < 0 && p.path.len() == 1 && t is ArrayEnd {
                            final(out)@ == old(out)@ + replay(old(self).elements(), old(self).depth_back())
                        } else {
                            acted(a, t, old(out)@, final(out)@, old(self).messages())
                        }
                        &&& old(self).index() < 0 ==> final(self).elements() == elements_after(old(self).elements(), p, t)
                    },
                }
            },
    {
        if self.finished {
            return ;
        }
        let depth = self.input.get_path().len();
        let state = self.input.state();
        let ghost p = self.input.view();
        let outer: Option<usize> = if depth >= 1 {
            match &self.input.get_path()[0] {
                Scope::Array(j) => Some(*j),
                _ => None,
            }
        } else {
            None
        };
        match self.input.feed(item) {
            None => {},
            Some(Err(e)) => {
                self.finished = true;
                out.push(Err(e));
            },
            Some(Ok(t)) => {
                let is_child = is_child_token(depth, state, &t, Ghost(p));
                if depth == 0 {
                    self.matched = false;
                    if self.index < 0 {
                        self.clear_ring();
                    }
                    match t {
                        Token::ArrayStart => {},
                        Token::Null => out.push(Ok(Token::Null)),
                        _ => {
                            if self.strict {
                                push_failure(out, &self.messages, &t);
                                self.finished = true;
                            }
                        },
                    }
                } else if self.index >= 0 {
                    let hit = match outer {
                        Some(j) => j == self.index as usize,
                        None => false,
                    };
                    if is_child && hit {
                        self.matched = true;
                        out.push(Ok(t));
                    } else if depth == 1 && matches!(t, Token::ArrayEnd) && !self.matched {
                        out.push(Ok(Token::Null));
                    }
                } else if depth == 1 && matches!(t, Token::ArrayEnd) {
                    self.replay_into(out);
                    self.clear_ring();
                } else if is_child && outer.is_some() {
                    self.buffer(t, depth == 1);
                }
            },
        }
    }

    /// Appends the element that a negative index picks (or `null`) to `out`.
    fn replay_into(&mut self, out: &mut Vec<Item>)
        requires
            old(self).wf(),
            old(self).index < 0,
        ensures
            final(self).wf(),
            final(out)@ == old(out)@ + replay(old(self).elements(), old(self).depth_back()),
            final(self).input == old(self).input,
            final(self).index == old(self).index,
            final(self).strict == old(self).strict,
            final(self).matched == old(self).matched,
            final(self).finished == old(self).finished,
            final(self).messages == old(self).messages,
            final(self).elements() == old(self).elements(),
    {
        let ghost els = self.elements@;
        let ghost n = self.depth_back();
        let n_exec: usize = (-(self.index + 1)) as usize + 1;
        if self.ring.len() < n_exec {
            proof {
                if els.len() >= n {
                    assert(ring_view(self.ring@).len() == n);
                }
            }
            out.push(Ok(Token::Null));
            assert(out@ =~= old(out)@ + replay(els, n));
        } else {
            proof {
                assert(ring_view(self.ring@)[0] == self.ring@[0]@);
                assert(els.len() >= n);
                assert(last_n(els, n)[0] == els[els.len() - n]);
            }
            let slot = &self.ring[0];
            let mut k: usize = 0;
            while k < slot.len()
                invariant
                    slot@ == els[els.len() - n],
                    k <= slot.len(),
                    out@ == old(out)@ + oks(slot@.subrange(0, k as int)),
                decreases slot.len() - k,
            {
                let tok = slot[k].duplicate();
                out.push(Ok(tok));
                k = k + 1;
                assert(oks(slot@.subrange(0, k as int)) =~= oks(slot@.subrange(0, k - 1)).push(Ok(tok)));
                assert(out@ =~= old(out)@ + oks(slot@.subrange(0, k as int)));
            }
            assert(slot@.subrange(0, k as int) =~= slot@);
        }
    }
}

} // verus!
