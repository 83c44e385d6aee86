use vstd::prelude::*;

use crate::compact::{compact_text, escape, lemma_escape_round_trip};
use crate::lexical::{
    decodes, extends_number, is_digit, is_number, is_punct, is_ws, keyword_at, keyword_text, lexes,
    number_at, number_lexeme, number_parts, punct_char, skip_ws, string_at, string_lexeme, unit_decodes,
    unit_len,
};
use crate::render::documents_text;
use crate::stream_context::{
    depth_change, initial_context, lemma_scope_well_formed, lemma_step_legal, run_tokens, step,
    ContextView, JsonParsingState,
};
use crate::token::Token;

verus! {

/// From position `p` on, `s` is the lexemes of `ts` in order, each after
/// optional whitespace, and then only whitespace.
pub open spec fn tokenizes(s: Seq<char>, p: int, ts: Seq<Token>) -> bool
    decreases ts.len(),
{
    if ts.len() == 0 {
        skip_ws(s, p) == s.len()
    } else {
        exists|e: int| #[trigger] lexes(s, skip_ws(s, p), e, ts[0]) && tokenizes(s, e, ts.drop_first())
    }
}

/// Every number token holds a number of the token grammar.
pub open spec fn numbers_valid(ts: Seq<Token>) -> bool {
    forall|i: int| 0 <= i < ts.len() ==> (#[trigger] ts[i] matches Token::Number(n) ==> is_number(n@))
}

proof fn lemma_tokenizes_step(s: Seq<char>, p: int, ts: Seq<Token>, e: int)
    requires
        ts.len() > 0,
        lexes(s, skip_ws(s, p), e, ts[0]),
        tokenizes(s, e, ts.drop_first()),
    ensures
        tokenizes(s, p, ts),
{
}

proof fn lemma_number_starts(n: Seq<char>)
    requires
        is_number(n),
    ensures
        n.len() > 0,
        n[0] == '-' || ('0' <= n[0] && n[0] <= '9'),
{
    let (i, j, k) = choose|i: int, j: int, k: int| crate::lexical::number_parts(n, i, j, k);
    assert(n.subrange(i, j)[0] == n[i]);
}

/// The text of a token starts with a character that is not whitespace and
/// is not `,`, `]`, `}`, or a digit unless the token is a number.
proof fn lemma_text_start(t: Token)
    requires
        t matches Token::Number(n) ==> is_number(n@),
    ensures
        compact_text(t).len() > 0,
        !is_ws(compact_text(t)[0]),
{
    match t {
        Token::Number(n) => lemma_number_starts(n@),
        Token::String(v) => {},
        _ => {},
    }
}

proof fn lemma_skip_one_newline(s: Seq<char>, e: int)
    requires
        0 <= e < s.len(),
        s[e] == '\n',
        e + 1 == s.len() || !is_ws(s[e + 1]),
    ensures
        skip_ws(s, e) == e + 1,
{
    assert(skip_ws(s, e + 1) == e + 1);
}

proof fn lemma_tokenizes_from(s: Seq<char>, q: int, c: ContextView, h: Seq<Token>, ts: Seq<Token>)
    requires
        run_tokens(initial_context(), h) == Some(c),
        run_tokens(initial_context(), h + ts) is Some,
        run_tokens(initial_context(), h + ts).unwrap().path.len() == 0,
        numbers_valid(ts),
        0 <= q <= s.len(),
        s.subrange(q, s.len() as int) == documents_text(c.path.len() as int, ts),
        q == s.len() || !is_ws(s[q]),
    ensures
        tokenizes(s, q, ts),
    decreases ts.len(),
{
    lemma_scope_well_formed(h);
    assert(skip_ws(s, q) == q);
    if ts.len() == 0 {
        assert(h + ts =~= h);
        assert(s.subrange(q, s.len() as int).len() == 0);
        assert(q == s.len());
        assert(tokenizes(s, q, ts));
    } else {
        let t = ts[0];
        let rest = ts.drop_first();
        let h2 = h.push(t);
        assert(h2 + rest =~= h + ts);
        crate::render::lemma_run_prefix(h2, rest);
        assert(h2.drop_last() =~= h);
        let c2 = step(c, t).unwrap();
        lemma_step_legal(c, t);
        let d = c.path.len() as int;
        let d2 = d + depth_change(t);
        assert(c2.path.len() == d2);
        let text = compact_text(t);
        let nl = if d2 == 0 {
            seq!['\n']
        } else {
            Seq::<char>::empty()
        };
        let after = documents_text(d2, rest);
        assert(documents_text(d, ts) == text + nl + after);
        let e = q + text.len();
        let q2 = e + nl.len();
        let whole = s.subrange(q, s.len() as int);
        assert(whole == text + nl + after);
        assert(whole.len() == text.len() + nl.len() + after.len());
        assert forall|x: int| 0 <= x < text.len() implies s.subrange(q, e)[x] == text[x] by {
            assert(s[q + x] == whole[x]);
        }
        assert(s.subrange(q, e) =~= text);
        assert forall|x: int| 0 <= x < after.len() implies s.subrange(q2, s.len() as int)[x] == after[x] by {
            assert(s[q2 + x] == whole[q2 - q + x]);
        }
        assert(s.subrange(q2, s.len() as int) =~= after);
        if d2 == 0 {
            assert(s[e] == whole[e - q]);
        }
        assert forall|x: int| 0 <= x < rest.len() implies (#[trigger] rest[x] matches Token::Number(n)
            ==> is_number(n@)) by {
            assert(rest[x] == ts[x + 1]);
        }
        assert(ts[0] == t);
        assert(t matches Token::Number(n) ==> is_number(n@));
        if rest.len() > 0 {
            assert(rest[0] == ts[1]);
            lemma_text_start(rest[0]);
            let t1 = rest[0];
            let d3 = d2 + depth_change(t1);
            assert(after == compact_text(t1) + (if d3 == 0 {
                seq!['\n']
            } else {
                Seq::<char>::empty()
            }) + documents_text(d3, rest.drop_first()));
            assert(s[q2] == after[0]);
            assert(after[0] == compact_text(t1)[0]);
        } else {
            assert(after.len() == 0);
        }
        if d2 == 0 {
            assert(s[e] == '\n');
            lemma_skip_one_newline(s, e);
        } else {
            assert(q2 == e);
        }
        // the lexeme of t
        lemma_text_start(t);
        match t {
            Token::String(v) => {
                lemma_escape_round_trip(v@);
                assert(text == seq!['"'] + escape(v@) + seq!['"']);
                assert forall|x: int| 0 <= x < escape(v@).len() implies s.subrange(q + 1, e - 1)[x]
                    == escape(v@)[x] by {
                    assert(s[q + 1 + x] == s.subrange(q, e)[x + 1]);
                    assert(text[x + 1] == escape(v@)[x]);
                }
                assert(s.subrange(q + 1, e - 1) =~= escape(v@));
                assert(s[q] == text[0]);
                assert(s[e - 1] == text[text.len() - 1]);
            },
            Token::Number(n) => {
                if e < s.len() {
                    if d2 == 0 {
                        assert(s[e] == '\n');
                    } else {
                        // inside a container the next token is a separator or a close
                        assert(rest.len() > 0) by {
                            if rest.len() == 0 {
                                assert(h2 + rest =~= h2);
                            }
                        }
                        let t1 = rest[0];
                        let h3 = h2.push(t1);
                        assert(h3 + rest.drop_first() =~= h2 + rest);
                        crate::render::lemma_run_prefix(h3, rest.drop_first());
                        assert(h3.drop_last() =~= h2);
                        assert(step(c2, t1) is Some);
                        assert(c2.state == JsonParsingState::AfterValue);
                        assert(t1 is Comma || t1 is ArrayEnd || t1 is ObjectEnd);
                        assert(s[e] == compact_text(t1)[0]);
                    }
                }
            },
            Token::True | Token::False | Token::Null => {
                assert(s.subrange(q, e) =~= keyword_text(t));
            },
            _ => {
                assert(s[q] == punct_char(t));
            },
        }
        assert(lexes(s, q, e, t));
        lemma_tokenizes_from(s, q2, c2, h2, rest);
        assert(tokenizes(s, e, rest)) by {
            if rest.len() == 0 {
                assert(skip_ws(s, e) == skip_ws(s, q2));
            } else {
                assert(skip_ws(s, e) == skip_ws(s, q2));
            }
        }
        assert(ts.drop_first() == rest);
        assert(lexes(s, skip_ws(s, q), e, ts[0]) && tokenizes(s, e, ts.drop_first()));
        lemma_tokenizes_step(s, q, ts, e);
    }
}

/// The compact text of a token sequence that the grammar accepts as complete
/// documents, whose numbers are numbers of the token grammar, is read back
/// by the lexical grammar as exactly those tokens.
pub proof fn lemma_render_tokenizes(ts: Seq<Token>)
    requires
        run_tokens(initial_context(), ts) is Some,
        run_tokens(initial_context(), ts).unwrap().path.len() == 0,
        numbers_valid(ts),
    ensures
        tokenizes(documents_text(0, ts), 0, ts),
{
    let s = documents_text(0, ts);
    assert(Seq::<Token>::empty() + ts =~= ts);
    assert(run_tokens(initial_context(), Seq::<Token>::empty()) == Some(initial_context()));
    assert(s.subrange(0, s.len() as int) =~= s);
    if ts.len() > 0 {
        assert(ts[0] matches Token::Number(n) ==> is_number(n@));
        lemma_text_start(ts[0]);
    }
    lemma_tokenizes_from(s, 0, initial_context(), Seq::empty(), ts);
}

/// Two tokens are the same token: the same kind, with the same text.
pub open spec fn same_token(a: Token, b: Token) -> bool {
    match (a, b) {
        (Token::String(x), Token::String(y)) => x@ == y@,
        (Token::Number(x), Token::Number(y)) => x@ == y@,
        _ => a == b,
    }
}

proof fn lemma_number_prefix_extends(n1: Seq<char>, n2: Seq<char>)
    requires
        is_number(n1),
        is_number(n2),
        n1.len() < n2.len(),
        n1 == n2.subrange(0, n1.len() as int),
    ensures
        extends_number(n1, n2[n1.len() as int]),
{
    lemma_number_starts(n1);
    let (i, j, k) = choose|i: int, j: int, k: int| number_parts(n2, i, j, k);
    let l = n1.len() as int;
    let c = n2[l];
    assert forall|x: int| i <= x < j implies is_digit(#[trigger] n2[x]) by {
        assert(n2[x] == n2.subrange(i, j)[x - i]);
    }
    assert forall|x: int| j < x < k implies is_digit(#[trigger] n2[x]) by {
        assert(n2[x] == n2.subrange(j + 1, k)[x - j - 1]);
    }
    assert forall|x: int| k < x < n2.len() implies is_digit(#[trigger] n2[x]) by {
        assert(n2[x] == n2.subrange(k + 1, n2.len() as int)[x - k - 1]);
    }
    assert(n2.subrange(i, j)[0] == n2[i]);
    if l == j || l == k {
        assert forall|x: int| 0 <= x < l implies n1[x] != 'e' && n1[x] != 'E' && (l == j ==> n1[x]
            != '.') by {
            assert(n1[x] == n2[x]);
            if x >= i && x != j {
                assert(is_digit(n2[x]));
            }
        }
        if l == j {
            assert(!n1.contains('.'));
        }
        assert(!n1.contains('e') && !n1.contains('E'));
        if l == j && k > j {
            assert(c == '.');
        }
    }
}

pub proof fn lemma_decodes_align(r1: Seq<char>, v1: Seq<char>, r2: Seq<char>, v2: Seq<char>)
    requires
        decodes(r1, v1),
        decodes(r2, v2),
        r1.len() <= r2.len(),
        r1 == r2.subrange(0, r1.len() as int),
    ensures
        v1.len() <= v2.len(),
        v1 == v2.subrange(0, v1.len() as int),
        decodes(r2.subrange(r1.len() as int, r2.len() as int), v2.subrange(v1.len() as int, v2.len() as int)),
    decreases r1.len(),
{
    if r1.len() == 0 {
        assert(r2.subrange(0, r2.len() as int) =~= r2);
        assert(v2.subrange(0, v2.len() as int) =~= v2);
        assert(v1 =~= v2.subrange(0, 0));
    } else {
        let n = unit_len(r1);
        assert(r2[0] == r1[0]);
        if r1[0] == '\\' {
            assert(r2[1] == r1[1]);
        }
        assert(unit_len(r2) == n);
        assert(r2.subrange(0, n) =~= r1.subrange(0, n));
        let u = r1.subrange(0, n);
        assert(unit_decodes(u, v1[0]) && unit_decodes(u, v2[0]));
        if n == 6 {
            let a = v1[0];
            let b = v2[0];
            assert(a as int == b as int);
        }
        assert(v1[0] == v2[0]);
        let r1t = r1.subrange(n, r1.len() as int);
        let r2t = r2.subrange(n, r2.len() as int);
        assert(r1t =~= r2t.subrange(0, r1t.len() as int));
        lemma_decodes_align(r1t, v1.drop_first(), r2t, v2.drop_first());
        assert(r2t.subrange(r1t.len() as int, r2t.len() as int) =~= r2.subrange(
            r1.len() as int,
            r2.len() as int,
        ));
        assert(v2.drop_first().subrange(v1.drop_first().len() as int, v2.drop_first().len() as int)
            =~= v2.subrange(v1.len() as int, v2.len() as int));
        assert forall|x: int| 0 <= x < v1.len() implies v1[x] == v2.subrange(0, v1.len() as int)[x] by {
            if x > 0 {
                assert(v1[x] == v1.drop_first()[x - 1]);
                assert(v1.drop_first()[x - 1] == v2.drop_first().subrange(0, v1.drop_first().len() as int)[x - 1]);
                assert(v2[x] == v2.drop_first()[x - 1]);
            }
        }
        assert(v1 =~= v2.subrange(0, v1.len() as int));
    }
}

#[verifier::spinoff_prover]
#[verifier::rlimit(50)]
pub proof fn lemma_lexes_unique(s: Seq<char>, q: int, e1: int, t1: Token, e2: int, t2: Token)
    requires
        lexes(s, q, e1, t1),
        lexes(s, q, e2, t2),
    ensures
        e1 == e2,
        same_token(t1, t2),
{
    if let Token::Number(n) = t1 {
        lemma_number_starts(n@);
        assert(s[q] == s.subrange(q, e1)[0]);
    }
    if let Token::Number(n) = t2 {
        lemma_number_starts(n@);
        assert(s[q] == s.subrange(q, e2)[0]);
    }
    if t1 is True || t1 is False || t1 is Null {
        assert(s[q] == s.subrange(q, e1)[0]);
    }
    if t2 is True || t2 is False || t2 is Null {
        assert(s[q] == s.subrange(q, e2)[0]);
    }
    match (t1, t2) {
        (Token::Number(n1), Token::Number(n2)) => {
            if e1 < e2 {
                assert(n1@ =~= n2@.subrange(0, n1@.len() as int));
                lemma_number_prefix_extends(n1@, n2@);
                assert(s[e1] == n2@[n1@.len() as int]);
            } else if e2 < e1 {
                assert(n2@ =~= n1@.subrange(0, n2@.len() as int));
                lemma_number_prefix_extends(n2@, n1@);
                assert(s[e2] == n1@[n2@.len() as int]);
            }
        },
        (Token::String(v1), Token::String(v2)) => {
            let r1 = s.subrange(q + 1, e1 - 1);
            let r2 = s.subrange(q + 1, e2 - 1);
            if e1 < e2 {
                assert(r1 =~= r2.subrange(0, r1.len() as int));
                lemma_decodes_align(r1, v1@, r2, v2@);
                let rest = r2.subrange(r1.len() as int, r2.len() as int);
                assert(rest[0] == s[e1 - 1]);
                assert(rest.len() > 0);
                assert(unit_len(rest) == 1);
                assert(rest.subrange(0, 1)[0] == '"');
            } else if e2 < e1 {
                assert(r2 =~= r1.subrange(0, r2.len() as int));
                lemma_decodes_align(r2, v2@, r1, v1@);
                let rest = r1.subrange(r2.len() as int, r1.len() as int);
                assert(rest[0] == s[e2 - 1]);
                assert(rest.len() > 0);
                assert(unit_len(rest) == 1);
                assert(rest.subrange(0, 1)[0] == '"');
            } else {
                assert(r1 =~= r2.subrange(0, r1.len() as int));
                lemma_decodes_align(r1, v1@, r2, v2@);
                assert(r2.subrange(r1.len() as int, r2.len() as int) =~= Seq::<char>::empty());
                assert(v2@.subrange(v1@.len() as int, v2@.len() as int).len() == 0);
                assert(v1@ =~= v2@);
            }
        },
        _ => {
            if t1 is True || t1 is False || t1 is Null {
                assert(s.subrange(q, e1) == keyword_text(t1));
                assert(keyword_text(t1)[0] == s[q]);
            }
            if t2 is True || t2 is False || t2 is Null {
                assert(s.subrange(q, e2) == keyword_text(t2));
                assert(keyword_text(t2)[0] == s[q]);
            }
            if (t1 is True || t1 is False || t1 is Null) && (t2 is True || t2 is False || t2 is Null) {
                assert(t1 == t2);
                assert(e1 - q == keyword_text(t1).len());
                assert(e2 - q == keyword_text(t2).len());
            }
        },
    }
}

/// A character sequence has at most one tokenization: two token sequences
/// that it is made of agree token for token.
pub proof fn lemma_tokenizes_unique(s: Seq<char>, p: int, ts1: Seq<Token>, ts2: Seq<Token>)
    requires
        tokenizes(s, p, ts1),
        tokenizes(s, p, ts2),
    ensures
        ts1.len() == ts2.len(),
        forall|i: int| 0 <= i < ts1.len() ==> same_token(#[trigger] ts1[i], ts2[i]),
    decreases ts1.len(),
{
    if ts1.len() == 0 || ts2.len() == 0 {
        if ts1.len() > 0 {
            let e = choose|e: int| #[trigger] lexes(s, skip_ws(s, p), e, ts1[0]) && tokenizes(s, e, ts1.drop_first());
        }
        if ts2.len() > 0 {
            let e = choose|e: int| #[trigger] lexes(s, skip_ws(s, p), e, ts2[0]) && tokenizes(s, e, ts2.drop_first());
        }
    } else {
        let e1 = choose|e: int| #[trigger] lexes(s, skip_ws(s, p), e, ts1[0]) && tokenizes(s, e, ts1.drop_first());
        let e2 = choose|e: int| #[trigger] lexes(s, skip_ws(s, p), e, ts2[0]) && tokenizes(s, e, ts2.drop_first());
        lemma_lexes_unique(s, skip_ws(s, p), e1, ts1[0], e2, ts2[0]);
        lemma_tokenizes_unique(s, e1, ts1.drop_first(), ts2.drop_first());
        assert forall|i: int| 0 <= i < ts1.len() implies same_token(#[trigger] ts1[i], ts2[i]) by {
            if i > 0 {
                assert(ts1[i] == ts1.drop_first()[i - 1]);
                assert(ts2[i] == ts2.drop_first()[i - 1]);
            }
        }
    }
}

/// Reading back the compact text of a token sequence that the grammar
/// accepts as complete documents (its numbers being numbers of the token
/// grammar) gives the same tokens: the text has exactly one tokenization, and
/// it is that sequence.
pub proof fn lemma_render_round_trip(ts: Seq<Token>, read: Seq<Token>)
    requires
        run_tokens(initial_context(), ts) is Some,
        run_tokens(initial_context(), ts).unwrap().path.len() == 0,
        numbers_valid(ts),
        tokenizes(documents_text(0, ts), 0, read),
    ensures
        read.len() == ts.len(),
        forall|i: int| 0 <= i < ts.len() ==> same_token(#[trigger] read[i], ts[i]),
{
    lemma_render_tokenizes(ts);
    lemma_tokenizes_unique(documents_text(0, ts), 0, read, ts);
}

/// Tokens with the same kind and text are accepted or refused alike.
pub proof fn lemma_same_token_step(c: ContextView, t1: Token, t2: Token)
    requires
        same_token(t1, t2),
    ensures
        step(c, t1) is Some <==> step(c, t2) is Some,
{
}

/// A lexeme is one of the kinds that the tokenizer owes success on.
pub proof fn lemma_lexes_kind(s: Seq<char>, start: int, e: int, t: Token)
    requires
        lexes(s, start, e, t),
    ensures
        (start < s.len() && is_punct(s[start])) || string_at(s, start) || number_at(s, start)
            || keyword_at(s, start, keyword_text(Token::True)) || keyword_at(s, start, keyword_text(Token::False))
            || keyword_at(s, start, keyword_text(Token::Null)),
{
    match t {
        Token::String(v) => {
            assert(string_lexeme(s, start, e, v@));
        },
        Token::Number(n) => {
            assert(s.subrange(start, e) == n@);
            assert(number_lexeme(s, start, e));
        },
        Token::True | Token::False | Token::Null => {
            assert(e == start + keyword_text(t).len());
        },
        _ => {},
    }
}

} // verus!
