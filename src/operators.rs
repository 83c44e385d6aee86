use vstd::prelude::*;
use vstd::string::StringExecFns;

use crate::error::{Item, JQErr};
use crate::stream_context::{ContextView, JsonParsingState};
use crate::token::Token;

verus! {

/// What an operator does with one token that its validated input yields.
pub enum Action {
    /// Yields nothing.
    Skip,
    /// Yields the token itself.
    Forward,
    /// Yields a `null` value.
    YieldNull,
    /// Yields a `StreamOperationFailed` error and ends.
    Fail,
}

/// The token `t`, arriving in context `p`, is part of a child value (an
/// element, or a member value) of a top-level container.
pub open spec fn child_token(p: ContextView, t: Token) -> bool {
    ||| p.path.len() > 1
    ||| (p.path.len() == 1 && p.state == JsonParsingState::Value)
    ||| (p.path.len() == 1 && p.state == JsonParsingState::FirstArrayValue && !(t is ArrayEnd))
}

/// The index, among the six kinds of value, of the kind that `t` starts.
pub open spec fn kind_index(t: Token) -> int {
    match t {
        Token::ArrayStart => 0,
        Token::ObjectStart => 1,
        Token::True | Token::False => 2,
        Token::String(_) => 3,
        Token::Number(_) => 4,
        _ => 5,
    }
}

/// The name of the kind of value with index `i`.
pub open spec fn kind_name_at(i: int) -> Seq<char> {
    if i == 0 {
        "array"@
    } else if i == 1 {
        "object"@
    } else if i == 2 {
        "boolean"@
    } else if i == 3 {
        "string"@
    } else if i == 4 {
        "number"@
    } else {
        "null"@
    }
}

/// The error an operator yields for a value that `t` starts, from its
/// messages (one per kind of value).
pub open spec fn failure(messages: Seq<String>, t: Token) -> Item {
    Err(JQErr::StreamOperationFailed(messages[kind_index(t)]))
}

/// What an action on token `t` yields.
pub open spec fn emitted(action: Action, t: Token, messages: Seq<String>) -> Seq<Item> {
    match action {
        Action::Skip => Seq::empty(),
        Action::Forward => seq![Ok(t)],
        Action::YieldNull => seq![Ok(Token::Null)],
        Action::Fail => seq![failure(messages, t)],
    }
}

/// How `out` changed for an action on token `t`.
pub open spec fn acted(action: Action, t: Token, before: Seq<Item>, after: Seq<Item>, messages: Seq<String>) -> bool {
    match action {
        Action::Skip => after == before,
        Action::Forward => after == before.push(Ok(t)),
        Action::YieldNull => after == before.push(Ok(Token::Null)),
        Action::Fail => after == before.push(failure(messages, t)),
    }
}

pub proof fn lemma_acted_emitted(action: Action, t: Token, before: Seq<Item>, after: Seq<Item>, messages: Seq<String>)
    requires
        acted(action, t, before, after, messages),
    ensures
        after == before + emitted(action, t, messages),
{
    assert(before + Seq::<Item>::empty() =~= before);
    assert(before.push(Ok(t)) =~= before + seq![Ok::<Token, JQErr>(t)]);
    assert(before.push(Ok(Token::Null)) =~= before + seq![Ok::<Token, JQErr>(Token::Null)]);
    assert(before.push(failure(messages, t)) =~= before + seq![failure(messages, t)]);
}

/// Messages `prefix + kind + suffix`, one for each kind of value.
pub open spec fn messages_are(messages: Seq<String>, prefix: Seq<char>, suffix: Seq<char>) -> bool {
    &&& messages.len() == 6
    &&& forall|i: int| 0 <= i < 6 ==> (#[trigger] messages[i])@ == prefix + kind_name_at(i) + suffix
}

pub(crate) fn kind_index_of(t: &Token) -> (r: usize)
    ensures
        r == kind_index(*t),
{
    match t {
        Token::ArrayStart => 0,
        Token::ObjectStart => 1,
        Token::True | Token::False => 2,
        Token::String(_) => 3,
        Token::Number(_) => 4,
        _ => 5,
    }
}

fn kind_name_at_index(i: usize) -> (r: &'static str)
    ensures
        r@ == kind_name_at(i as int),
{
    if i == 0 {
        "array"
    } else if i == 1 {
        "object"
    } else if i == 2 {
        "boolean"
    } else if i == 3 {
        "string"
    } else if i == 4 {
        "number"
    } else {
        "null"
    }
}

/// Builds the six messages `prefix + kind + suffix`.
pub(crate) fn build_messages(prefix: &str, suffix: &str) -> (r: Vec<String>)
    ensures
        messages_are(r@, prefix@, suffix@),
{
    let mut r: Vec<String> = Vec::new();
    let mut i: usize = 0;
    while i < 6
        invariant
            i <= 6,
            r@.len() == i,
            forall|k: int| 0 <= k < i ==> (#[trigger] r@[k])@ == prefix@ + kind_name_at(k) + suffix@,
        decreases 6 - i,
    {
        let m = prefix.to_owned().concat(kind_name_at_index(i)).concat(suffix);
        r.push(m);
        i = i + 1;
    }
    r
}

/// Appends the error for the value that `t` starts.
pub(crate) fn push_failure(out: &mut Vec<Item>, messages: &Vec<String>, t: &Token)
    requires
        messages@.len() == 6,
    ensures
        final(out)@ == old(out)@.push(failure(messages@, *t)),
{
    let m = messages[kind_index_of(t)].clone();
    out.push(Err(JQErr::StreamOperationFailed(m)));
}

/// Decides `child_token` from the depth and state before the token.
pub(crate) fn is_child_token(depth: usize, state: JsonParsingState, t: &Token, Ghost(p): Ghost<ContextView>) -> (r: bool)
    requires
        depth == p.path.len(),
        state == p.state,
    ensures
        r == child_token(p, *t),
{
    depth > 1 || (depth == 1 && (state == JsonParsingState::Value || (state
        == JsonParsingState::FirstArrayValue && !matches!(t, Token::ArrayEnd))))
}

} // verus!
