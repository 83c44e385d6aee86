use vstd::prelude::*;

verus! {

/// A lexical unit of a JSON token stream.
///
/// `String` holds the decoded text of a JSON string (no escape sequences
/// remain); `Number` holds the lexical form of a number, verbatim.
#[derive(Clone, Debug, PartialEq, Eq)]
pub enum Token {
    ObjectStart,
    ObjectEnd,
    ArrayStart,
    ArrayEnd,
    Colon,
    Comma,
    String(String),
    Number(String),
    True,
    False,
    Null,
}

impl Token {
    /// A token that can begin a JSON value.
    pub open spec fn spec_is_value_start(&self) -> bool {
        !(self is ObjectEnd || self is ArrayEnd || self is Colon || self is Comma)
    }

    /// A token that is a complete JSON value on its own.
    pub open spec fn is_leaf(&self) -> bool {
        self is String || self is Number || self is True || self is False || self is Null
    }

    /// Whether this token can begin a JSON value.
    #[verifier::when_used_as_spec(spec_is_value_start)]
    pub fn is_value_start(&self) -> (r: bool)
        ensures
            r == self.spec_is_value_start(),
    {
        match self {
            Token::String(_)
            | Token::Number(_)
            | Token::True
            | Token::False
            | Token::Null
            | Token::ObjectStart
            | Token::ArrayStart => true,
            Token::Comma | Token::Colon | Token::ObjectEnd | Token::ArrayEnd => false,
        }
    }

    /// A copy of this token that Verus knows to be equal to it.
    pub fn duplicate(&self) -> (r: Token)
        ensures
            r == *self,
    {
        match self {
            Token::ObjectStart => Token::ObjectStart,
            Token::ObjectEnd => Token::ObjectEnd,
            Token::ArrayStart => Token::ArrayStart,
            Token::ArrayEnd => Token::ArrayEnd,
            Token::Colon => Token::Colon,
            Token::Comma => Token::Comma,
            Token::String(s) => Token::String(s.clone()),
            Token::Number(s) => Token::Number(s.clone()),
            Token::True => Token::True,
            Token::False => Token::False,
            Token::Null => Token::Null,
        }
    }
}

} // verus!
