use vstd::prelude::*;

use vstd::string::StringExecFns;

use crate::location::{location_text, Location};
use crate::token::Token;

verus! {

/// The errors that a token stream can carry.
#[derive(Clone, Debug, PartialEq, Eq)]
pub enum JQErr {
    /// The input ended before a value was complete.
    UnexpectedEOF,
    /// A token stream broke the JSON grammar (no source location is known).
    InvalidStream,
    /// A number had a leading `0` followed by another digit.
    IllegalLeading0(Location),
    /// A character that the JSON grammar does not allow here.
    UnexpectedCharacter(Location),
    /// A control character that must be escaped appeared unescaped in a string.
    UnescapedEscapeCharacter(Location),
    /// A backslash escape that JSON does not define.
    InvalidEscapeSequence(Location),
    /// An operator could not be applied to a value (for example indexing a number).
    StreamOperationFailed(String),
}

/// An element of a token stream: a token or an error.
pub type Item = Result<Token, JQErr>;

/// The message that describes an error.
pub open spec fn message_text(e: JQErr) -> Seq<char> {
    match e {
        JQErr::UnexpectedEOF => "Unexpected EOF."@,
        JQErr::InvalidStream => "Underlying stream was invalid."@,
        JQErr::IllegalLeading0(l) => "Found illegal leading 0 at "@ + location_text(l) + "."@,
        JQErr::UnexpectedCharacter(l) => "Found unexpected character at "@ + location_text(l) + "."@,
        JQErr::InvalidEscapeSequence(l) => "Found invalid escape sequence at "@ + location_text(l) + "."@,
        JQErr::UnescapedEscapeCharacter(l) => "Found unescaped version of a character which is required to be escaped at "@
            + location_text(l) + "."@,
        JQErr::StreamOperationFailed(m) => "error: "@ + m@,
    }
}

impl JQErr {
    /// The message that describes this error.
    pub fn message(&self) -> (r: String)
        ensures
            r@ == message_text(*self),
    {
        match self {
            JQErr::UnexpectedEOF => "Unexpected EOF.".to_owned(),
            JQErr::InvalidStream => "Underlying stream was invalid.".to_owned(),
            JQErr::IllegalLeading0(l) => "Found illegal leading 0 at ".to_owned().concat(
                l.describe().as_str(),
            ).concat("."),
            JQErr::UnexpectedCharacter(l) => "Found unexpected character at ".to_owned().concat(
                l.describe().as_str(),
            ).concat("."),
            JQErr::InvalidEscapeSequence(l) => "Found invalid escape sequence at ".to_owned().concat(
                l.describe().as_str(),
            ).concat("."),
            JQErr::UnescapedEscapeCharacter(l) =>
                "Found unescaped version of a character which is required to be escaped at ".to_owned().concat(
                l.describe().as_str(),
            ).concat("."),
            JQErr::StreamOperationFailed(m) => "error: ".to_owned().concat(m.as_str()),
        }
    }

    /// A copy of this error that Verus knows to be equal to it.
    pub fn duplicate(&self) -> (r: JQErr)
        ensures
            r == *self,
    {
        match self {
            JQErr::UnexpectedEOF => JQErr::UnexpectedEOF,
            JQErr::InvalidStream => JQErr::InvalidStream,
            JQErr::IllegalLeading0(l) => JQErr::IllegalLeading0(*l),
            JQErr::UnexpectedCharacter(l) => JQErr::UnexpectedCharacter(*l),
            JQErr::UnescapedEscapeCharacter(l) => JQErr::UnescapedEscapeCharacter(*l),
            JQErr::InvalidEscapeSequence(l) => JQErr::InvalidEscapeSequence(*l),
            JQErr::StreamOperationFailed(m) => JQErr::StreamOperationFailed(m.clone()),
        }
    }
}

} // verus!
