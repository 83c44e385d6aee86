use vstd::prelude::*;

verus! {

/// Relies on `String::from_iter` over `char`s: the string holds exactly these
/// characters, in order.
#[verifier::external_body]
pub(crate) fn string_from_chars(chars: &Vec<char>) -> (r: String)
    ensures
        r@ == chars@,
{
    chars.iter().collect::<String>()
}

/// Relies on `char::from_u32`: the character with this scalar value, or `None`
/// for a surrogate code or a value past U+10FFFF.
#[verifier::external_body]
pub(crate) fn char_from_code(code: u32) -> (r: Option<char>)
    ensures
        r matches Some(c) ==> c as int == code as int,
        r is None ==> (0xD800 <= code <= 0xDFFF || code > 0x10FFFF),
{
    char::from_u32(code)
}

} // verus!

verus! {

/// Relies on `str::chars` collected into a `Vec`: the characters of `s`, in order.
#[verifier::external_body]
pub(crate) fn chars_of(s: &str) -> (r: Vec<char>)
    ensures
        r@ == s@,
{
    s.chars().collect()
}

} // verus!
