use vstd::prelude::*;
use crate::codec::scalar;

verus! {

/// Relies on `str::chars` (collected into a `Vec`): the characters of `s`, in order.
#[verifier::external_body]
pub fn chars_of(s: &str) -> (r: Vec<char>)
    ensures
        r@ == s@,
{
    s.chars().collect()
}

/// Relies on `String: FromIterator<&char>`: the string made of the characters of `v`, in order.
#[verifier::external_body]
pub fn string_of(v: &Vec<char>) -> (r: String)
    ensures
        r@ == v@,
{
    v.iter().collect()
}

/// Relies on `char::from_u32`: the character whose scalar value is `v`, or `None` for a
/// surrogate or a value above `0x10FFFF`.
#[verifier::external_body]
pub fn char_from_scalar(v: u32) -> (r: Option<char>)
    ensures
        r == scalar(v as int),
{
    char::from_u32(v)
}

/// What `char::is_whitespace` answers: Unicode's `White_Space` property.
pub uninterp spec fn white_space(c: char) -> bool;

/// Relies on `char::is_whitespace`; its documentation lists space, tab, line feed and
/// carriage return among the characters it accepts.
#[verifier::external_body]
pub fn is_white_space(c: char) -> (r: bool)
    ensures
        r == white_space(c),
        (c == ' ' || c == '\t' || c == '\n' || c == '\r') ==> r,
{
    c.is_whitespace()
}

/// Relies on `chrono::Local::now` formatted with `%H:%M`: the local wall-clock time
/// as hours and minutes. It depends on the moment of the call, so nothing is stated of it.
#[verifier::external_body]
pub fn local_clock_hm() -> (r: String) {
    chrono::Local::now().format("%H:%M").to_string()
}

} // verus!
