use vstd::prelude::*;

use crate::grammar::{alphabetic, alphanumeric, is_ascii, is_ascii_letter, is_digit};

verus! {

/// Relies on `char::is_alphabetic`: its answer depends on the character
/// alone, and among ASCII characters exactly the letters are alphabetic.
#[verifier::external_body]
pub(crate) fn is_alphabetic(c: char) -> (r: bool)
    ensures
        r == alphabetic(c),
        is_ascii(c) ==> (r == is_ascii_letter(c)),
{
    c.is_alphabetic()
}

/// Relies on `char::is_alphanumeric`: its answer depends on the character
/// alone, and among ASCII characters exactly the letters and digits qualify.
#[verifier::external_body]
pub(crate) fn is_alphanumeric(c: char) -> (r: bool)
    ensures
        r == alphanumeric(c),
        is_ascii(c) ==> (r == (is_ascii_letter(c) || is_digit(c))),
{
    c.is_alphanumeric()
}

/// Relies on `str::chars` collected into a `Vec`: the characters of `s` in order.
#[verifier::external_body]
pub(crate) fn chars_of(s: &str) -> (r: Vec<char>)
    ensures
        r@ == s@,
{
    s.chars().collect()
}

/// Relies on `String`'s `FromIterator<&char>`: the characters of
/// `cs[start..end]` in order.
#[verifier::external_body]
pub(crate) fn text_of(cs: &[char], start: usize, end: usize) -> (r: String)
    requires
        start <= end <= cs@.len(),
    ensures
        r@ == cs@.subrange(start as int, end as int),
{
    String::from_iter(cs[start..end].iter())
}

} // verus!
