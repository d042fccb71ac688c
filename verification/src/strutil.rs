//! Small trusted bridges between `String`/`&str` and the character
//! sequences the rest of the crate reasons about.

use vstd::prelude::*;

verus! {

/// Relies on str::chars: it yields exactly the characters of the slice, in
/// order, which is the slice's view.
#[verifier::external_body]
pub(crate) fn str_chars(s: &str) -> (r: Vec<char>)
    ensures
        r@ == s@,
{
    s.chars().collect()
}

/// Relies on String implementing FromIterator<char>: collecting characters
/// builds the string whose characters they are, in order.
#[verifier::external_body]
pub(crate) fn chars_string(v: &Vec<char>) -> (r: String)
    ensures
        r@ == v@,
{
    v.iter().collect()
}

/// Relies on str::starts_with: true exactly when the pattern's characters
/// are a prefix of this slice's characters.
#[verifier::external_body]
pub(crate) fn str_starts_with(s: &str, prefix: &str) -> (r: bool)
    ensures
        r == (prefix@.len() <= s@.len() && s@.subrange(0, prefix@.len() as int) == prefix@),
{
    s.starts_with(prefix)
}

} // verus!
