//! Character conversions and string building taken from the standard
//! library.

use vstd::prelude::*;
use vstd::utf8::is_scalar;

verus! {

/// The lowercase mapping of a character, as `char::to_lowercase` yields it.
pub uninterp spec fn lowercase_of(c: char) -> Seq<char>;

/// `char::from_u32`: the character whose scalar value is `v`, or `None`
/// when `v` is a surrogate or above `char::MAX`, as its documentation
/// states.
#[verifier::external_body]
pub(crate) fn char_from_u32(v: u32) -> (r: Option<char>)
    ensures
        r == if is_scalar(v) {
            Some(v as char)
        } else {
            None
        },
{
    char::from_u32(v)
}

/// `char::to_lowercase`, collected: the lowercase mapping of `c`, which its
/// documentation describes as one or more characters.  What the mapping is
/// for a given character (Unicode's tables) is left to the name
/// [`lowercase_of`].
#[verifier::external_body]
pub(crate) fn char_to_lowercase(c: char) -> (r: Vec<char>)
    ensures
        r@ == lowercase_of(c),
        r@.len() >= 1,
{
    c.to_lowercase().collect()
}

/// `String::push`: appends `c` at the end of `s`.
#[verifier::external_body]
pub(crate) fn push_char(s: &mut String, c: char)
    ensures
        final(s)@ == old(s)@.push(c),
{
    s.push(c)
}

} // verus!
