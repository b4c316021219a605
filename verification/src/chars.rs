use vstd::prelude::*;

verus! {

/// What `char::is_whitespace` returns: membership in the Unicode
/// `White_Space` category, a fixed property of the character alone.
pub uninterp spec fn char_is_whitespace(c: char) -> bool;

/// What `char::is_alphanumeric` returns: membership in the Unicode
/// `Alphabetic` category or one of the number categories, a fixed
/// property of the character alone.
pub uninterp spec fn char_is_alphanumeric(c: char) -> bool;

/// Relies on char::is_whitespace: true exactly on Unicode `White_Space`
/// characters; the result depends on the character alone.
pub assume_specification[ char::is_whitespace ](c: char) -> (r: bool)
    ensures
        r == char_is_whitespace(c),
;

/// Relies on char::is_alphanumeric: true exactly on Unicode alphabetic and
/// numeric characters; the result depends on the character alone.
pub assume_specification[ char::is_alphanumeric ](c: char) -> (r: bool)
    ensures
        r == char_is_alphanumeric(c),
;

/// Relies on String::push: appends the one character to the string.
pub assume_specification[ String::push ](s: &mut String, c: char)
    ensures
        final(s)@ == old(s)@.push(c),
;

} // verus!
