//! Specifications of the `String` methods that build text.
use vstd::prelude::*;

verus! {

/// Relies on `String::push`, which appends the given character to the end
/// of the string.
pub assume_specification[ String::push ](s: &mut String, ch: char)
    ensures
        final(s)@ == old(s)@.push(ch),
;

/// Relies on `String::push_str`, which appends the given string slice to the
/// end of the string.
pub assume_specification[ String::push_str ](s: &mut String, string: &str)
    ensures
        final(s)@ == old(s)@ + string@,
;

} // verus!
