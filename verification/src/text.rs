use vstd::prelude::*;

verus! {

/// Relies on String::push: appends the given character to the end of the
/// string, leaving the characters before it unchanged.
pub assume_specification[ String::push ](s: &mut String, ch: char)
    ensures
        final(s)@ == old(s)@.push(ch),
;

} // verus!
