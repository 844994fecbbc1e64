use vstd::prelude::*;

verus! {

/// Relies on std's `String::push`: appends exactly one character at the end.
/// vstd specifies most of `String` but not `push`, so the contract is stated
/// here once for the whole crate.
pub assume_specification[ String::push ](s: &mut String, ch: char)
    ensures
        final(s)@ == old(s)@.push(ch),
;

} // verus!
