//! Contracts for the string functions of the standard library that the
//! collector calls.

use vstd::prelude::*;

verus! {

/// `String::with_capacity` returns an empty string. It panics where the
/// capacity exceeds `isize::MAX` bytes.
pub assume_specification[ String::with_capacity ](capacity: usize) -> (text: String)
    requires
        capacity <= isize::MAX,
    ensures
        text@ == Seq::<char>::empty(),
;

/// `String::push` appends one character to the end of the string.
pub assume_specification[ String::push ](text: &mut String, ch: char)
    ensures
        final(text)@ == old(text)@.push(ch),
;

/// `PartialEq::eq` on `str` says whether two string slices hold the same
/// characters.
pub assume_specification[ <str as PartialEq>::eq ](left: &str, right: &str) -> (equal: bool)
    ensures
        equal == (left@ == right@),
;

} // verus!
