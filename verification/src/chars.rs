use vstd::prelude::*;

verus! {

/// What `char::is_alphabetic` returns for a character: the Unicode
/// classification is fixed, so the result depends on the character alone.
pub uninterp spec fn alphabetic(c: char) -> bool;

/// What `char::is_numeric` returns for a character: the Unicode
/// classification is fixed, so the result depends on the character alone.
pub uninterp spec fn numeric(c: char) -> bool;

/// Relies on `char::is_alphabetic`, which classifies a character by the
/// Unicode `Alphabetic` property of the character alone.
pub assume_specification[ char::is_alphabetic ](c: char) -> (r: bool)
    ensures
        r == alphabetic(c),
;

/// Relies on `char::is_numeric`, which classifies a character by the
/// Unicode numeric general categories of the character alone.
pub assume_specification[ char::is_numeric ](c: char) -> (r: bool)
    ensures
        r == numeric(c),
;

} // verus!
