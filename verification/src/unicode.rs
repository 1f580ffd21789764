//! Character classes and case mappings that come from std's Unicode tables.

use vstd::prelude::*;

verus! {

/// Whether std's tables class `c` as alphabetic or numeric.
pub uninterp spec fn alphanumeric(c: char) -> bool;

/// Whether std's tables class `c` as uppercase.
pub uninterp spec fn uppercase(c: char) -> bool;

/// The lowercase form that std's tables give a text.
pub uninterp spec fn lower_text(s: Seq<char>) -> Seq<char>;

/// The uppercase form that std's tables give a text.
pub uninterp spec fn upper_text(s: Seq<char>) -> Seq<char>;

/// The characters that one character becomes in uppercase.
pub uninterp spec fn upper_char(c: char) -> Seq<char>;

/// `char::is_alphanumeric` of std: a function of the character alone.
pub assume_specification[ char::is_alphanumeric ](c: char) -> (r: bool)
    ensures
        r == alphanumeric(c),
;

/// `char::is_uppercase` of std: a function of the character alone.
pub assume_specification[ char::is_uppercase ](c: char) -> (r: bool)
    ensures
        r == uppercase(c),
;

/// `str::to_lowercase` of std: a function of the characters alone.
pub assume_specification[ str::to_lowercase ](s: &str) -> (r: String)
    ensures
        r@ == lower_text(s@),
;

/// `str::to_uppercase` of std: a function of the characters alone.
pub assume_specification[ str::to_uppercase ](s: &str) -> (r: String)
    ensures
        r@ == upper_text(s@),
;

/// `char::to_uppercase` of std, its characters collected: a function of the character alone.
#[verifier::external_body]
pub(crate) fn upper_of_char(c: char) -> (r: String)
    ensures
        r@ == upper_char(c),
{
    c.to_uppercase().collect::<String>()
}

} // verus!
