//! What the Unicode tables of the standard library and of `unicode-normalization` say.

use unicode_normalization::UnicodeNormalization;
use vstd::prelude::*;

use crate::stem::folded;

verus! {

/// Whether `char::is_alphabetic` holds of `c`.
pub uninterp spec fn alphabetic(c: char) -> bool;

/// Whether `char::is_alphanumeric` holds of `c`.
pub uninterp spec fn alphanumeric(c: char) -> bool;

/// Whether `char::is_whitespace` holds of `c`.
pub uninterp spec fn whitespace(c: char) -> bool;

/// What `str::to_lowercase` makes of the characters `s`.
pub uninterp spec fn unicode_lower(s: Seq<char>) -> Seq<char>;

/// The NFKD form of the characters `s`, as `unicode-normalization` computes it.
pub uninterp spec fn nfkd_form(s: Seq<char>) -> Seq<char>;

/// `char::is_alphabetic` is a property of the character alone.
pub assume_specification[ char::is_alphabetic ](c: char) -> (r: bool)
    ensures
        r == alphabetic(c),
;

/// `char::is_alphanumeric` is a property of the character alone, and every
/// alphabetic character has it.
pub assume_specification[ char::is_alphanumeric ](c: char) -> (r: bool)
    ensures
        r == alphanumeric(c),
        alphabetic(c) ==> r,
;

/// `char::is_whitespace` is a property of the character alone, the `White_Space` of
/// Unicode, which no ASCII digit has.
pub assume_specification[ char::is_whitespace ](c: char) -> (r: bool)
    ensures
        r == whitespace(c),
        '0' <= c <= '9' ==> !r,
;

/// `str::to_lowercase` depends on the characters of the string alone.
pub assume_specification[ str::to_lowercase ](s: &str) -> (r: String)
    ensures
        r@ == unicode_lower(s@),
;

/// Collects `UnicodeNormalization::nfkd`, which depends on the characters of
/// the string alone. What it gives is fully decomposed, with each run of combining marks
/// in order. Spaces and tabs neither decompose nor combine, and folding them leaves one
/// between any two runs of marks that it finds parted, so that a form with its spaces and
/// tabs folded is its own form.
#[verifier::external_body]
pub(crate) fn nfkd(s: &str) -> (r: String)
    ensures
        r@ == nfkd_form(s@),
        nfkd_form(folded(r@)) == folded(r@),
{
    s.nfkd().collect::<String>()
}

} // verus!
