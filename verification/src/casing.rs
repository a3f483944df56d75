//! Lower case.

use vstd::prelude::*;
use vstd::utf8::is_ascii_chars;

verus! {

/// The lower case of a text, after the tables of Unicode.
pub uninterp spec fn lowercase(s: Seq<char>) -> Seq<char>;

/// The lower case of an ASCII character.
pub open spec fn ascii_lowercase(c: char) -> char {
    if 'A' <= c <= 'Z' {
        (c as u32 + 32) as char
    } else {
        c
    }
}

/// The lower case of an ASCII text.
pub open spec fn ascii_lowered(s: Seq<char>) -> Seq<char> {
    s.map_values(|c: char| ascii_lowercase(c))
}

/// `str::to_lowercase` of the standard library. Its result depends on the text
/// alone; of an ASCII text it is the text with the letters `A` to `Z` replaced
/// by `a` to `z`. What it is of other texts is left to the tables of Unicode.
#[verifier::external_body]
pub(crate) fn to_lowercase(s: &str) -> (r: String)
    ensures
        r@ == lowercase(s@),
        is_ascii_chars(s@) ==> r@ == ascii_lowered(s@),
{
    s.to_lowercase()
}

} // verus!
