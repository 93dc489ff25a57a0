//! Display width of rendered text, measured in terminal columns.

use vstd::prelude::*;

use unicode_width::UnicodeWidthStr;

verus! {

/// The number of terminal columns that `text` occupies, as
/// `unicode_width::UnicodeWidthStr::width` counts them from the Unicode
/// East Asian Width tables; a function of the characters alone.
pub uninterp spec fn display_width(text: Seq<char>) -> usize;

/// Calls `UnicodeWidthStr::width` on the string made of `text`; the count is named
/// `display_width`.
#[verifier::external_body]
pub(crate) fn text_width(text: &Vec<char>) -> (w: usize)
    ensures
        w == display_width(text@),
{
    text.iter().collect::<String>().as_str().width()
}

} // verus!
