//! What the text logic asks of a character and of a text: Unicode
//! categories, white space and word boundaries.  These come from
//! `unicode_categories`, std and `unicode_segmentation`; each answer is named
//! here and depends on its argument alone.
use vstd::prelude::*;
use unicode_categories::UnicodeCategories;
use unicode_segmentation::UnicodeSegmentation;

verus! {

/// Whether the character is in the Unicode category "Punctuation, Initial
/// Quote" (Pi).
pub uninterp spec fn is_initial_quote(c: char) -> bool;

/// Whether the character is in the Unicode category "Punctuation, Final
/// Quote" (Pf).
pub uninterp spec fn is_final_quote(c: char) -> bool;

/// Whether the character is in the Unicode category "Punctuation, Open" (Ps).
pub uninterp spec fn is_open_punct(c: char) -> bool;

/// Whether the character is in the Unicode category "Punctuation, Close" (Pe).
pub uninterp spec fn is_close_punct(c: char) -> bool;

/// Whether the character is a letter (Unicode categories Ll, Lm, Lo, Lt, Lu).
pub uninterp spec fn is_letter_char(c: char) -> bool;

/// Whether the character is a number (Unicode categories Nd, Nl, No).
pub uninterp spec fn is_number_char(c: char) -> bool;

/// Whether the character has the Unicode property White_Space.
pub uninterp spec fn is_white_space(c: char) -> bool;

/// The byte offsets at which the extended grapheme clusters of a text
/// start, in order.
pub uninterp spec fn grapheme_starts(text: Seq<char>) -> Seq<usize>;

/// The pieces a text splits into at its UAX#29 word boundaries.
pub uninterp spec fn word_segments(text: Seq<char>) -> Seq<Seq<char>>;

/// `UnicodeCategories::is_punctuation_initial_quote`: a lookup of the
/// character in the crate's table of the category Pi.
#[verifier::external_body]
pub(crate) fn initial_quote(c: char) -> (r: bool)
    ensures
        r == is_initial_quote(c),
{
    c.is_punctuation_initial_quote()
}

/// `UnicodeCategories::is_punctuation_final_quote`: a lookup of the
/// character in the crate's table of the category Pf.
#[verifier::external_body]
pub(crate) fn final_quote(c: char) -> (r: bool)
    ensures
        r == is_final_quote(c),
{
    c.is_punctuation_final_quote()
}

/// `UnicodeCategories::is_punctuation_open`: a lookup of the character in
/// the crate's table of the category Ps.
#[verifier::external_body]
pub(crate) fn open_punct(c: char) -> (r: bool)
    ensures
        r == is_open_punct(c),
{
    c.is_punctuation_open()
}

/// `UnicodeCategories::is_punctuation_close`: a lookup of the character in
/// the crate's table of the category Pe.
#[verifier::external_body]
pub(crate) fn close_punct(c: char) -> (r: bool)
    ensures
        r == is_close_punct(c),
{
    c.is_punctuation_close()
}

/// `UnicodeCategories::is_letter`: whether the character is in one of the
/// five letter categories of the crate's tables.
#[verifier::external_body]
pub(crate) fn letter(c: char) -> (r: bool)
    ensures
        r == is_letter_char(c),
{
    c.is_letter()
}

/// `UnicodeCategories::is_number`: whether the character is in one of the
/// three number categories of the crate's tables.
#[verifier::external_body]
pub(crate) fn number(c: char) -> (r: bool)
    ensures
        r == is_number_char(c),
{
    c.is_number()
}

/// `char::is_whitespace` of std: whether the character has the property
/// White_Space.
#[verifier::external_body]
pub(crate) fn white_space(c: char) -> (r: bool)
    ensures
        r == is_white_space(c),
{
    c.is_whitespace()
}

/// `UnicodeSegmentation::grapheme_indices` with extended clusters, keeping
/// the offsets: each is where a (non-empty) cluster of the text starts, so
/// a character boundary inside the text.
#[verifier::external_body]
pub(crate) fn grapheme_offsets(text: &str) -> (r: Vec<usize>)
    ensures
        r@ == grapheme_starts(text@),
        forall|i: int| 0 <= i < r@.len() ==> (#[trigger] r@[i]) < vstd::utf8::encode_utf8(text@).len()
            && vstd::utf8::is_char_boundary(vstd::utf8::encode_utf8(text@), r@[i] as int),
{
    text.grapheme_indices(true).map(|(i, _)| i).collect()
}

/// `ToString::to_string` of a `char`: the text of that one character.
#[verifier::external_body]
pub(crate) fn char_text(c: char) -> (r: String)
    ensures
        r@ == seq![c],
{
    c.to_string()
}

/// `UnicodeSegmentation::split_word_bounds`: the text cut at its word
/// boundaries, each piece as a string.  Its documentation promises that the
/// pieces, put together, give back the text; what else the boundaries are
/// (UAX#29) is left to the name.
#[verifier::external_body]
pub(crate) fn word_bounds(text: &str) -> (r: Vec<String>)
    ensures
        r@.map_values(|s: String| s@) == word_segments(text@),
        r@.map_values(|s: String| s@).flatten() == text@,
{
    text.split_word_bounds().map(|s: &str| s.to_owned()).collect()
}

} // verus!
