//! Unicode properties and normalization, as far as the library takes them from elsewhere.
use unicode_normalization::UnicodeNormalization;
use vstd::prelude::*;
use vstd::utf8::is_scalar;

verus! {

/// Outcome of a quick check for a normalization form.
#[derive(Debug, Clone, Copy, PartialEq, Eq, Structural)]
pub enum IsNormalized {
    /// The text is definitely normalized.
    Yes,
    /// The text is definitely not normalized.
    No,
    /// The text may be normalized.
    Maybe,
}

/// Whether a character has the property `Uppercase`.
pub uninterp spec fn char_is_uppercase(c: char) -> bool;

/// Whether a character has the property `White_Space`.
pub open spec fn char_is_whitespace(c: char) -> bool {
    ||| '\u{9}' <= c <= '\u{D}'
    ||| c == '\u{20}'
    ||| c == '\u{85}'
    ||| c == '\u{A0}'
    ||| c == '\u{1680}'
    ||| '\u{2000}' <= c <= '\u{200A}'
    ||| c == '\u{2028}'
    ||| c == '\u{2029}'
    ||| c == '\u{202F}'
    ||| c == '\u{205F}'
    ||| c == '\u{3000}'
}

/// The lowercase mapping of a character; the character itself if it has none.
pub uninterp spec fn char_lowercase(c: char) -> Seq<char>;

/// The canonical combining class of a character.
pub uninterp spec fn combining_class(c: char) -> u8;

/// What the quick check for NFKC says of text.
pub uninterp spec fn nfkc_quick(text: Seq<char>) -> IsNormalized;

/// Text in NFKC.
pub uninterp spec fn nfkc(text: Seq<char>) -> Seq<char>;

/// Appending `c` to text never changes what the quick check says of it.
pub open spec fn is_inert(c: char) -> bool {
    forall|text: Seq<char>| #[trigger] nfkc_quick(text.push(c)) == nfkc_quick(text)
}

/// `char::is_uppercase`: a fixed property of the character, named `char_is_uppercase`.
pub assume_specification[ char::is_uppercase ](c: char) -> (r: bool)
    ensures
        r == char_is_uppercase(c),
;

/// `char::is_whitespace`: whether the character has the property `White_Space`, that is
/// whether it is one of the characters to which the Unicode Character Database gives it.
pub assume_specification[ char::is_whitespace ](c: char) -> (r: bool)
    ensures
        r == char_is_whitespace(c),
;

/// `char::from_u32`: a number is converted to the character with that number, and to
/// nothing exactly if it is no Unicode scalar value.
pub assume_specification[ char::from_u32 ](i: u32) -> (r: Option<char>)
    ensures
        r is Some <==> is_scalar(i),
        r matches Some(c) ==> c as u32 == i,
;

/// `unicode_normalization::char::canonical_combining_class`: a fixed property of the
/// character, named `combining_class`.
pub assume_specification[ unicode_normalization::char::canonical_combining_class ](c: char) -> (r:
    u8)
    ensures
        r == combining_class(c),
;

/// Returns the lowercase mapping of a character.
///
/// Stands for `char::to_lowercase`, whose iterator yields a fixed mapping of one or more
/// characters, named `char_lowercase`.
#[verifier::external_body]
pub(crate) fn to_lowercase(c: char) -> (r: Vec<char>)
    ensures
        r@ == char_lowercase(c),
        r@.len() >= 1,
{
    c.to_lowercase().collect()
}

/// Returns text in NFKC.
///
/// Stands for `UnicodeNormalization::nfkc` on an iterator of characters: what it yields
/// depends on the given characters alone and is named `nfkc`.
#[verifier::external_body]
pub(crate) fn to_nfkc(text: &[char]) -> (r: Vec<char>)
    ensures
        r@ == nfkc(text@),
{
    text.iter().copied().nfkc().collect()
}

/// Quickly checks whether text is in NFKC.
///
/// Stands for `unicode_normalization::is_nfkc_quick`: what it says depends on the given
/// characters alone and is named `nfkc_quick`. It goes through the characters once and
/// says `Yes` unless one of them is not allowed, may not be allowed, or is out of the
/// canonical order; it passes over ASCII. So text of which it says `Yes` has only
/// characters of which it says `Yes`, ASCII is always normalized, and a single character
/// of which it says `Yes` changes nothing at the end of other text if its combining class
/// is zero or if it is ASCII.
#[verifier::external_body]
pub(crate) fn is_nfkc_quick(text: &[char]) -> (r: IsNormalized)
    ensures
        r == nfkc_quick(text@),
        r is Yes ==> forall|i: int|
            0 <= i < text@.len() ==> nfkc_quick(seq![#[trigger] text@[i]]) is Yes,
        (forall|i: int| 0 <= i < text@.len() ==> #[trigger] text@[i] <= '\x7f') ==> r is Yes,
        r is Yes && text@.len() == 1 && (combining_class(text@[0]) == 0 || text@[0] <= '\x7f')
            ==> is_inert(text@[0]),
{
    match unicode_normalization::is_nfkc_quick(text.iter().copied()) {
        unicode_normalization::IsNormalized::Yes => IsNormalized::Yes,
        unicode_normalization::IsNormalized::No => IsNormalized::No,
        unicode_normalization::IsNormalized::Maybe => IsNormalized::Maybe,
    }
}

} // verus!
