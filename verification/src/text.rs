//! Text operations of the standard library that key derivation rests on.

use vstd::prelude::*;
use vstd::string::*;
use vstd::utf8::*;

verus! {

/// What `char::is_whitespace` gives for the character.
pub uninterp spec fn is_whitespace_char(c: char) -> bool;

/// The text that `str::to_lowercase` gives for the text.
pub uninterp spec fn lowercase_of(text: Seq<char>) -> Seq<char>;

/// Calls `char::is_whitespace`: whether the character has the Unicode
/// property `White_Space`.
#[verifier::external_body]
pub(crate) fn char_is_whitespace(c: char) -> (accepted: bool)
    ensures
        accepted == is_whitespace_char(c),
{
    c.is_whitespace()
}

/// Calls `str::from_utf8`: the bytes as text where they are valid UTF-8,
/// nothing where they are not.
#[verifier::external_body]
pub(crate) fn utf8_text(bytes: &[u8]) -> (text: Option<&str>)
    ensures
        text is Some <==> valid_utf8(bytes@),
        text matches Some(s) ==> s.spec_bytes() == bytes@,
{
    std::str::from_utf8(bytes).ok()
}

/// Calls `str::to_lowercase`: the text in lower case.
#[verifier::external_body]
pub(crate) fn lowercase(text: &str) -> (lowered: String)
    ensures
        lowered@ == lowercase_of(text@),
{
    text.to_lowercase()
}

} // verus!
