//! The calls into outside crates that the normalization pipeline makes, each
//! behind a small wrapper whose contract states what the call returns.
//! Results that are functions of the arguments alone but too large to write
//! out (Unicode compatibility decomposition, full case folding, suffix
//! stripping, lossy UTF-8 decoding) are given names by bodiless spec
//! functions, and the pipeline's own contracts are exact relative to those
//! names.

use vstd::prelude::*;
use vstd::utf8::{decode_utf8, encode_utf8, valid_utf8};
use crate::chars::is_ascii_char;
use unicode_normalization::UnicodeNormalization;

verus! {

/// Every character of the sequence is ASCII.
pub open spec fn all_ascii(s: Seq<char>) -> bool {
    forall|i: int| 0 <= i < s.len() ==> is_ascii_char(#[trigger] s[i])
}

/// The characters that lossy UTF-8 decoding yields for a byte sequence:
/// valid runs decode as themselves and each maximal invalid run is replaced
/// in a fixed way, so the result is a function of the bytes alone.
pub uninterp spec fn lossy_of(bytes: Seq<u8>) -> Seq<char>;

/// The Unicode compatibility decomposition followed by canonical
/// composition (NFKC) of a character sequence.
pub uninterp spec fn nfkc_of(s: Seq<char>) -> Seq<char>;

/// The full Unicode lowercase mapping of a single character, which may be
/// several characters long.
pub uninterp spec fn lower_chars_of(c: char) -> Seq<char>;

/// The root that English suffix stripping leaves of a word.
pub uninterp spec fn stem_of(s: Seq<char>) -> Seq<char>;

/// Relies on `String::from_utf8_lossy`: valid UTF-8 input decodes to its own
/// characters, invalid sequences are replaced deterministically, and the
/// returned string is materialized, so its byte length fits in `usize`.
#[verifier::external_body]
pub(crate) fn lossy_decode(bytes: &[u8]) -> (r: String)
    ensures
        r@ == lossy_of(bytes@),
        valid_utf8(bytes@) ==> r@ == decode_utf8(bytes@),
        encode_utf8(r@).len() <= usize::MAX,
{
    String::from_utf8_lossy(bytes).into_owned()
}

/// Relies on `UnicodeNormalization::nfkc` of the `unicode-normalization`
/// crate: the result depends on the input characters alone, and ASCII input
/// is already in normal form, so it comes back unchanged.
#[verifier::external_body]
pub(crate) fn nfkc_chars(s: &str) -> (r: Vec<char>)
    ensures
        r@ == nfkc_of(s@),
        all_ascii(s@) ==> r@ == s@,
{
    s.nfkc().collect()
}

/// Relies on `char::to_lowercase`: the Unicode lowercase mapping of a
/// character depends on that character alone and yields at least one
/// character.
#[verifier::external_body]
pub(crate) fn lower_char_expand(c: char) -> (r: Vec<char>)
    ensures
        r@ == lower_chars_of(c),
        r@.len() >= 1,
{
    c.to_lowercase().collect()
}

/// Relies on `waken_snowball::stem` with `Algorithm::English`: suffix
/// stripping is a function of the word alone.
#[verifier::external_body]
pub(crate) fn stem_word(w: &str) -> (r: String)
    ensures
        r@ == stem_of(w@),
{
    waken_snowball::stem(waken_snowball::Algorithm::English, w).into_owned()
}

/// Relies on `FromIterator<char> for String`: collecting characters yields
/// the string made of exactly those characters.
#[verifier::external_body]
pub(crate) fn chars_to_string(v: &Vec<char>) -> (r: String)
    ensures
        r@ == v@,
{
    v.iter().collect()
}

} // verus!
