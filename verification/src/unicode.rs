//! The parts of Unicode that the standard library decides: decoding bytes that
//! may not be UTF-8, and lower case beyond ASCII.

use crate::text;
use vstd::prelude::*;
use vstd::utf8::*;

verus! {

/// What `String::from_utf8_lossy` makes of bytes that are not UTF-8: the text
/// with replacement characters in place of what cannot be decoded.
pub uninterp spec fn utf8_with_replacements(bytes: Seq<u8>) -> Seq<char>;

/// What `str::to_lowercase` makes of text that is not all ASCII.
pub uninterp spec fn unicode_lowercase(s: Seq<char>) -> Seq<char>;

/// The text that `bytes` encode, with replacement characters where they are not
/// UTF-8.
pub open spec fn utf8_lossy(bytes: Seq<u8>) -> Seq<char> {
    if valid_utf8(bytes) {
        decode_utf8(bytes)
    } else {
        utf8_with_replacements(bytes)
    }
}

/// `s` in lower case.
pub open spec fn lowercase(s: Seq<char>) -> Seq<char> {
    if is_ascii_chars(s) {
        text::ascii_lowered(s)
    } else {
        unicode_lowercase(s)
    }
}

/// `String::from_utf8_lossy`: bytes that are UTF-8 are decoded as they are. What
/// becomes of others is named, not described.
#[verifier::external_body]
pub(crate) fn from_utf8_lossy(bytes: &[u8]) -> (r: String)
    ensures
        r@ == if valid_utf8(bytes@) {
            decode_utf8(bytes@)
        } else {
            utf8_with_replacements(bytes@)
        },
{
    String::from_utf8_lossy(bytes).into_owned()
}

/// `str::to_lowercase`: ASCII letters of ASCII text go to lower case. What
/// becomes of other text is named, not described.
#[verifier::external_body]
pub(crate) fn to_lowercase(s: &str) -> (r: String)
    ensures
        r@ == if is_ascii_chars(s@) {
            text::ascii_lowered(s@)
        } else {
            unicode_lowercase(s@)
        },
{
    s.to_lowercase()
}

/// Text that was encoded is decoded to itself.
pub proof fn law_utf8_reads_back(t: Seq<char>)
    ensures
        utf8_lossy(encode_utf8(t)) == t,
{
    broadcast use encode_utf8_valid_utf8, encode_utf8_decode_utf8;

}

} // verus!
