//! From the bytes of a label to its text.
//!
//! A label is read as UTF-8 with every invalid sequence replaced, and then
//! put in lower case. Both steps are the standard library's. What they give
//! on valid UTF-8 and on ASCII is spelled out here; the rest goes by name.

use vstd::prelude::*;
use vstd::utf8::{
    decode_utf8, encode_utf8, encode_utf8_decode_utf8, encode_utf8_valid_utf8, is_ascii_chars,
    is_ascii_chars_encode_utf8, valid_utf8,
};

verus! {

/// The text that lossy UTF-8 decoding makes of `bytes`.
pub uninterp spec fn utf8_lossy(bytes: Seq<u8>) -> Seq<char>;

/// The lower-case form of `text` by the rules of Unicode.
pub uninterp spec fn lowercase(text: Seq<char>) -> Seq<char>;

/// Every byte is below 128.
pub open spec fn is_ascii_bytes(bytes: Seq<u8>) -> bool {
    forall|i: int| 0 <= i < bytes.len() ==> #[trigger] bytes[i] < 128
}

/// `c` with the letters `A` to `Z` moved to `a` to `z`.
pub open spec fn ascii_lower(c: char) -> char {
    if 'A' <= c <= 'Z' {
        ((c as u8) + 32) as char
    } else {
        c
    }
}

/// The text that `bytes` spell: what they encode where they are valid
/// UTF-8, and what lossy decoding makes of them where they are not.
pub open spec fn utf8_text(bytes: Seq<u8>) -> Seq<char> {
    if valid_utf8(bytes) {
        decode_utf8(bytes)
    } else {
        utf8_lossy(bytes)
    }
}

/// `text` in lower case: in ASCII text the letters `A` to `Z` become `a` to
/// `z` and nothing else changes; other text goes by the rules of Unicode.
pub open spec fn lower_text(text: Seq<char>) -> Seq<char> {
    if is_ascii_chars(text) {
        text.map_values(|c: char| ascii_lower(c))
    } else {
        lowercase(text)
    }
}

/// The text of a label with the given bytes.
pub open spec fn label_text(bytes: Seq<u8>) -> Seq<char> {
    lower_text(utf8_text(bytes))
}

/// ASCII bytes as text, byte for byte.
pub open spec fn ascii_text(bytes: Seq<u8>) -> Seq<char> {
    Seq::new(bytes.len(), |i: int| bytes[i] as char)
}

/// ASCII bytes are valid UTF-8 and spell themselves.
pub proof fn lemma_ascii_utf8_text(bytes: Seq<u8>)
    requires
        is_ascii_bytes(bytes),
    ensures
        utf8_text(bytes) == ascii_text(bytes),
        is_ascii_chars(ascii_text(bytes)),
{
    let chars = ascii_text(bytes);
    is_ascii_chars_encode_utf8(chars);
    assert(encode_utf8(chars) =~= bytes);
    encode_utf8_valid_utf8(chars);
    encode_utf8_decode_utf8(chars);
}

/// Calls `String::from_utf8_lossy` and owns the result. The contract names
/// the result, and claims that bytes which are valid UTF-8 come back as the
/// text they encode.
#[verifier::external_body]
fn from_utf8_lossy(bytes: &[u8]) -> (text: String)
    ensures
        text@ == utf8_lossy(bytes@),
        valid_utf8(bytes@) ==> text@ == decode_utf8(bytes@),
{
    String::from_utf8_lossy(bytes).into_owned()
}

/// Calls `str::to_lowercase`. The contract names the result, and claims that
/// in ASCII text exactly the letters `A` to `Z` change, each to its small
/// letter.
#[verifier::external_body]
fn to_lowercase(text: &str) -> (lower: String)
    ensures
        lower@ == lowercase(text@),
        is_ascii_chars(text@) ==> lower@ == text@.map_values(|c: char| ascii_lower(c)),
{
    text.to_lowercase()
}

/// Decodes the bytes of one label into lower-case text.
pub fn decode_label(bytes: &[u8]) -> (text: String)
    ensures
        text@ == label_text(bytes@),
{
    let lossy = from_utf8_lossy(bytes);
    to_lowercase(lossy.as_str())
}

} // verus!
