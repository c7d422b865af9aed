//! Turning bytes into text: UTF-8 with replacement, and percent-encoding.
use vstd::prelude::*;

use vstd::utf8::{
    decode_utf8, encode_utf8, encode_utf8_decode_utf8, encode_utf8_valid_utf8, is_ascii_chars,
    is_ascii_chars_encode_utf8, valid_utf8,
};

verus! {

/// The text that `String::from_utf8_lossy` makes of `bytes`.
pub uninterp spec fn utf8_lossy_spec(bytes: Seq<u8>) -> Seq<char>;

/// Decodes `bytes` with `String::from_utf8_lossy`. Trusted: the text is
/// `utf8_lossy_spec` of the bytes, and, as std documents, valid UTF-8 is
/// decoded unchanged. What replaces invalid sequences is left unsaid.
#[verifier::external_body]
pub(crate) fn utf8_lossy(bytes: &[u8]) -> (res: String)
    ensures
        res@ == utf8_lossy_spec(bytes@),
        valid_utf8(bytes@) ==> res@ == decode_utf8(bytes@),
{
    String::from_utf8_lossy(bytes).into_owned()
}

/// The bytes that percent-encoding leaves as they are: ASCII letters and
/// digits, `-`, `.`, `_` and `~`.
pub open spec fn is_unreserved(b: u8) -> bool {
    (48 <= b <= 57) || (65 <= b <= 90) || (97 <= b <= 122) || b == 45 || b == 46 || b == 95 || b
        == 126
}

/// An upper-case hexadecimal digit.
pub open spec fn hex_digit(d: u8) -> char {
    if d < 10 {
        (48 + d) as char
    } else {
        (55 + d) as char
    }
}

/// Percent-encoding: every byte but the unreserved ones becomes `%` and two
/// upper-case hexadecimal digits.
pub open spec fn url_encode_spec(data: Seq<u8>) -> Seq<char>
    decreases data.len(),
{
    if data.len() == 0 {
        Seq::empty()
    } else {
        (if is_unreserved(data[0]) {
            seq![data[0] as char]
        } else {
            seq!['%', hex_digit(data[0] >> 4), hex_digit(data[0] & 15)]
        }) + url_encode_spec(data.drop_first())
    }
}

/// Percent-encodes `data` with `urlencoding::encode_binary`. Trusted: the
/// result is `url_encode_spec` of the data, as the crate documents and its
/// source does.
#[verifier::external_body]
pub(crate) fn url_encode_binary(data: &[u8]) -> (res: String)
    ensures
        res@ == url_encode_spec(data@),
{
    urlencoding::encode_binary(data).into_owned()
}


/// ASCII bytes are valid UTF-8 and decode to the characters they code.
pub proof fn lemma_ascii_utf8(bytes: Seq<u8>)
    requires
        forall|i: int| 0 <= i < bytes.len() ==> bytes[i] < 128,
    ensures
        valid_utf8(bytes),
        decode_utf8(bytes) == bytes.map_values(|b: u8| b as char),
{
    let chars = bytes.map_values(|b: u8| b as char);
    assert(is_ascii_chars(chars));
    is_ascii_chars_encode_utf8(chars);
    assert(encode_utf8(chars) =~= bytes);
    encode_utf8_valid_utf8(chars);
    encode_utf8_decode_utf8(chars);
}

} // verus!
