//! The byte codecs that frame record payloads on disk: base64 over the
//! payload's UTF-8 bytes. The outside calls stand behind trusted wrappers;
//! everything said about them is in terms of the two named results below.

use vstd::prelude::*;

verus! {

/// The bytes that the standard base64 alphabet (with `=` padding) is drawn
/// from: `A`-`Z`, `a`-`z`, `0`-`9`, `+`, `/`, `=`.
pub open spec fn is_b64_byte(b: u8) -> bool {
    (65 <= b <= 90) || (97 <= b <= 122) || (48 <= b <= 57) || b == 43 || b == 47 || b == 61
}

/// What base64 (standard alphabet, padded) makes of a byte sequence.
pub uninterp spec fn b64_enc(bytes: Seq<u8>) -> Seq<u8>;

/// What base64 decoding (standard alphabet, padding required) makes of a byte
/// sequence: `None` where the input is not valid base64.
pub uninterp spec fn b64_dec(bytes: Seq<u8>) -> Option<Seq<u8>>;

/// Relies on base64's `Engine::encode` with the `STANDARD` engine: the result
/// depends on the input bytes alone, is drawn from the standard alphabet plus
/// `=` padding, is empty exactly on empty input, and `Engine::decode` inverts
/// it (the round trip the crate documents).
#[verifier::external_body]
pub(crate) fn b64_encode(bytes: &[u8]) -> (r: Vec<u8>)
    requires
        bytes@.len() < 0x4000_0000,
    ensures
        r@ == b64_enc(bytes@),
        forall|i: int| 0 <= i < r@.len() ==> is_b64_byte(r@[i]),
        b64_dec(r@) == Some(bytes@),
        bytes@.len() == 0 ==> r@.len() == 0,
{
    base64::Engine::encode(&base64::engine::general_purpose::STANDARD, bytes).into_bytes()
}

/// Relies on base64's `Engine::decode` with the `STANDARD` engine: the result
/// depends on the input bytes alone; it never panics.
#[verifier::external_body]
pub(crate) fn b64_decode(bytes: &[u8]) -> (r: Option<Vec<u8>>)
    ensures
        match r {
            Some(v) => b64_dec(bytes@) == Some(v@),
            None => b64_dec(bytes@) is None,
        },
{
    base64::Engine::decode(&base64::engine::general_purpose::STANDARD, bytes).ok()
}

/// Relies on `String::from_utf8`: it succeeds exactly on valid UTF-8 input and
/// returns the string whose UTF-8 encoding is that input.
#[verifier::external_body]
pub(crate) fn string_from_utf8(v: Vec<u8>) -> (r: Option<String>)
    ensures
        match r {
            Some(s) => vstd::utf8::valid_utf8(v@) && s@ == vstd::utf8::decode_utf8(v@),
            None => !vstd::utf8::valid_utf8(v@),
        },
{
    String::from_utf8(v).ok()
}

} // verus!
