use vstd::prelude::*;
use base64::Engine;

verus! {

/// What base64 decoding (RFC 4648 standard alphabet, `=` padding) yields on
/// a given input: the decoded bytes, or — for an input that is not valid
/// base64 — the text of the decode error. A function of the input alone.
pub uninterp spec fn b64_decode_of(s: Seq<char>) -> Result<Seq<u8>, Seq<char>>;

/// Relies on base64's `Engine::decode` with the `STANDARD` engine: RFC 4648
/// standard alphabet with `=` padding, rejecting bad symbols, bad padding
/// and bad length. The decoded bytes and the error text depend on the input
/// characters alone.
#[verifier::external_body]
pub(crate) fn b64_decode(s: &str) -> (r: Result<Vec<u8>, String>)
    ensures
        match r {
            Ok(v) => b64_decode_of(s@) matches Ok(b) && v@ == b,
            Err(e) => b64_decode_of(s@) matches Err(m) && e@ == m,
        },
{
    match base64::engine::general_purpose::STANDARD.decode(s) {
        Ok(v) => Ok(v),
        Err(e) => Err(format!("{}", e)),
    }
}

/// Relies on std's `String::from_utf8`: returns the string whose UTF-8
/// encoding is exactly the given bytes, or `None` where the bytes are not
/// valid UTF-8.
#[verifier::external_body]
pub(crate) fn utf8_to_string(bytes: Vec<u8>) -> (r: Option<String>)
    ensures
        match r {
            Some(s) => vstd::utf8::valid_utf8(bytes@) && s@ == vstd::utf8::decode_utf8(bytes@),
            None => !vstd::utf8::valid_utf8(bytes@),
        },
{
    match String::from_utf8(bytes) {
        Ok(s) => Some(s),
        Err(_) => None,
    }
}

} // verus!
