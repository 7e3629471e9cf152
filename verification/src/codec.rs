use vstd::prelude::*;
use base64::Engine;

verus! {

/// What `base64::engine::general_purpose::STANDARD.encode` returns for a
/// given byte string: the transport text encoding of the payload. The result
/// is a function of the bytes alone.
pub uninterp spec fn b64_of(b: Seq<u8>) -> Seq<char>;

/// Whether `base64::engine::general_purpose::STANDARD.decode` accepts a given
/// string. Acceptance is a function of the string alone.
pub uninterp spec fn b64_ok(s: Seq<char>) -> bool;

/// The bytes `base64::engine::general_purpose::STANDARD.decode` returns for
/// an accepted string; a function of the string alone.
pub uninterp spec fn b64_decoded(s: Seq<char>) -> Seq<u8>;

/// Relies on `base64`'s standard-alphabet engine: `encode` is deterministic
/// in the input bytes, and `decode` inverts it, so decoding an encoder output
/// always succeeds and returns the original bytes.
#[verifier::external_body]
pub(crate) fn b64_encode(b: &Vec<u8>) -> (r: String)
    ensures
        r@ == b64_of(b@),
        b64_ok(r@),
        b64_decoded(r@) == b@,
{
    base64::engine::general_purpose::STANDARD.encode(b.as_slice())
}

/// Relies on `base64`'s standard-alphabet engine: `decode` is deterministic
/// in the input string.
#[verifier::external_body]
pub(crate) fn b64_decode(s: &str) -> (r: Option<Vec<u8>>)
    ensures
        r is Some <==> b64_ok(s@),
        r matches Some(v) ==> v@ == b64_decoded(s@),
{
    base64::engine::general_purpose::STANDARD.decode(s).ok()
}

/// Encoding a raw payload in the transport text encoding and decoding it back
/// yields the original bytes, for every byte string including the empty one.
pub fn encode_then_decode(b: &Vec<u8>) -> (r: Vec<u8>)
    ensures
        r@ == b@,
{
    let text = b64_encode(b);
    let back = b64_decode(text.as_str());
    match back {
        Some(v) => v,
        None => {
            proof {
                assert(b64_ok(text@));
            }
            // unreachable: the decoder accepts every encoder output
            Vec::new()
        },
    }
}

} // verus!
