//! Base64 text encoding for binary content payloads.

use vstd::prelude::*;

verus! {

/// The standard-alphabet, padded base64 encoding of a byte sequence.
pub uninterp spec fn b64_of(b: Seq<u8>) -> Seq<char>;

/// Relies on base64::encode (standard alphabet, padded): the encoding is a
/// function of the input bytes alone, four characters per three-byte group.
#[verifier::external_body]
pub fn encode_base64(b: &[u8]) -> (r: String)
    ensures
        r@ == b64_of(b@),
        r@.len() == 4 * ((b@.len() + 2) / 3),
{
    base64::encode(b)
}

} // verus!
