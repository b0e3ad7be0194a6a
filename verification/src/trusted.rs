use vstd::prelude::*;
use vstd::utf8::{valid_utf8, decode_utf8};
use crate::b64::is_b64_byte;

verus! {

// The only outside calls the token codec relies on: the HMAC signature from
// jsonwebtoken, UTF-8 decoding from std, and fresh identifiers from uuid.

/// Declares jsonwebtoken's error type, so the signing wrapper can return it
/// before verified code collapses it to the library's own error.
#[verifier::external_type_specification]
#[verifier::external_body]
pub struct ExJwtError(jsonwebtoken::errors::Error);

/// The base64url-encoded HMAC-SHA-512 tag of a message under a secret; a
/// function of the message and the secret alone.
pub uninterp spec fn hs512_sig(message: Seq<u8>, secret: Seq<u8>) -> Seq<u8>;

/// Relies on jsonwebtoken::crypto::sign with Algorithm::HS512 and an
/// EncodingKey built from the raw secret bytes: the result is the unpadded
/// base64url HMAC-SHA-512 tag of the message, deterministic in the message
/// and secret, and every byte of it is a base64url digit. The call always
/// succeeds: for this algorithm the signer factory only checks that the key
/// family is HMAC, which a key from raw secret bytes always has, HMAC key
/// setup accepts any key length, and signing itself is infallible.
#[verifier::external_body]
pub(crate) fn sign_hs512(message: &Vec<u8>, secret: &Vec<u8>) -> (r: Result<
    Vec<u8>,
    jsonwebtoken::errors::Error,
>)
    ensures
        r is Ok,
        (r matches Ok(s) ==> s@ == hs512_sig(message@, secret@) && forall|i: int|
            0 <= i < s@.len() ==> is_b64_byte(#[trigger] s@[i])),
{
    let key = jsonwebtoken::EncodingKey::from_secret(secret.as_slice());
    jsonwebtoken::crypto::sign(message.as_slice(), &key, jsonwebtoken::Algorithm::HS512).map(
        |s| s.into_bytes(),
    )
}

/// Relies on String::from_utf8: succeeds exactly on valid UTF-8 input and
/// returns the string those bytes encode, keeping the bytes unchanged.
#[verifier::external_body]
pub(crate) fn bytes_to_string(b: &Vec<u8>) -> (r: Option<String>)
    ensures
        (r matches Some(s) ==> valid_utf8(b@) && s@ == decode_utf8(b@)),
        (r is None ==> !valid_utf8(b@)),
{
    String::from_utf8(b.clone()).ok()
}

/// Relies on uuid::Uuid::new_v4 and its display form: a fresh random UUID in
/// the 36-character hyphenated rendering.
#[verifier::external_body]
pub(crate) fn new_uuid_string() -> (r: String)
    ensures
        r@.len() == 36,
{
    uuid::Uuid::new_v4().to_string()
}

} // verus!
