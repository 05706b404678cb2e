//! The calls into other crates and into the parts of std that vstd does not
//! specify. Every item here is believed, not proved: each doc comment says
//! what is claimed of the called function.
use vstd::prelude::*;
use sodiumoxide::crypto::sign;
use std::time::{SystemTime, SystemTimeError, UNIX_EPOCH};

verus! {

#[verifier::external_type_specification]
#[verifier::external_body]
pub struct ExDecodeError(base64::DecodeError);

#[verifier::external_type_specification]
#[verifier::external_body]
pub struct ExSignatureError(sign::Error);

#[verifier::external_type_specification]
#[verifier::external_body]
pub struct ExSystemTime(SystemTime);

#[verifier::external_type_specification]
#[verifier::external_body]
pub struct ExSystemTimeError(SystemTimeError);

/// What `base64::decode_config` with `URL_SAFE_NO_PAD` gives for the input
/// bytes: the decoded bytes, or `None` where it returns an error.
pub uninterp spec fn base64url_decode(input: Seq<u8>) -> Option<Seq<u8>>;

/// Whether libsodium's `crypto_sign_ed25519_verify_detached` accepts the
/// signature bytes for the message under the public key bytes.
pub uninterp spec fn ed25519_verify(signature: Seq<u8>, message: Seq<u8>, public_key: Seq<u8>) -> bool;

/// Whether the last byte of a signature leaves its three high bits clear, the
/// check that `ed25519::Signature::from_bytes` makes beyond the length.
pub open spec fn signature_scalar_bits_clear(bytes: Seq<u8>) -> bool {
    bytes.len() == 64 && bytes[63] & 0xe0u8 == 0
}

/// Calls `base64::decode_config(input, base64::URL_SAFE_NO_PAD)`. Claimed: the
/// result is a function of the input bytes alone, named `base64url_decode`.
#[verifier::external_body]
pub(crate) fn decode_base64url(input: &[u8]) -> (r: Result<Vec<u8>, base64::DecodeError>)
    ensures
        r is Ok <==> base64url_decode(input@) is Some,
        r matches Ok(v) ==> base64url_decode(input@) == Some(v@),
{
    base64::decode_config(input, base64::URL_SAFE_NO_PAD)
}

/// Calls `sodiumoxide::init`. Nothing is claimed of its outcome, which
/// depends on the machine.
#[verifier::external_body]
pub(crate) fn sodium_init() -> (r: Result<(), ()>) {
    sodiumoxide::init()
}

/// Calls `sign::PublicKey::from_slice` and hands out the key's bytes.
/// Claimed, as its source shows: `Some` exactly when the slice has 32 bytes,
/// and then the key holds those bytes.
#[verifier::external_body]
pub(crate) fn public_key_from_slice(bytes: &[u8]) -> (r: Option<[u8; 32]>)
    ensures
        r is Some <==> bytes@.len() == 32,
        r matches Some(k) ==> k@ == bytes@,
{
    sign::PublicKey::from_slice(bytes).map(|k| k.0)
}

/// Calls `sign::Signature::from_bytes` and hands out the signature's bytes.
/// Claimed, as the source of `ed25519` 1.5 shows: `Ok` exactly when the
/// slice has 64 bytes and the three high bits of the last are clear, and then
/// the signature holds those bytes.
#[verifier::external_body]
pub(crate) fn signature_from_bytes(bytes: &[u8]) -> (r: Result<[u8; 64], sign::Error>)
    ensures
        r is Ok <==> signature_scalar_bits_clear(bytes@),
        r matches Ok(s) ==> s@ == bytes@,
{
    match sign::Signature::from_bytes(bytes) {
        Ok(s) => Ok(s.to_bytes()),
        Err(e) => Err(e),
    }
}

/// Calls `sign::verify_detached` on the signature and key built from the
/// given bytes. Claimed: the answer is a function of the three byte strings,
/// named `ed25519_verify`. The signature bytes are those that
/// `Signature::from_bytes` accepts, so the conversion never fails.
#[verifier::external_body]
pub(crate) fn verify_detached(signature: &[u8; 64], message: &[u8], public_key: &[u8; 32]) -> (r: bool)
    requires
        signature_scalar_bits_clear(signature@),
    ensures
        r == ed25519_verify(signature@, message@, public_key@),
{
    match sign::Signature::from_bytes(signature) {
        Ok(s) => sign::verify_detached(&s, message, &sign::PublicKey(*public_key)),
        Err(_) => false,
    }
}

/// Calls `SystemTime::now`. Nothing is claimed: the result is the time.
#[verifier::external_body]
pub(crate) fn system_time_now() -> (r: SystemTime) {
    SystemTime::now()
}

/// Calls `SystemTime::duration_since(UNIX_EPOCH)`. Nothing is claimed of the
/// result, which depends on the clock reading passed in.
#[verifier::external_body]
pub(crate) fn duration_since_unix_epoch(t: SystemTime) -> (r: Result<
    core::time::Duration,
    SystemTimeError,
>) {
    t.duration_since(UNIX_EPOCH)
}

/// Calls `Duration::as_secs`. Nothing is claimed of the whole seconds.
#[verifier::external_body]
pub(crate) fn duration_as_secs(d: core::time::Duration) -> (r: u64) {
    d.as_secs()
}

} // verus!
