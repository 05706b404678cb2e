//! Why a request, a token or a configuration was refused.
use vstd::prelude::*;

verus! {

/// The reasons for which authorization fails.
#[derive(Clone, Copy, Debug, PartialEq, Eq, Structural)]
pub enum AuthError {
    CryptoInit,
    InvalidKeyList,
    RequiredWithoutKey,
    InvalidRole,
    DeviceLimit,
    ViewerInUse,
    RegistrationCacheFull,
    RegistrationCacheUnavailable,
    Unavailable,
    InvalidRequest,
    InvalidTimestamp,
    InvalidToken,
    UnknownKey,
    InvalidTokenSignature,
    InvalidDeviceKey,
    InvalidProof,
    InvalidClaims,
    ReplayCacheUnavailable,
    ReplayCacheFull,
    DeviceReplayCacheFull,
    Replayed,
    InvalidKeyId,
    InvalidKeyEncoding,
    InvalidKeyLength,
    DuplicateKeyId,
    InvalidClock,
}

/// The message reported for each error.
pub open spec fn message_text(e: AuthError) -> Seq<char> {
    match e {
        AuthError::CryptoInit => "cryptographic initialization failed"@,
        AuthError::InvalidKeyList => "invalid authorization public key list"@,
        AuthError::RequiredWithoutKey => "authorization is required but no public key is configured"@,
        AuthError::InvalidRole => "invalid authorization role"@,
        AuthError::DeviceLimit => "authorization device limit reached"@,
        AuthError::ViewerInUse => "viewer authorization is already in use"@,
        AuthError::RegistrationCacheFull => "authorization registration cache is full"@,
        AuthError::RegistrationCacheUnavailable => "authorization registration cache unavailable"@,
        AuthError::Unavailable => "authorization is unavailable"@,
        AuthError::InvalidRequest => "invalid authorization request"@,
        AuthError::InvalidTimestamp => "authorization proof timestamp is invalid"@,
        AuthError::InvalidToken => "invalid authorization token"@,
        AuthError::UnknownKey => "unknown authorization key"@,
        AuthError::InvalidTokenSignature => "invalid authorization token signature"@,
        AuthError::InvalidDeviceKey => "invalid device public key"@,
        AuthError::InvalidProof => "invalid authorization proof"@,
        AuthError::InvalidClaims => "invalid authorization claims"@,
        AuthError::ReplayCacheUnavailable => "authorization replay cache unavailable"@,
        AuthError::ReplayCacheFull => "authorization replay cache is full"@,
        AuthError::DeviceReplayCacheFull => "device authorization replay cache is full"@,
        AuthError::Replayed => "authorization proof was replayed"@,
        AuthError::InvalidKeyId => "invalid authorization key id"@,
        AuthError::InvalidKeyEncoding => "invalid authorization public key encoding"@,
        AuthError::InvalidKeyLength => "invalid authorization public key length"@,
        AuthError::DuplicateKeyId => "duplicate authorization key id"@,
        AuthError::InvalidClock => "system clock is invalid"@,
    }
}

impl AuthError {
    /// The message that is reported to the peer for this error.
    pub fn message(&self) -> (r: &'static str)
        ensures
            r@ == message_text(*self),
    {
        match self {
            AuthError::CryptoInit => "cryptographic initialization failed",
            AuthError::InvalidKeyList => "invalid authorization public key list",
            AuthError::RequiredWithoutKey =>
                "authorization is required but no public key is configured",
            AuthError::InvalidRole => "invalid authorization role",
            AuthError::DeviceLimit => "authorization device limit reached",
            AuthError::ViewerInUse => "viewer authorization is already in use",
            AuthError::RegistrationCacheFull => "authorization registration cache is full",
            AuthError::RegistrationCacheUnavailable =>
                "authorization registration cache unavailable",
            AuthError::Unavailable => "authorization is unavailable",
            AuthError::InvalidRequest => "invalid authorization request",
            AuthError::InvalidTimestamp => "authorization proof timestamp is invalid",
            AuthError::InvalidToken => "invalid authorization token",
            AuthError::UnknownKey => "unknown authorization key",
            AuthError::InvalidTokenSignature => "invalid authorization token signature",
            AuthError::InvalidDeviceKey => "invalid device public key",
            AuthError::InvalidProof => "invalid authorization proof",
            AuthError::InvalidClaims => "invalid authorization claims",
            AuthError::ReplayCacheUnavailable => "authorization replay cache unavailable",
            AuthError::ReplayCacheFull => "authorization replay cache is full",
            AuthError::DeviceReplayCacheFull => "device authorization replay cache is full",
            AuthError::Replayed => "authorization proof was replayed",
            AuthError::InvalidKeyId => "invalid authorization key id",
            AuthError::InvalidKeyEncoding => "invalid authorization public key encoding",
            AuthError::InvalidKeyLength => "invalid authorization public key length",
            AuthError::DuplicateKeyId => "duplicate authorization key id",
            AuthError::InvalidClock => "system clock is invalid",
        }
    }
}

} // verus!
