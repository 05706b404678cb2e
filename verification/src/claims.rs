//! The claims that a signed token carries, and the checks made on them.
use vstd::prelude::*;
use crate::clock::now_seconds;
use crate::outside::{base64url_decode, decode_base64url, public_key_from_slice};
use crate::text::{byte_len, str_eq};

verus! {

/// Greatest accepted skew between a peer's clock and ours, in seconds.
pub const MAX_CLOCK_SKEW_SECONDS: i64 = 30;

/// Greatest accepted lifetime of a token, in seconds.
pub const MAX_TOKEN_LIFETIME_SECONDS: i64 = 900;

/// The payload of an authorization token.
#[derive(Clone, Debug)]
pub struct Claims {
    pub iss: String,
    pub aud: String,
    pub sub: String,
    pub tenant: String,
    pub role: String,
    pub jti: String,
    pub device_public_key: String,
    pub kid: String,
    pub iat: i64,
    pub nbf: i64,
    pub exp: i64,
    pub max_sessions: u32,
}

pub open spec fn technician_role() -> Seq<char> {
    "technician"@
}

pub open spec fn viewer_role() -> Seq<char> {
    "viewer"@
}

pub open spec fn expected_issuer() -> Seq<char> {
    "relaisdesk-api"@
}

pub open spec fn expected_audience() -> Seq<char> {
    "rustdesk-network"@
}

/// The Ed25519 key of the device, when its base64url text decodes to 32 bytes.
pub open spec fn device_key_of(c: Claims) -> Option<Seq<u8>> {
    match base64url_decode(vstd::utf8::encode_utf8(c.device_public_key@)) {
        Some(b) => if b.len() == 32 {
            Some(b)
        } else {
            None
        },
        None => None,
    }
}

/// Whether the claims are in force at `now`, allowing for clock skew.
pub open spec fn current_at(c: Claims, now: i64) -> bool {
    now + MAX_CLOCK_SKEW_SECONDS >= c.nbf && now < c.exp
}

/// Whether a token with these claims is accepted at `now`.
pub open spec fn claims_valid(c: Claims, now: i64) -> bool {
    &&& c.iss@ == expected_issuer()
    &&& c.aud@ == expected_audience()
    &&& (c.role@ == technician_role() || c.role@ == viewer_role())
    &&& 0 < c.sub@.len() && byte_len(c.sub@) <= 128
    &&& 0 < c.tenant@.len() && byte_len(c.tenant@) <= 128
    &&& 16 <= byte_len(c.jti@) <= 128
    &&& 0 < c.kid@.len() && byte_len(c.kid@) <= 64
    &&& 1 <= c.max_sessions <= 10_000
    &&& c.iat <= c.nbf <= c.exp
    &&& c.exp - c.iat <= MAX_TOKEN_LIFETIME_SECONDS
    &&& current_at(c, now)
}

impl Claims {
    pub fn is_technician(&self) -> (r: bool)
        ensures
            r == (self.role@ == technician_role()),
    {
        str_eq(self.role.as_str(), "technician")
    }

    pub fn is_viewer(&self) -> (r: bool)
        ensures
            r == (self.role@ == viewer_role()),
    {
        str_eq(self.role.as_str(), "viewer")
    }

    /// The bytes of the device's Ed25519 public key.
    pub fn device_key(&self) -> (r: Option<[u8; 32]>)
        ensures
            r is Some <==> device_key_of(*self) is Some,
            r matches Some(k) ==> device_key_of(*self) == Some(k@),
    {
        match decode_base64url(self.device_public_key.as_str().as_bytes()) {
            Ok(bytes) => public_key_from_slice(bytes.as_slice()),
            Err(_) => None,
        }
    }

    /// Whether the claims are in force at `now`.
    pub fn is_current_at(&self, now: i64) -> (r: bool)
        ensures
            r == current_at(*self, now),
    {
        (now as i128) + (MAX_CLOCK_SKEW_SECONDS as i128) >= (self.nbf as i128) && now < self.exp
    }

    /// Whether the claims are in force by a clock reading; false when the
    /// clock could not be read.
    pub fn is_current_by(&self, clock: Result<i64, crate::error::AuthError>) -> (r: bool)
        ensures
            r == match clock {
                Ok(now) => current_at(*self, now),
                Err(_) => false,
            },
    {
        match clock {
            Ok(now) => self.is_current_at(now),
            Err(_) => false,
        }
    }

    /// Whether the claims are in force by the system clock; false when the
    /// clock cannot be read.
    pub fn is_current(&self) -> (r: bool)
        ensures
            r ==> exists|now: i64| current_at(*self, now),
    {
        self.is_current_by(now_seconds())
    }
}

/// Accepts the claims of a token at `now`, or refuses them with
/// `InvalidClaims`.
pub fn validate_claims(claims: &Claims, now: i64) -> (r: Result<(), crate::error::AuthError>)
    ensures
        r is Ok <==> claims_valid(*claims, now),
        r matches Err(e) ==> e == crate::error::AuthError::InvalidClaims,
{
    let sub_len = claims.sub.as_str().as_bytes().len();
    let tenant_len = claims.tenant.as_str().as_bytes().len();
    let jti_len = claims.jti.as_str().as_bytes().len();
    let kid_len = claims.kid.as_str().as_bytes().len();
    if !str_eq(claims.iss.as_str(), "relaisdesk-api") || !str_eq(
        claims.aud.as_str(),
        "rustdesk-network",
    ) || (!claims.is_technician() && !claims.is_viewer()) || claims.sub.as_str().is_empty()
        || sub_len > 128 || claims.tenant.as_str().is_empty() || tenant_len > 128 || jti_len < 16
        || jti_len > 128 || claims.kid.as_str().is_empty() || kid_len > 64 || claims.max_sessions
        == 0 || claims.max_sessions > 10_000 || claims.iat > claims.nbf || claims.nbf > claims.exp
        || (claims.exp as i128) - (claims.iat as i128) > (MAX_TOKEN_LIFETIME_SECONDS as i128)
        || !claims.is_current_at(now) {
        return Err(crate::error::AuthError::InvalidClaims);
    }
    Ok(())
}

} // verus!
