//! Checking an authorization request: the framing of its token, the token's
//! signature by the issuer, the claims, and the device's proof of possession.
use vstd::prelude::*;
use crate::claims::{claims_valid, device_key_of, validate_claims, Claims, MAX_CLOCK_SKEW_SECONDS};
use crate::clock::now_seconds;
use crate::config::{key_for, AuthConfig, AuthConfigView};
use crate::error::AuthError;
use crate::replay::{remember_nonce, remember_result, ReplayCache};
use crate::outside::{
    base64url_decode, decode_base64url, ed25519_verify, signature_from_bytes,
    signature_scalar_bits_clear, verify_detached,
};
use crate::text::{
    chars_of, find_byte, find_char, is_identifier_byte, all_identifier_bytes, lemma_position_of_is,
    lemma_position_of_none, split_once,
};
use vstd::string::StringExecFns;

verus! {

/// Longest accepted token, in bytes.
pub const MAX_TOKEN_BYTES: usize = 8192;

/// Longest accepted token payload once decoded, in bytes.
pub const MAX_PAYLOAD_BYTES: usize = 4096;

/// Longest accepted action, in bytes.
pub const MAX_ACTION_BYTES: usize = 512;

/// The digit characters, by value.
pub open spec fn digit_char(d: int) -> char {
    seq!['0', '1', '2', '3', '4', '5', '6', '7', '8', '9'][d]
}

/// The decimal digits of `n`, most significant first.
pub open spec fn decimal_digits(n: nat) -> Seq<char>
    decreases n,
{
    if n < 10 {
        seq![digit_char(n as int)]
    } else {
        decimal_digits(n / 10).push(digit_char((n % 10) as int))
    }
}

/// `n` written in decimal, as `{}` formats an integer.
pub open spec fn decimal(n: int) -> Seq<char> {
    if n < 0 {
        seq!['-'] + decimal_digits((-n) as nat)
    } else {
        decimal_digits(n as nat)
    }
}

/// The message that a device signs to prove that it holds the key its token
/// names: the version line, then action, timestamp, nonce and token, each on
/// a line of its own.
pub open spec fn proof_message_text(action: Seq<char>, token: Seq<char>, timestamp: i64, nonce: Seq<char>) -> Seq<char> {
    "relaisdesk-proof-v1\n"@ + action + "\n"@ + decimal(timestamp as int) + "\n"@ + nonce + "\n"@
        + token
}

fn digit_str(d: u64) -> (r: &'static str)
    requires
        d < 10,
    ensures
        r@ == seq![digit_char(d as int)],
{
    proof {
        reveal_strlit("0");
        reveal_strlit("1");
        reveal_strlit("2");
        reveal_strlit("3");
        reveal_strlit("4");
        reveal_strlit("5");
        reveal_strlit("6");
        reveal_strlit("7");
        reveal_strlit("8");
        reveal_strlit("9");
    }
    match d {
        0 => "0",
        1 => "1",
        2 => "2",
        3 => "3",
        4 => "4",
        5 => "5",
        6 => "6",
        7 => "7",
        8 => "8",
        _ => "9",
    }
}

fn append_digits(s: &mut String, n: u64)
    ensures
        final(s)@ == old(s)@ + decimal_digits(n as nat),
    decreases n,
{
    if n >= 10 {
        append_digits(s, n / 10);
    }
    s.append(digit_str(n % 10));
    proof {
        if n >= 10 {
            assert(old(s)@ + decimal_digits((n / 10) as nat) + seq![digit_char((n % 10) as int)]
                =~= old(s)@ + decimal_digits(n as nat));
        } else {
            assert(old(s)@ + seq![digit_char((n % 10) as int)] =~= old(s)@ + decimal_digits(
                n as nat,
            ));
        }
    }
}

fn append_decimal(s: &mut String, n: i64)
    ensures
        final(s)@ == old(s)@ + decimal(n as int),
{
    if n < 0 {
        s.append("-");
        proof {
            reveal_strlit("-");
        }
        let magnitude = (0i128 - (n as i128)) as u64;
        append_digits(s, magnitude);
        assert(old(s)@ + seq!['-'] + decimal_digits(magnitude as nat) =~= old(s)@ + decimal(
            n as int,
        ));
    } else {
        append_digits(s, n as u64);
    }
}

/// The message a device signs for `action` with `token` at `timestamp` with
/// `nonce` (see `proof_message_text`).
pub fn proof_message(action: &str, token: &str, timestamp: i64, nonce: &str) -> (r: String)
    ensures
        r@ == proof_message_text(action@, token@, timestamp, nonce@),
{
    let mut s = String::from_str("relaisdesk-proof-v1\n");
    s.append(action);
    s.append("\n");
    append_decimal(&mut s, timestamp);
    s.append("\n");
    s.append(nonce);
    s.append("\n");
    s.append(token);
    assert(s@ =~= proof_message_text(action@, token@, timestamp, nonce@));
    s
}

/// The shape a request must have before its token is looked at: a token of
/// 1 to 8192 bytes, an action of 1 to 512 bytes on one line, and a nonce of
/// 16 to 64 ASCII letters, digits, `-` or `_`.
pub open spec fn request_fields_valid(token: &str, nonce: &str, action: &str) -> bool {
    let t = vstd::utf8::encode_utf8(token@);
    let a = vstd::utf8::encode_utf8(action@);
    let n = vstd::utf8::encode_utf8(nonce@);
    &&& 0 < token@.len() && t.len() <= MAX_TOKEN_BYTES
    &&& 0 < action@.len() && a.len() <= MAX_ACTION_BYTES
    &&& !action@.contains('\n')
    &&& 16 <= n.len() <= 64
    &&& forall|i: int| 0 <= i < n.len() ==> is_identifier_byte(#[trigger] n[i])
}

/// Whether a request has the shape of `request_fields_valid`.
pub fn check_request_fields(token: &str, nonce: &str, action: &str) -> (r: bool)
    ensures
        r == request_fields_valid(token, nonce, action),
{
    let token_len = token.as_bytes().len();
    let action_len = action.as_bytes().len();
    let nonce_bytes = nonce.as_bytes();
    if token.is_empty() || token_len > MAX_TOKEN_BYTES || action.is_empty() || action_len
        > MAX_ACTION_BYTES {
        return false;
    }
    let action_chars = chars_of(action);
    let newline = find_char(&action_chars, '\n', 0, action_chars.len());
    if newline.is_some() {
        assert(action@.contains('\n'));
        return false;
    }
    nonce_bytes.len() >= 16 && nonce_bytes.len() <= 64 && all_identifier_bytes(nonce_bytes)
}

pub open spec fn dot() -> u8 {
    0x2e
}

pub open spec fn token_prefix() -> Seq<u8> {
    seq![0x72u8, 0x64u8, 0x31u8]
}

/// The three dot-separated parts of a token's bytes, when it has exactly three.
pub open spec fn token_segments(t: Seq<u8>) -> Option<(Seq<u8>, Seq<u8>, Seq<u8>)> {
    match split_once(t, dot()) {
        None => None,
        Some((prefix, rest)) => match split_once(rest, dot()) {
            None => None,
            Some((payload, signature)) => if signature.contains(dot()) {
                None
            } else {
                Some((prefix, payload, signature))
            },
        },
    }
}

/// A token's decoded parts, as the contracts see them.
pub struct FrameView {
    pub payload: Seq<u8>,
    pub signed: Seq<u8>,
    pub signature: Seq<u8>,
    pub now: i64,
}

/// What `open_token` gives for a token presented with `timestamp` at `now`:
/// the proof must be fresh within the clock skew, and the token must read
/// `rd1.<payload>.<signature>` with both parts in base64url, a payload of 1 to
/// 4096 bytes and a well-formed Ed25519 signature. The issuer signed
/// `rd1.<payload>`, as the token spells it.
pub open spec fn frame_result(t: Seq<u8>, timestamp: i64, now: i64) -> Result<FrameView, AuthError> {
    if timestamp < now - MAX_CLOCK_SKEW_SECONDS || timestamp > now + MAX_CLOCK_SKEW_SECONDS {
        Err(AuthError::InvalidTimestamp)
    } else {
        match token_segments(t) {
            None => Err(AuthError::InvalidToken),
            Some((prefix, pay, sig)) => if prefix != token_prefix() {
                Err(AuthError::InvalidToken)
            } else {
                match base64url_decode(pay) {
                    None => Err(AuthError::InvalidToken),
                    Some(payload) => if payload.len() == 0 || payload.len() > MAX_PAYLOAD_BYTES {
                        Err(AuthError::InvalidToken)
                    } else {
                        match base64url_decode(sig) {
                            None => Err(AuthError::InvalidToken),
                            Some(signature) => if !signature_scalar_bits_clear(signature) {
                                Err(AuthError::InvalidToken)
                            } else {
                                Ok(
                                    FrameView {
                                        payload,
                                        signed: token_prefix() + seq![dot()] + pay,
                                        signature,
                                        now,
                                    },
                                )
                            },
                        }
                    },
                }
            },
        }
    }
}

/// A token whose framing was accepted: its decoded payload (the claims, in
/// JSON), the bytes the issuer signed, the issuer's signature, and the time
/// of the check.
pub struct TokenFrame {
    payload: Vec<u8>,
    signed: Vec<u8>,
    signature: [u8; 64],
    now: i64,
}

impl View for TokenFrame {
    type V = FrameView;

    closed spec fn view(&self) -> FrameView {
        FrameView {
            payload: self.payload@,
            signed: self.signed@,
            signature: self.signature@,
            now: self.now,
        }
    }
}

impl TokenFrame {
    #[verifier::type_invariant]
    closed spec fn signature_well_formed(&self) -> bool {
        signature_scalar_bits_clear(self.signature@)
    }

    /// The decoded payload: the claims in JSON.
    pub fn payload(&self) -> (r: &[u8])
        ensures
            r@ == self@.payload,
    {
        self.payload.as_slice()
    }

    /// The time at which the token was checked.
    pub fn now(&self) -> (r: i64)
        ensures
            r == self@.now,
    {
        self.now
    }
}

/// Checks the framing of `token`, presented with `timestamp`, at `now` (see
/// `frame_result`).
pub fn open_token(token: &str, timestamp: i64, now: i64) -> (r: Result<TokenFrame, AuthError>)
    ensures
        r is Ok <==> frame_result(vstd::utf8::encode_utf8(token@), timestamp, now) is Ok,
        r matches Ok(f) ==> frame_result(vstd::utf8::encode_utf8(token@), timestamp, now) == Ok::<
            FrameView,
            AuthError,
        >(f@),
        r matches Err(e) ==> frame_result(vstd::utf8::encode_utf8(token@), timestamp, now) == Err::<
            FrameView,
            AuthError,
        >(e),
{
    if (timestamp as i128) < (now as i128) - (MAX_CLOCK_SKEW_SECONDS as i128) || (timestamp as i128)
        > (now as i128) + (MAX_CLOCK_SKEW_SECONDS as i128) {
        return Err(AuthError::InvalidTimestamp);
    }
    let t = token.as_bytes();
    let tlen = t.len();
    let ghost tv = t@;
    let first = match find_byte(t, 0x2e, 0) {
        Some(i) => i,
        None => {
            proof {
                lemma_position_of_none(tv, dot());
            }
            return Err(AuthError::InvalidToken);
        },
    };
    proof {
        lemma_position_of_is(tv, dot(), first as int);
    }
    let ghost rest = tv.skip(first + 1);
    let second = match find_byte(t, 0x2e, first + 1) {
        Some(j) => j,
        None => {
            proof {
                assert forall|k: int| 0 <= k < rest.len() implies rest[k] != dot() by {
                    assert(rest[k] == tv[first + 1 + k]);
                }
                lemma_position_of_none(rest, dot());
            }
            return Err(AuthError::InvalidToken);
        },
    };
    proof {
        assert forall|k: int| 0 <= k < second - first - 1 implies rest[k] != dot() by {
            assert(rest[k] == tv[first + 1 + k]);
        }
        lemma_position_of_is(rest, dot(), second - first - 1);
        assert(rest.take(second - first - 1) =~= tv.subrange(first + 1, second as int));
        assert(rest.skip(second - first) =~= tv.skip(second + 1));
    }
    let ghost sig_part = tv.skip(second + 1);
    match find_byte(t, 0x2e, second + 1) {
        Some(k) => {
            assert(sig_part[k - second - 1] == dot());
            assert(sig_part.contains(dot()));
            return Err(AuthError::InvalidToken);
        },
        None => {
            assert forall|k: int| 0 <= k < sig_part.len() implies sig_part[k] != dot() by {
                assert(sig_part[k] == tv[second + 1 + k]);
            }
        },
    }
    let prefix = &t[0..first];
    let payload_segment = &t[first + 1..second];
    let signature_segment = &t[second + 1..t.len()];
    assert(tv.take(first as int) =~= prefix@);
    assert(sig_part =~= signature_segment@);
    if !(prefix.len() == 3 && prefix[0] == 0x72 && prefix[1] == 0x64 && prefix[2] == 0x31) {
        assert(prefix@ != token_prefix());
        return Err(AuthError::InvalidToken);
    }
    assert(prefix@ =~= token_prefix());
    let payload = match decode_base64url(payload_segment) {
        Ok(p) => p,
        Err(_) => return Err(AuthError::InvalidToken),
    };
    if payload.len() == 0 || payload.len() > MAX_PAYLOAD_BYTES {
        return Err(AuthError::InvalidToken);
    }
    let signature_bytes = match decode_base64url(signature_segment) {
        Ok(s) => s,
        Err(_) => return Err(AuthError::InvalidToken),
    };
    let signature = match signature_from_bytes(signature_bytes.as_slice()) {
        Ok(s) => s,
        Err(_) => return Err(AuthError::InvalidToken),
    };
    let signed = vstd::slice::slice_to_vec(&t[0..second]);
    assert(signed@ =~= token_prefix() + seq![dot()] + payload_segment@);
    Ok(TokenFrame { payload, signed, signature, now })
}

/// The answer to a request whose token framing was accepted and whose claims
/// were read from the payload: the token must be signed by the issuer key
/// that the claims name, the claims must hold at the time of the check, and
/// the request must be signed by the device key that the claims carry, over
/// the proof message.
pub open spec fn authenticate_result(
    config: AuthConfigView,
    frame: FrameView,
    c: Claims,
    token: Seq<char>,
    timestamp: i64,
    nonce: Seq<char>,
    signature: Seq<u8>,
    action: Seq<char>,
) -> Result<(), AuthError> {
    match key_for(config.keys, c.kid@) {
        None => Err(AuthError::UnknownKey),
        Some(key) => if !ed25519_verify(frame.signature, frame.signed, key) {
            Err(AuthError::InvalidTokenSignature)
        } else if !claims_valid(c, frame.now) {
            Err(AuthError::InvalidClaims)
        } else {
            match device_key_of(c) {
                None => Err(AuthError::InvalidDeviceKey),
                Some(device_key) => if !signature_scalar_bits_clear(signature) {
                    Err(AuthError::InvalidProof)
                } else if !ed25519_verify(
                    signature,
                    vstd::utf8::encode_utf8(proof_message_text(action, token, timestamp, nonce)),
                    device_key,
                ) {
                    Err(AuthError::InvalidProof)
                } else {
                    Ok(())
                },
            }
        },
    }
}

/// Checks the issuer's signature on the token, the claims read from its
/// payload, and the device's proof (see `authenticate_result`).
pub fn authenticate(
    config: &AuthConfig,
    frame: &TokenFrame,
    claims: &Claims,
    token: &str,
    timestamp: i64,
    nonce: &str,
    signature: &[u8],
    action: &str,
) -> (r: Result<(), AuthError>)
    ensures
        r == authenticate_result(
            config@,
            frame@,
            *claims,
            token@,
            timestamp,
            nonce@,
            signature@,
            action@,
        ),
{
    proof {
        use_type_invariant(frame);
    }
    let key = match config.key(claims.kid.as_str()) {
        Some(k) => k,
        None => return Err(AuthError::UnknownKey),
    };
    if !verify_detached(&frame.signature, frame.signed.as_slice(), &key) {
        return Err(AuthError::InvalidTokenSignature);
    }
    if validate_claims(claims, frame.now).is_err() {
        return Err(AuthError::InvalidClaims);
    }
    let device_key = match claims.device_key() {
        Some(k) => k,
        None => return Err(AuthError::InvalidDeviceKey),
    };
    let proof_signature = match signature_from_bytes(signature) {
        Ok(s) => s,
        Err(_) => return Err(AuthError::InvalidProof),
    };
    let proof = proof_message(action, token, timestamp, nonce);
    if !verify_detached(&proof_signature, proof.as_str().as_bytes(), &device_key) {
        return Err(AuthError::InvalidProof);
    }
    Ok(())
}

/// Finishes a request whose token framing was accepted: authenticates it
/// (see `authenticate_result`) and, only when that succeeds, remembers its
/// nonce for the device until the token expires. A refused request leaves
/// the nonce cache as it was.
pub fn finish_request(
    config: &AuthConfig,
    frame: &TokenFrame,
    claims: &Claims,
    token: &str,
    timestamp: i64,
    nonce: &str,
    signature: &[u8],
    action: &str,
    cache: &mut ReplayCache,
) -> (r: Result<(), AuthError>)
    ensures
        match authenticate_result(
            config@,
            frame@,
            *claims,
            token@,
            timestamp,
            nonce@,
            signature@,
            action@,
        ) {
            Err(e) => r == Err::<(), AuthError>(e) && final(cache)@ == old(cache)@,
            Ok(_) => (final(cache)@, r) == remember_result(
                old(cache)@,
                claims.device_public_key@,
                nonce@,
                claims.exp,
                frame@.now,
            ),
        },
{
    let checked = authenticate(config, frame, claims, token, timestamp, nonce, signature, action);
    if let Err(e) = checked {
        return Err(e);
    }
    remember_nonce(cache, claims.device_public_key.as_str(), nonce, claims.exp, frame.now())
}

/// Starts checking a request by a clock reading: the configuration must be
/// usable, and when authorization is disabled (no key configured) and not
/// required there is nothing to check. Then the request's shape, then the
/// clock reading (its failure is reported), then the token's framing at that
/// time.
pub fn begin_request_by(
    config: &Result<AuthConfig, AuthError>,
    token: &str,
    timestamp: i64,
    nonce: &str,
    action: &str,
    clock: Result<i64, AuthError>,
) -> (r: Result<Option<TokenFrame>, AuthError>)
    ensures
        match config {
            Err(e) => r matches Err(x) && x == *e,
            Ok(c) => if c@.keys.len() == 0 {
                if c@.required {
                    r matches Err(x) && x == AuthError::Unavailable
                } else {
                    r is Ok && r->Ok_0 is None
                }
            } else if !request_fields_valid(token, nonce, action) {
                r matches Err(x) && x == AuthError::InvalidRequest
            } else {
                match clock {
                    Err(e) => r matches Err(x) && x == e,
                    Ok(now) => {
                        &&& !(r matches Ok(None))
                        &&& r matches Ok(Some(f)) ==> frame_result(
                            vstd::utf8::encode_utf8(token@),
                            timestamp,
                            now,
                        ) == Ok::<FrameView, AuthError>(f@)
                        &&& r matches Err(e) ==> frame_result(
                            vstd::utf8::encode_utf8(token@),
                            timestamp,
                            now,
                        ) == Err::<FrameView, AuthError>(e)
                    },
                }
            },
        },
{
    let config = match config {
        Ok(c) => c,
        Err(e) => return Err(*e),
    };
    if !config.enabled() {
        if config.required() {
            return Err(AuthError::Unavailable);
        }
        return Ok(None);
    }
    if !check_request_fields(token, nonce, action) {
        return Err(AuthError::InvalidRequest);
    }
    let now = match clock {
        Ok(now) => now,
        Err(e) => return Err(e),
    };
    match open_token(token, timestamp, now) {
        Ok(frame) => Ok(Some(frame)),
        Err(e) => Err(e),
    }
}

/// Starts checking a request by the system clock (see `begin_request_by`).
pub fn begin_request(
    config: &Result<AuthConfig, AuthError>,
    token: &str,
    timestamp: i64,
    nonce: &str,
    action: &str,
) -> (r: Result<Option<TokenFrame>, AuthError>)
    ensures
        match config {
            Err(e) => r matches Err(x) && x == *e,
            Ok(c) => if c@.keys.len() == 0 {
                if c@.required {
                    r matches Err(x) && x == AuthError::Unavailable
                } else {
                    r is Ok && r->Ok_0 is None
                }
            } else if !request_fields_valid(token, nonce, action) {
                r matches Err(x) && x == AuthError::InvalidRequest
            } else {
                &&& !(r matches Ok(None))
                &&& r matches Ok(Some(f)) ==> frame_result(
                    vstd::utf8::encode_utf8(token@),
                    timestamp,
                    f@.now,
                ) == Ok::<FrameView, AuthError>(f@)
                &&& r matches Err(e) ==> e == AuthError::InvalidClock || exists|now: i64|
                    frame_result(vstd::utf8::encode_utf8(token@), timestamp, now) == Err::<
                        FrameView,
                        AuthError,
                    >(e)
            },
        },
{
    begin_request_by(config, token, timestamp, nonce, action, now_seconds())
}

proof fn lemma_digit_char(d: int)
    requires
        0 <= d < 10,
    ensures
        digit_char(d) != '\n',
        digit_char(d) != '-',
        forall|e: int| 0 <= e < 10 && #[trigger] digit_char(e) == digit_char(d) ==> e == d,
{
    let s = seq!['0', '1', '2', '3', '4', '5', '6', '7', '8', '9'];
    assert(s[0] == '0' && s[1] == '1' && s[2] == '2' && s[3] == '3' && s[4] == '4');
    assert(s[5] == '5' && s[6] == '6' && s[7] == '7' && s[8] == '8' && s[9] == '9');
    assert forall|e: int| 0 <= e < 10 && #[trigger] digit_char(e) == digit_char(d) implies e == d by {
        assert(digit_char(e) == s[e] && digit_char(d) == s[d]);
        assert(d == 0 || d == 1 || d == 2 || d == 3 || d == 4 || d == 5 || d == 6 || d == 7 || d == 8 || d == 9);
        assert(e == 0 || e == 1 || e == 2 || e == 3 || e == 4 || e == 5 || e == 6 || e == 7 || e == 8 || e == 9);
    }
}

proof fn lemma_decimal_digits_shape(n: nat)
    ensures
        decimal_digits(n).len() > 0,
        n >= 10 ==> decimal_digits(n).len() > 1,
        forall|i: int|
            0 <= i < decimal_digits(n).len() ==> #[trigger] decimal_digits(n)[i] != '\n'
                && decimal_digits(n)[i] != '-',
    decreases n,
{
    if n >= 10 {
        lemma_decimal_digits_shape(n / 10);
        lemma_digit_char((n % 10) as int);
        let s = decimal_digits(n);
        assert forall|i: int| 0 <= i < s.len() implies #[trigger] s[i] != '\n' && s[i] != '-' by {
            if i < s.len() - 1 {
                assert(s[i] == decimal_digits(n / 10)[i]);
            }
        }
    } else {
        lemma_digit_char(n as int);
    }
}

proof fn lemma_decimal_digits_injective(m: nat, n: nat)
    requires
        decimal_digits(m) == decimal_digits(n),
    ensures
        m == n,
    decreases m + n,
{
    lemma_decimal_digits_shape(m);
    lemma_decimal_digits_shape(n);
    if m >= 10 && n >= 10 {
        let a = decimal_digits(m);
        assert(a.drop_last() =~= decimal_digits(m / 10));
        assert(decimal_digits(n).drop_last() =~= decimal_digits(n / 10));
        lemma_decimal_digits_injective(m / 10, n / 10);
        lemma_digit_char((m % 10) as int);
        assert(a.last() == digit_char((m % 10) as int));
        assert(decimal_digits(n).last() == digit_char((n % 10) as int));
        assert(m % 10 == n % 10);
        assert(m == n);
    } else if m < 10 && n < 10 {
        lemma_digit_char(m as int);
        assert(decimal_digits(m) == seq![digit_char(m as int)]);
        assert(decimal_digits(n) == seq![digit_char(n as int)]);
        assert(seq![digit_char(m as int)][0] == digit_char(m as int));
        assert(seq![digit_char(n as int)][0] == digit_char(n as int));
        assert(digit_char(n as int) == digit_char(m as int));
        assert(m == n);
    } else if m < 10 {
        assert(decimal_digits(m).len() == 1);
    } else {
        assert(decimal_digits(n).len() == 1);
    }
}

proof fn lemma_decimal_shape(n: int)
    ensures
        decimal(n).len() > 0,
        forall|i: int| 0 <= i < decimal(n).len() ==> #[trigger] decimal(n)[i] != '\n',
{
    if n < 0 {
        lemma_decimal_digits_shape((-n) as nat);
        assert forall|i: int| 0 <= i < decimal(n).len() implies #[trigger] decimal(n)[i] != '\n' by {
            if i > 0 {
                assert(decimal(n)[i] == decimal_digits((-n) as nat)[i - 1]);
            }
        }
    } else {
        lemma_decimal_digits_shape(n as nat);
    }
}

proof fn lemma_decimal_injective(m: int, n: int)
    requires
        decimal(m) == decimal(n),
    ensures
        m == n,
{
    let dm = decimal(m);
    if m < 0 && n < 0 {
        assert(dm.drop_first() =~= decimal_digits((-m) as nat));
        assert(decimal(n).drop_first() =~= decimal_digits((-n) as nat));
        lemma_decimal_digits_injective((-m) as nat, (-n) as nat);
    } else if m >= 0 && n >= 0 {
        lemma_decimal_digits_injective(m as nat, n as nat);
    } else if m < 0 {
        lemma_decimal_digits_shape(n as nat);
        assert(dm[0] == '-');
        assert(decimal_digits(n as nat)[0] != '-');
    } else {
        lemma_decimal_digits_shape(m as nat);
        assert(decimal(n)[0] == '-');
        assert(decimal_digits(m as nat)[0] != '-');
    }
}

/// Cutting at the first separator recovers both sides.
proof fn lemma_cut_at_separator(x: Seq<char>, y: Seq<char>, u: Seq<char>, v: Seq<char>, sep: char)
    requires
        !x.contains(sep),
        !u.contains(sep),
        x + seq![sep] + y == u + seq![sep] + v,
    ensures
        x == u,
        y == v,
{
    let l = x + seq![sep] + y;
    let r = u + seq![sep] + v;
    if x.len() < u.len() {
        assert(l[x.len() as int] == sep);
        assert(r[x.len() as int] == u[x.len() as int]);
        assert(u.contains(sep));
    } else if u.len() < x.len() {
        assert(r[u.len() as int] == sep);
        assert(l[u.len() as int] == x[u.len() as int]);
        assert(x.contains(sep));
    } else {
        assert forall|i: int| 0 <= i < x.len() implies x[i] == u[i] by {
            assert(l[i] == x[i] && r[i] == u[i]);
        }
        assert(x =~= u);
        let xs = x + seq![sep];
        let us = u + seq![sep];
        assert(l.len() == r.len());
        assert(xs.len() == x.len() + 1 && us.len() == xs.len());
        assert(l.len() == xs.len() + y.len());
        assert(r.len() == us.len() + v.len());
        assert(y.len() == v.len());
        assert forall|i: int| 0 <= i < y.len() implies y[i] == v[i] by {
            let k = xs.len() + i;
            assert(l[k] == y[i]);
            assert(r[k] == v[i]);
        }
        assert(y =~= v);
    }
}

/// A proof is bound to what it authorizes: two proof messages are equal only
/// when they name the same action, token, timestamp and nonce (actions and
/// nonces being single lines, as requests require).
pub proof fn law_proof_message_binds(
    a1: Seq<char>,
    t1: Seq<char>,
    ts1: i64,
    n1: Seq<char>,
    a2: Seq<char>,
    t2: Seq<char>,
    ts2: i64,
    n2: Seq<char>,
)
    requires
        !a1.contains('\n'),
        !a2.contains('\n'),
        !n1.contains('\n'),
        !n2.contains('\n'),
        proof_message_text(a1, t1, ts1, n1) == proof_message_text(a2, t2, ts2, n2),
    ensures
        a1 == a2,
        t1 == t2,
        ts1 == ts2,
        n1 == n2,
{
    reveal_strlit("relaisdesk-proof-v1\n");
    reveal_strlit("\n");
    let head = "relaisdesk-proof-v1\n"@;
    let nl = "\n"@;
    assert(nl =~= seq!['\n']);
    let d1 = decimal(ts1 as int);
    let d2 = decimal(ts2 as int);
    let rest1 = a1 + seq!['\n'] + (d1 + seq!['\n'] + (n1 + seq!['\n'] + t1));
    let rest2 = a2 + seq!['\n'] + (d2 + seq!['\n'] + (n2 + seq!['\n'] + t2));
    assert(proof_message_text(a1, t1, ts1, n1) =~= head + rest1);
    assert(proof_message_text(a2, t2, ts2, n2) =~= head + rest2);
    assert(rest1 =~= (head + rest1).skip(head.len() as int));
    assert(rest2 =~= (head + rest2).skip(head.len() as int));
    lemma_cut_at_separator(a1, d1 + seq!['\n'] + (n1 + seq!['\n'] + t1), a2, d2 + seq!['\n'] + (n2 + seq!['\n'] + t2), '\n');
    lemma_decimal_shape(ts1 as int);
    lemma_decimal_shape(ts2 as int);
    lemma_cut_at_separator(d1, n1 + seq!['\n'] + t1, d2, n2 + seq!['\n'] + t2, '\n');
    lemma_decimal_injective(ts1 as int, ts2 as int);
    lemma_cut_at_separator(n1, t1, n2, t2, '\n');
}

/// A request is authenticated exactly when the issuer key named by the
/// claims verifies the token, the claims hold at the time of the check, and
/// the device key carried by the claims verifies the proof over the proof
/// message of the request's own action, token, timestamp and nonce.
pub proof fn law_authenticated_exactly_when_signed(
    config: AuthConfigView,
    frame: FrameView,
    c: Claims,
    token: Seq<char>,
    timestamp: i64,
    nonce: Seq<char>,
    signature: Seq<u8>,
    action: Seq<char>,
)
    ensures
        authenticate_result(config, frame, c, token, timestamp, nonce, signature, action) is Ok
            <==> {
            &&& key_for(config.keys, c.kid@) is Some
            &&& ed25519_verify(frame.signature, frame.signed, key_for(config.keys, c.kid@)->Some_0)
            &&& claims_valid(c, frame.now)
            &&& device_key_of(c) is Some
            &&& signature_scalar_bits_clear(signature)
            &&& ed25519_verify(
                signature,
                vstd::utf8::encode_utf8(proof_message_text(action, token, timestamp, nonce)),
                device_key_of(c)->Some_0,
            )
        },
        authenticate_result(config, frame, c, token, timestamp, nonce, signature, action) is Ok
            ==> authenticate_result(config, frame, c, token, timestamp, nonce, signature, action)
            == Ok::<(), AuthError>(()),
{
}

/// The time of the check matters to authentication only through the claims:
/// two checks of the same request at times where the claims are equally
/// valid give the same answer. In particular the proof is checked over the
/// request's timestamp, not over the time of the check.
pub proof fn law_check_time_only_through_claims(
    config: AuthConfigView,
    frame: FrameView,
    other_now: i64,
    c: Claims,
    token: Seq<char>,
    timestamp: i64,
    nonce: Seq<char>,
    signature: Seq<u8>,
    action: Seq<char>,
)
    requires
        claims_valid(c, frame.now) == claims_valid(c, other_now),
    ensures
        authenticate_result(config, frame, c, token, timestamp, nonce, signature, action)
            == authenticate_result(
            config,
            FrameView { now: other_now, ..frame },
            c,
            token,
            timestamp,
            nonce,
            signature,
            action,
        ),
{
}

} // verus!
