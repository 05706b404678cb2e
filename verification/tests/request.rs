use base64::{encode_config, URL_SAFE_NO_PAD};
use relaisdesk::claims::{validate_claims, Claims};
use relaisdesk::clock::now_seconds;
use relaisdesk::config::AuthConfig;
use relaisdesk::error::AuthError;
use relaisdesk::replay::ReplayCache;
use relaisdesk::request::{
    authenticate, begin_request, check_request_fields, finish_request, open_token, proof_message,
};
use sodiumoxide::crypto::sign;

#[test]
fn proof_format_matches_client() {
    assert_eq!(
        proof_message("relay:abc", "rd1.payload.signature", 42, "nonce"),
        "relaisdesk-proof-v1\nrelay:abc\n42\nnonce\nrd1.payload.signature"
    );
}

#[test]
fn proof_format_of_extreme_timestamps() {
    assert_eq!(proof_message("a", "t", -7, "n"), "relaisdesk-proof-v1\na\n-7\nn\nt");
    assert_eq!(proof_message("a", "t", 0, "n"), "relaisdesk-proof-v1\na\n0\nn\nt");
    assert_eq!(
        proof_message("a", "t", i64::MIN, "n"),
        format!("relaisdesk-proof-v1\na\n{}\nn\nt", i64::MIN)
    );
    assert_eq!(
        proof_message("a", "t", i64::MAX, "n"),
        format!("relaisdesk-proof-v1\na\n{}\nn\nt", i64::MAX)
    );
}

fn claims_json(device: &str, now: i64, role: &str) -> String {
    format!(
        "{{\"iss\":\"relaisdesk-api\",\"aud\":\"rustdesk-network\",\"sub\":\"LIC-TEST\",\"tenant\":\"LIC-TEST\",\"role\":\"{role}\",\"jti\":\"0123456789abcdef\",\"device_public_key\":\"{device}\",\"kid\":\"test-1\",\"iat\":{now},\"nbf\":{now},\"exp\":{},\"max_sessions\":2}}",
        now + 300
    )
}

fn claims_for(device: &str, now: i64, role: &str) -> Claims {
    Claims {
        iss: "relaisdesk-api".to_owned(),
        aud: "rustdesk-network".to_owned(),
        sub: "LIC-TEST".to_owned(),
        tenant: "LIC-TEST".to_owned(),
        role: role.to_owned(),
        jti: "0123456789abcdef".to_owned(),
        device_public_key: device.to_owned(),
        kid: "test-1".to_owned(),
        iat: now,
        nbf: now,
        exp: now + 300,
        max_sessions: 2,
    }
}

struct Fixture {
    config: AuthConfig,
    issuer_private: sign::SecretKey,
    device_public: String,
    device_private: sign::SecretKey,
}

fn fixture() -> Fixture {
    sodiumoxide::init().expect("sodiumoxide initialization");
    let (issuer_public, issuer_private) = sign::gen_keypair();
    let (device_public, device_private) = sign::gen_keypair();
    let list = format!("test-1={}", encode_config(issuer_public.0, URL_SAFE_NO_PAD));
    let config = AuthConfig::parse_settings(true, Some(&list), None, None).unwrap();
    Fixture {
        config,
        issuer_private,
        device_public: encode_config(device_public.0, URL_SAFE_NO_PAD),
        device_private,
    }
}

fn make_token(payload: &str, issuer: &sign::SecretKey) -> String {
    let payload_segment = encode_config(payload, URL_SAFE_NO_PAD);
    let signed_token = format!("rd1.{payload_segment}");
    let token_signature = sign::sign_detached(signed_token.as_bytes(), issuer);
    format!("{signed_token}.{}", encode_config(token_signature.to_bytes(), URL_SAFE_NO_PAD))
}

fn parse_claims(payload: &[u8]) -> Claims {
    let v: serde_json::Value = serde_json::from_slice(payload).expect("claims in JSON");
    let text = |k: &str| v.get(k).and_then(|x| x.as_str()).expect("text claim").to_owned();
    let number = |k: &str| v.get(k).and_then(|x| x.as_i64()).expect("number claim");
    Claims {
        iss: text("iss"),
        aud: text("aud"),
        sub: text("sub"),
        tenant: text("tenant"),
        role: text("role"),
        jti: text("jti"),
        device_public_key: text("device_public_key"),
        kid: text("kid"),
        iat: number("iat"),
        nbf: number("nbf"),
        exp: number("exp"),
        max_sessions: number("max_sessions") as u32,
    }
}

#[test]
fn signed_token_proof_and_replay_protection_work_together() {
    let f = fixture();
    let now = now_seconds().expect("valid clock");
    let json = claims_json(&f.device_public, now, "technician");
    let token = make_token(&json, &f.issuer_private);
    let nonce = "0123456789abcdef0123456789abcdef";
    let action = "punch:123456789";
    let proof = proof_message(action, &token, now, nonce);
    let signature = sign::sign_detached(proof.as_bytes(), &f.device_private);

    let config = Ok(f.config);
    let mut cache = ReplayCache::new();
    let mut verify = |cache: &mut ReplayCache| -> Result<Option<Claims>, AuthError> {
        let Some(frame) = begin_request(&config, &token, now, nonce, action)? else {
            return Ok(None);
        };
        let claims = parse_claims(frame.payload());
        let cfg = config.as_ref().unwrap();
        finish_request(cfg, &frame, &claims, &token, now, nonce, &signature.to_bytes(), action, cache)?;
        Ok(Some(claims))
    };
    let verified = verify(&mut cache)
        .expect("valid authorization")
        .expect("authorization enabled");
    assert_eq!(verified.tenant, "LIC-TEST");
    assert!(verify(&mut cache).is_err());
    assert_eq!(cache.len(), 1);
}

#[test]
fn refused_request_keeps_its_nonce_free() {
    let f = fixture();
    let now = 1_700_000_000;
    let json = claims_json(&f.device_public, now, "viewer");
    let token = make_token(&json, &f.issuer_private);
    let nonce = "abcdefghijklmnop";
    let action = "relay:1";
    let frame = open_token(&token, now, now).unwrap();
    let claims = parse_claims(frame.payload());
    let good = sign::sign_detached(proof_message(action, &token, now, nonce).as_bytes(), &f.device_private);
    let mut cache = ReplayCache::new();
    // A request with a wrong proof does not use up the nonce.
    assert_eq!(
        finish_request(&f.config, &frame, &claims, &token, now, nonce, &[0u8; 64], action, &mut cache),
        Err(AuthError::InvalidProof)
    );
    assert_eq!(cache.len(), 0);
    assert_eq!(
        finish_request(&f.config, &frame, &claims, &token, now, nonce, &good.to_bytes(), action, &mut cache),
        Ok(())
    );
    assert_eq!(
        finish_request(&f.config, &frame, &claims, &token, now, nonce, &good.to_bytes(), action, &mut cache),
        Err(AuthError::Replayed)
    );
}

#[test]
fn forged_and_mismatched_proofs_are_refused() {
    let f = fixture();
    let now = 1_700_000_000;
    let json = claims_json(&f.device_public, now, "viewer");
    let token = make_token(&json, &f.issuer_private);
    let nonce = "abcdefghijklmnop";
    let action = "relay:1";
    let frame = open_token(&token, now, now).unwrap();
    let claims = claims_for(&f.device_public, now, "viewer");
    let good = sign::sign_detached(proof_message(action, &token, now, nonce).as_bytes(), &f.device_private);
    let check = |claims: &Claims, sig: &[u8], action: &str| {
        authenticate(&f.config, &frame, claims, &token, now, nonce, sig, action)
    };
    assert_eq!(check(&claims, &good.to_bytes(), action), Ok(()));
    // The proof binds the action.
    assert_eq!(check(&claims, &good.to_bytes(), "relay:2"), Err(AuthError::InvalidProof));
    // A proof signed by another key, or not a signature at all.
    let (_, other) = sign::gen_keypair();
    let forged = sign::sign_detached(proof_message(action, &token, now, nonce).as_bytes(), &other);
    assert_eq!(check(&claims, &forged.to_bytes(), action), Err(AuthError::InvalidProof));
    assert_eq!(check(&claims, &[0u8; 63], action), Err(AuthError::InvalidProof));
    let mut high = good.to_bytes();
    high[63] |= 0xe0;
    assert_eq!(check(&claims, &high, action), Err(AuthError::InvalidProof));
    // Claims that do not match the signed token, or name another key.
    let mut other_kid = claims_for(&f.device_public, now, "viewer");
    other_kid.kid = "test-2".to_owned();
    assert_eq!(check(&other_kid, &good.to_bytes(), action), Err(AuthError::UnknownKey));
    let mut bad_device = claims_for("not-base64!", now, "viewer");
    bad_device.kid = "test-1".to_owned();
    assert_eq!(check(&bad_device, &good.to_bytes(), action), Err(AuthError::InvalidDeviceKey));
    let short_device = claims_for("AAEC", now, "viewer");
    assert_eq!(check(&short_device, &good.to_bytes(), action), Err(AuthError::InvalidDeviceKey));
    let mut stale = claims_for(&f.device_public, now, "viewer");
    stale.exp = now;
    assert_eq!(check(&stale, &good.to_bytes(), action), Err(AuthError::InvalidClaims));
    // A token signed by someone else.
    let (_, rogue) = sign::gen_keypair();
    let rogue_token = make_token(&json, &rogue);
    let rogue_frame = open_token(&rogue_token, now, now).unwrap();
    assert_eq!(
        authenticate(&f.config, &rogue_frame, &claims, &rogue_token, now, nonce, &good.to_bytes(), action),
        Err(AuthError::InvalidTokenSignature)
    );
}

#[test]
fn token_framing_is_checked() {
    let f = fixture();
    let now = 1_000;
    let token = make_token("{}", &f.issuer_private);
    assert!(open_token(&token, now, now).is_ok());
    assert!(open_token(&token, now - 30, now).is_ok());
    assert!(open_token(&token, now + 30, now).is_ok());
    assert_eq!(open_token(&token, now - 31, now).err(), Some(AuthError::InvalidTimestamp));
    assert_eq!(open_token(&token, now + 31, now).err(), Some(AuthError::InvalidTimestamp));
    let parts: Vec<&str> = token.split('.').collect();
    let bad = |t: &str| open_token(t, now, now).err();
    assert_eq!(bad(&format!("rd2.{}.{}", parts[1], parts[2])), Some(AuthError::InvalidToken));
    assert_eq!(bad(&format!("rd1.{}", parts[1])), Some(AuthError::InvalidToken));
    assert_eq!(bad("rd1"), Some(AuthError::InvalidToken));
    assert_eq!(bad(&format!("{token}.extra")), Some(AuthError::InvalidToken));
    assert_eq!(bad(&format!("rd1.{}*.{}", parts[1], parts[2])), Some(AuthError::InvalidToken));
    assert_eq!(bad(&format!("rd1..{}", parts[2])), Some(AuthError::InvalidToken));
    assert_eq!(bad(&format!("rd1.{}.AAEC", parts[1])), Some(AuthError::InvalidToken));
    let big = encode_config(vec![b'x'; 4097], URL_SAFE_NO_PAD);
    assert_eq!(bad(&format!("rd1.{big}.{}", parts[2])), Some(AuthError::InvalidToken));
    let mut sig = base64::decode_config(parts[2], URL_SAFE_NO_PAD).unwrap();
    sig[63] |= 0x80;
    let high = encode_config(&sig, URL_SAFE_NO_PAD);
    assert_eq!(bad(&format!("rd1.{}.{high}", parts[1])), Some(AuthError::InvalidToken));
    let frame = open_token(&token, now, now).unwrap();
    assert_eq!(frame.payload(), b"{}");
    assert_eq!(frame.now(), now);
}

#[test]
fn request_shape_is_checked() {
    let nonce = "0123456789abcdef";
    assert!(check_request_fields("t", nonce, "a"));
    assert!(!check_request_fields("", nonce, "a"));
    assert!(!check_request_fields(&"t".repeat(8193), nonce, "a"));
    assert!(check_request_fields(&"t".repeat(8192), nonce, "a"));
    assert!(!check_request_fields("t", nonce, ""));
    assert!(!check_request_fields("t", nonce, &"a".repeat(513)));
    assert!(!check_request_fields("t", nonce, "two\nlines"));
    assert!(!check_request_fields("t", "0123456789abcde", "a"));
    assert!(check_request_fields("t", &"a".repeat(64), "a"));
    assert!(!check_request_fields("t", &"a".repeat(65), "a"));
    assert!(!check_request_fields("t", "0123456789abcde+", "a"));
    assert!(check_request_fields("t", "0123456789abcd-_", "a"));
}

#[test]
fn disabled_or_broken_configuration() {
    let disabled = Ok(AuthConfig::parse_settings(false, None, None, None).unwrap());
    assert!(begin_request(&disabled, "", 0, "", "").unwrap().is_none());
    let broken = Err(AuthError::InvalidKeyList);
    assert_eq!(begin_request(&broken, "", 0, "", "").err(), Some(AuthError::InvalidKeyList));
    let f = fixture();
    let enabled = Ok(f.config);
    assert_eq!(
        begin_request(&enabled, "", 0, "0123456789abcdef", "a").err(),
        Some(AuthError::InvalidRequest)
    );
}

#[test]
fn claims_are_validated() {
    let now = 500;
    let base = || claims_for("device", 400, "technician");
    assert_eq!(validate_claims(&base(), now), Ok(()));
    let refused = |c: Claims| validate_claims(&c, now) == Err(AuthError::InvalidClaims);
    assert!(refused(Claims { iss: "other".to_owned(), ..base() }));
    assert!(refused(Claims { aud: "other".to_owned(), ..base() }));
    assert!(refused(Claims { role: "admin".to_owned(), ..base() }));
    assert!(validate_claims(&Claims { role: "viewer".to_owned(), ..base() }, now).is_ok());
    assert!(refused(Claims { sub: String::new(), ..base() }));
    assert!(refused(Claims { sub: "s".repeat(129), ..base() }));
    assert!(refused(Claims { tenant: String::new(), ..base() }));
    assert!(refused(Claims { jti: "j".repeat(15), ..base() }));
    assert!(refused(Claims { jti: "j".repeat(129), ..base() }));
    assert!(refused(Claims { kid: String::new(), ..base() }));
    assert!(refused(Claims { kid: "k".repeat(65), ..base() }));
    assert!(refused(Claims { max_sessions: 0, ..base() }));
    assert!(refused(Claims { max_sessions: 10_001, ..base() }));
    assert!(refused(Claims { iat: 401, ..base() }));
    assert!(refused(Claims { nbf: 701, ..base() }));
    assert!(refused(Claims { exp: 400 + 901, ..base() }));
    assert!(refused(Claims { iat: i64::MIN, nbf: 0, ..base() }));
    assert!(validate_claims(&Claims { exp: 400 + 900, ..base() }, now).is_ok());
    // Not yet valid beyond the clock skew, and expired.
    assert!(refused(Claims { nbf: 531, exp: 600, iat: 300, ..base() }));
    assert!(validate_claims(&Claims { nbf: 530, exp: 600, iat: 300, ..base() }, now).is_ok());
    assert!(refused(Claims { exp: 500, ..base() }));
}

#[test]
fn claims_roles_and_times() {
    let c = claims_for("AAECAwQFBgcICQoLDA0ODxAREhMUFRYXGBkaGxwdHh8", 100, "technician");
    assert!(c.is_technician());
    assert!(!c.is_viewer());
    assert!(c.is_current_at(100));
    assert!(c.is_current_at(70));
    assert!(!c.is_current_at(69));
    assert!(!c.is_current_at(400));
    assert!(!c.is_current());
    let mut expected = [0u8; 32];
    for (i, b) in expected.iter_mut().enumerate() {
        *b = i as u8;
    }
    assert_eq!(c.device_key(), Some(expected));
    assert_eq!(claims_for("AAEC", 100, "viewer").device_key(), None);
    assert_eq!(claims_for("%%", 100, "viewer").device_key(), None);
}

#[test]
fn proof_messages_differ_for_different_requests() {
    let base = proof_message("relay:1", "rd1.a.b", 12, "nonce-a");
    assert_ne!(base, proof_message("relay:2", "rd1.a.b", 12, "nonce-a"));
    assert_ne!(base, proof_message("relay:1", "rd1.a.c", 12, "nonce-a"));
    assert_ne!(base, proof_message("relay:1", "rd1.a.b", 1, "nonce-a"));
    assert_ne!(base, proof_message("relay:1", "rd1.a.b", -12, "nonce-a"));
    assert_ne!(base, proof_message("relay:1", "rd1.a.b", 12, "nonce-b"));
    assert_eq!(base, proof_message("relay:1", "rd1.a.b", 12, "nonce-a"));
}

#[test]
fn clock_readings_are_taken_as_given() {
    let f = fixture();
    let token = make_token("{}", &f.issuer_private);
    let config = Ok(f.config);
    let nonce = "0123456789abcdef";
    assert_eq!(
        relaisdesk::request::begin_request_by(&config, &token, 1_000, nonce, "a", Err(AuthError::InvalidClock)).err(),
        Some(AuthError::InvalidClock)
    );
    let frame = relaisdesk::request::begin_request_by(&config, &token, 1_000, nonce, "a", Ok(1_010))
        .unwrap()
        .unwrap();
    assert_eq!(frame.now(), 1_010);
    assert_eq!(
        relaisdesk::request::begin_request_by(&config, &token, 1_000, nonce, "a", Ok(1_031)).err(),
        Some(AuthError::InvalidTimestamp)
    );
    let c = claims_for("d", 100, "viewer");
    assert!(c.is_current_by(Ok(100)));
    assert!(!c.is_current_by(Err(AuthError::InvalidClock)));
    assert!(!c.is_current_by(Ok(400)));
}
