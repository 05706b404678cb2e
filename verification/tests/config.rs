use relaisdesk::config::{
    insert_public_key, is_truthy, validate_configuration, AuthConfig, KeyRing,
};
use relaisdesk::error::AuthError;

const KEY_A: &str = "AAECAwQFBgcICQoLDA0ODxAREhMUFRYXGBkaGxwdHh8";
const KEY_B: &str = "ICEiIyQlJicoKSorLC0uLzAxMjM0NTY3ODk6Ozw9Pj8";

#[test]
fn truthy_values() {
    for v in ["1", "true", "TRUE", " Yes ", "y", "Y", "\tyEs\n"] {
        assert!(is_truthy(v), "{v}");
    }
    for v in ["", "0", "no", "N", "false", "yess", "t", "on"] {
        assert!(!is_truthy(v), "{v}");
    }
}

#[test]
fn key_list_supports_rotation() {
    let list = format!("relaisdesk-1={KEY_A}, relaisdesk-2 = {KEY_B} ,,");
    let config = AuthConfig::parse_settings(true, Some(&list), None, None).unwrap();
    assert!(config.enabled());
    assert!(config.required());
    let mut expected_a = [0u8; 32];
    for (i, b) in expected_a.iter_mut().enumerate() {
        *b = i as u8;
    }
    let mut expected_b = [0u8; 32];
    for (i, b) in expected_b.iter_mut().enumerate() {
        *b = 32 + i as u8;
    }
    assert_eq!(config.key("relaisdesk-1"), Some(expected_a));
    assert_eq!(config.key("relaisdesk-2"), Some(expected_b));
    assert_eq!(config.key("relaisdesk-3"), None);
}

#[test]
fn single_key_uses_default_id() {
    let config = AuthConfig::parse_settings(false, None, Some(&format!("  {KEY_A} ")), None).unwrap();
    assert!(config.key("relaisdesk-1").is_some());
    let named = AuthConfig::parse_settings(false, None, Some(KEY_A), Some(" other ")).unwrap();
    assert!(named.key("other").is_some());
    assert!(named.key("relaisdesk-1").is_none());
    // A blank key is no key.
    let blank = AuthConfig::parse_settings(false, None, Some("   "), None).unwrap();
    assert!(!blank.enabled());
}

#[test]
fn required_without_key_is_refused() {
    assert_eq!(
        AuthConfig::parse_settings(true, None, None, None).err(),
        Some(AuthError::RequiredWithoutKey)
    );
    assert_eq!(
        AuthConfig::parse_settings(true, Some(" , "), Some(""), None).err(),
        Some(AuthError::RequiredWithoutKey)
    );
    let disabled = AuthConfig::parse_settings(false, None, None, None).unwrap();
    assert!(!disabled.enabled());
    assert_eq!(validate_configuration(&Ok(disabled)), Ok(false));
}

#[test]
fn malformed_settings_are_refused() {
    let e = |list: &str| AuthConfig::parse_settings(false, Some(list), None, None).err();
    assert_eq!(e("no-equals-sign"), Some(AuthError::InvalidKeyList));
    assert_eq!(e(&format!("bad id={KEY_A}")), Some(AuthError::InvalidKeyId));
    assert_eq!(e(&format!("={KEY_A}")), Some(AuthError::InvalidKeyId));
    assert_eq!(e(&format!("{}={KEY_A}", "k".repeat(65))), Some(AuthError::InvalidKeyId));
    assert_eq!(e("k=***"), Some(AuthError::InvalidKeyEncoding));
    assert_eq!(e("k=AAEC"), Some(AuthError::InvalidKeyLength));
    assert_eq!(e(&format!("k={KEY_A},k={KEY_B}")), Some(AuthError::DuplicateKeyId));
    assert_eq!(
        AuthConfig::parse_settings(false, Some(&format!("relaisdesk-1={KEY_A}")), Some(KEY_B), None).err(),
        Some(AuthError::DuplicateKeyId)
    );
    assert_eq!(validate_configuration(&Err(AuthError::InvalidKeyList)), Err(AuthError::InvalidKeyList));
}

#[test]
fn duplicate_key_replaces_then_refuses() {
    let mut keys = KeyRing::new();
    assert_eq!(insert_public_key(&mut keys, "k", KEY_A), Ok(()));
    assert_eq!(insert_public_key(&mut keys, "k", KEY_B), Err(AuthError::DuplicateKeyId));
    assert_eq!(keys.len(), 1);
    assert_eq!(keys.get("k").map(|k| k[0]), Some(32));
}

#[test]
fn from_settings_initializes_the_library() {
    let config = AuthConfig::from_settings(true, Some(&format!("a={KEY_A}")), None, None).unwrap();
    assert!(config.enabled());
}

#[test]
fn error_messages() {
    assert_eq!(AuthError::Replayed.message(), "authorization proof was replayed");
    assert_eq!(AuthError::InvalidToken.message(), "invalid authorization token");
    assert_eq!(
        AuthError::RequiredWithoutKey.message(),
        "authorization is required but no public key is configured"
    );
}

#[test]
fn failed_initialization_is_reported() {
    assert_eq!(
        AuthConfig::from_settings_after(Err(()), false, Some(&format!("a={KEY_A}")), None, None).err(),
        Some(AuthError::CryptoInit)
    );
    assert!(AuthConfig::from_settings_after(Ok(()), false, Some(&format!("a={KEY_A}")), None, None).is_ok());
}
