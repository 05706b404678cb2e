use relaisdesk::error::AuthError;
use relaisdesk::replay::{remember_nonce, ReplayCache};

#[test]
fn a_nonce_is_accepted_once() {
    let mut cache = ReplayCache::default();
    assert_eq!(remember_nonce(&mut cache, "dev", "nonce-0000000001", 500, 100), Ok(()));
    assert_eq!(
        remember_nonce(&mut cache, "dev", "nonce-0000000001", 500, 101),
        Err(AuthError::Replayed)
    );
    // Another device may use the same nonce.
    assert_eq!(remember_nonce(&mut cache, "other", "nonce-0000000001", 500, 101), Ok(()));
    assert_eq!(cache.len(), 2);
}

#[test]
fn expired_nonces_are_swept_every_ten_seconds() {
    let mut cache = ReplayCache::new();
    assert_eq!(remember_nonce(&mut cache, "dev", "n1", 105, 100), Ok(()));
    // At 106 the nonce has expired, but the last sweep (at 100) is recent.
    assert_eq!(remember_nonce(&mut cache, "dev", "n1", 200, 106), Err(AuthError::Replayed));
    // The refused attempt stored its expiry; at 110 a sweep runs and keeps it.
    assert_eq!(remember_nonce(&mut cache, "dev", "n1", 300, 110), Err(AuthError::Replayed));
    assert_eq!(cache.len(), 1);
    // At 320 a sweep runs and forgets it (it expired at 300), so it is accepted again.
    assert_eq!(remember_nonce(&mut cache, "dev", "n1", 400, 320), Ok(()));
    assert_eq!(cache.len(), 1);
}

#[test]
fn a_device_holds_at_most_512_nonces() {
    let mut cache = ReplayCache::new();
    for i in 0..512 {
        let nonce = format!("nonce-{i:010}");
        assert_eq!(remember_nonce(&mut cache, "dev", &nonce, 1_000, 5), Ok(()));
    }
    assert_eq!(
        remember_nonce(&mut cache, "dev", "one-more-nonce-x", 1_000, 5),
        Err(AuthError::DeviceReplayCacheFull)
    );
    assert_eq!(remember_nonce(&mut cache, "dev2", "one-more-nonce-x", 1_000, 5), Ok(()));
    assert_eq!(cache.len(), 513);
}

#[test]
fn other_devices_do_not_free_a_nonce() {
    let mut cache = ReplayCache::new();
    assert_eq!(remember_nonce(&mut cache, "dev", "n1", 500, 100), Ok(()));
    for i in 0..20 {
        let nonce = format!("other-{i}");
        assert_eq!(remember_nonce(&mut cache, "dev2", &nonce, 150, 100 + 20 * i), Ok(()));
    }
    assert_eq!(remember_nonce(&mut cache, "dev", "n1", 500, 499), Err(AuthError::Replayed));
}

#[test]
fn a_replay_with_an_earlier_expiry_is_still_refused() {
    let mut cache = ReplayCache::new();
    assert_eq!(remember_nonce(&mut cache, "dev", "n1", 500, 100), Ok(()));
    // The replayed proof carries an earlier expiry than the accepted one.
    assert_eq!(remember_nonce(&mut cache, "dev", "n1", 150, 101), Err(AuthError::Replayed));
    assert_eq!(remember_nonce(&mut cache, "dev", "n1", 120, 105), Err(AuthError::Replayed));
    assert_eq!(cache.len(), 1);
}
