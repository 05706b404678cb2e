use relaisdesk::claims::Claims;
use relaisdesk::error::AuthError;
use relaisdesk::registration::{reserve_registration, reserve_registration_by, RegistrationCache};

fn claims(role: &str, subject: &str, tenant: &str, device: &str, max: u32) -> Claims {
    Claims {
        iss: "relaisdesk-api".to_owned(),
        aud: "rustdesk-network".to_owned(),
        sub: subject.to_owned(),
        tenant: tenant.to_owned(),
        role: role.to_owned(),
        jti: "0123456789abcdef".to_owned(),
        device_public_key: device.to_owned(),
        kid: "test-1".to_owned(),
        iat: 100,
        nbf: 100,
        exp: 1_000,
        max_sessions: max,
    }
}

#[test]
fn registration_reservations_enforce_quotas_atomically() {
    let mut cache = RegistrationCache::default();
    cache
        .reserve(
            &claims("technician", "tech-a", "tenant-a", "device-a", 2),
            100,
        )
        .expect("first technician device");
    cache
        .reserve(
            &claims("technician", "tech-a", "tenant-a", "device-b", 2),
            100,
        )
        .expect("second technician device");
    assert!(cache
        .reserve(
            &claims("technician", "tech-a", "tenant-a", "device-c", 2),
            100
        )
        .is_err());

    assert!(cache
        .reserve(
            &claims("technician", "tech-a", "tenant-a", "device-b", 1),
            101
        )
        .is_err());
    cache
        .reserve(
            &claims("technician", "tech-a", "tenant-b", "device-c", 1),
            101,
        )
        .expect("a separate tenant has its own quota");

    cache
        .reserve(
            &claims("viewer", "viewer-a", "tenant-a", "viewer-device-a", 1),
            101,
        )
        .expect("first viewer device");
    assert!(cache
        .reserve(
            &claims("viewer", "viewer-a", "tenant-a", "viewer-device-b", 1),
            101
        )
        .is_err());
    cache
        .reserve(
            &claims("viewer", "viewer-b", "tenant-a", "viewer-device-b", 1),
            101,
        )
        .expect("another viewer has an independent reservation");
}

#[test]
fn refusals_name_their_reason() {
    let mut cache = RegistrationCache::new();
    assert_eq!(
        cache.reserve(&claims("admin", "a", "t", "d", 1), 100),
        Err(AuthError::InvalidRole)
    );
    cache.reserve(&claims("technician", "a", "t", "d1", 1), 100).unwrap();
    assert_eq!(
        cache.reserve(&claims("technician", "a", "t", "d2", 1), 100),
        Err(AuthError::DeviceLimit)
    );
    cache.reserve(&claims("viewer", "v", "t", "d1", 1), 100).unwrap();
    assert_eq!(
        cache.reserve(&claims("viewer", "v", "t", "d2", 1), 100),
        Err(AuthError::ViewerInUse)
    );
    assert_eq!(cache.len(), 2);
}

#[test]
fn refreshing_a_device_keeps_its_place() {
    let mut cache = RegistrationCache::new();
    cache.reserve(&claims("technician", "a", "t", "first", 2), 100).unwrap();
    cache.reserve(&claims("technician", "a", "t", "second", 2), 100).unwrap();
    // The first device re-registers and still ranks first under a quota of one.
    cache.reserve(&claims("technician", "a", "t", "first", 1), 110).unwrap();
    assert_eq!(
        cache.reserve(&claims("technician", "a", "t", "second", 1), 110),
        Err(AuthError::DeviceLimit)
    );
    assert_eq!(cache.len(), 2);
}

#[test]
fn expired_registrations_free_the_quota() {
    let mut cache = RegistrationCache::new();
    cache.reserve(&claims("technician", "a", "t", "d1", 1), 100).unwrap();
    // The registration lasts 35 seconds: at 134 it still holds, at 135 it is gone.
    assert_eq!(
        cache.reserve(&claims("technician", "a", "t", "d2", 1), 134),
        Err(AuthError::DeviceLimit)
    );
    assert_eq!(cache.len(), 1);
    cache.reserve(&claims("technician", "a", "t", "d2", 1), 135).unwrap();
    assert_eq!(cache.len(), 1);
}

#[test]
fn registration_ends_with_the_token() {
    let mut cache = RegistrationCache::new();
    let mut c = claims("viewer", "v", "t", "d1", 1);
    c.exp = 110;
    cache.reserve(&c, 100).unwrap();
    // The token expires at 110, before the 35-second lifetime would end.
    cache.reserve(&claims("viewer", "v", "t", "d2", 1), 110).unwrap();
}

#[test]
fn viewer_device_may_renew() {
    let mut cache = RegistrationCache::new();
    cache.reserve(&claims("viewer", "v", "t", "d1", 1), 100).unwrap();
    cache.reserve(&claims("viewer", "v", "t", "d1", 1), 120).unwrap();
    assert_eq!(cache.len(), 1);
}

#[test]
fn nothing_to_reserve_without_claims() {
    let mut cache = RegistrationCache::new();
    assert_eq!(reserve_registration(&None, &mut cache), Ok(()));
    assert_eq!(cache.len(), 0);
}

#[test]
fn reservation_by_a_failed_clock_changes_nothing() {
    let mut cache = RegistrationCache::new();
    let c = Some(claims("viewer", "v", "t", "d1", 1));
    assert_eq!(
        reserve_registration_by(&c, Err(AuthError::InvalidClock), &mut cache),
        Err(AuthError::InvalidClock)
    );
    assert_eq!(cache.len(), 0);
    assert_eq!(reserve_registration_by(&c, Ok(100), &mut cache), Ok(()));
    assert_eq!(cache.len(), 1);
}

#[test]
fn many_reservations_keep_viewers_exclusive() {
    let mut cache = RegistrationCache::new();
    for i in 0..40i64 {
        let device = format!("viewer-device-{}", i % 3);
        let result = cache.reserve(&claims("viewer", "sub-v", "tenant", &device, 1), 100 + i);
        if i == 0 {
            assert_eq!(result, Ok(()));
        }
        if i % 3 != 0 {
            assert_eq!(result, Err(AuthError::ViewerInUse));
        }
    }
    assert_eq!(cache.len(), 1);
}
