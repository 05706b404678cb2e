use relaisdesk::clock::{clock_reading, now_seconds};
use relaisdesk::error::AuthError;

#[test]
fn clock_readings_keep_their_seconds() {
    assert_eq!(clock_reading(Some(1_700_000_000)), Ok(1_700_000_000));
    assert_eq!(clock_reading(Some(0)), Ok(0));
    assert_eq!(clock_reading(Some(i64::MAX as u64)), Ok(i64::MAX));
    assert_eq!(clock_reading(None), Err(AuthError::InvalidClock));
}

#[test]
fn the_system_clock_reads_after_the_epoch() {
    let now = now_seconds().expect("a clock after the epoch");
    assert!(now > 1_600_000_000);
}
