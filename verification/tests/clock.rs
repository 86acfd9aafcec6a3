use abspath::clock::{current_time, epoch_from};
use abspath::error::ErrorKind;
use std::time::{Duration, SystemTime};

#[test]
fn epoch_is_whole_seconds() {
    assert_eq!(epoch_from(Ok(Duration::new(5, 999_999_999))), Ok(5));
    assert_eq!(epoch_from(Ok(Duration::from_millis(1_700_000_000_123))), Ok(1_700_000_000));
    assert_eq!(epoch_from(Ok(Duration::ZERO)), Ok(0));
}

#[test]
fn clock_before_epoch_is_an_error() {
    let later = SystemTime::UNIX_EPOCH + Duration::from_secs(1);
    let failed = SystemTime::UNIX_EPOCH.duration_since(later);
    let err = epoch_from(failed).unwrap_err();
    assert_eq!(err.kind, ErrorKind::ClockBeforeEpoch);
    assert!(err.path.is_empty());
}

#[test]
fn current_time_is_after_2020() {
    assert!(current_time().unwrap() > 1_577_836_800);
}
