use timelapse::hash::{backoff_ms, stable_step, FileStamp, StableStep};

#[test]
fn backoff_doubles_from_fifty() {
    assert_eq!(backoff_ms(0), 50);
    assert_eq!(backoff_ms(1), 100);
    assert_eq!(backoff_ms(2), 200);
    assert_eq!(backoff_ms(10), 51_200);
}

#[test]
fn backoff_saturates() {
    assert_eq!(backoff_ms(58), 50u64 << 58);
    assert_eq!(backoff_ms(59), u64::MAX);
    assert_eq!(backoff_ms(255), u64::MAX);
}

#[test]
fn stable_file_is_accepted() {
    let stamp = FileStamp { len: 14, mtime_ns: 1_000 };
    assert_eq!(stable_step(0, 3, stamp, stamp), StableStep::Accept);
    assert_eq!(stable_step(2, 3, stamp, stamp), StableStep::Accept);
}

#[test]
fn changed_file_is_retried_then_given_up() {
    let before = FileStamp { len: 7, mtime_ns: 1_000 };
    let longer = FileStamp { len: 8, mtime_ns: 1_000 };
    let later = FileStamp { len: 7, mtime_ns: 2_000 };
    assert_eq!(stable_step(0, 2, before, longer), StableStep::Retry { backoff_ms: 50 });
    assert_eq!(stable_step(1, 2, before, later), StableStep::GiveUp);
    assert_eq!(stable_step(1, 3, before, later), StableStep::Retry { backoff_ms: 100 });
    assert_eq!(stable_step(0, 1, before, later), StableStep::GiveUp);
}
