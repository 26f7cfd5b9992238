use queue_bot::ids::new_uuid;
use queue_bot::time::{current_time, Timestamp, MAX_TIMESTAMP_SECS};

#[test]
fn fresh_ids_are_version_four_uuids() {
    let a = new_uuid();
    let b = new_uuid();
    assert_ne!(a, b);
    for id in [a, b] {
        assert_eq!((id >> 76) & 0xF, 4);
        assert_eq!((id >> 62) & 0x3, 2);
    }
}

#[test]
fn the_clock_reads_after_the_epoch() {
    let t = current_time();
    assert!(t.secs > 1_600_000_000 && t.secs <= MAX_TIMESTAMP_SECS);
    assert!(t.nanos < 1_000_000_000);
    let later = current_time();
    assert!(!t.is_after(later));
    assert!(Timestamp { secs: 5, nanos: 1 }.is_after(Timestamp { secs: 5, nanos: 0 }));
    assert!(!Timestamp { secs: 4, nanos: 9 }.is_after(Timestamp { secs: 5, nanos: 0 }));
}
