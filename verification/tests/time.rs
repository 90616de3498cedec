use nebula::protocol::handshake::low_nanos;
use nebula::protocol::session::signed_secs;
use nebula::time::{since_epoch, unix_time, Clock, Duration, Instant};

#[test]
fn spans_are_counted_in_nanoseconds() {
    assert_eq!(Duration::new(3, 7).as_nanos(), 3_000_000_007);
    assert_eq!(Duration::from_secs(60).as_nanos(), 60_000_000_000);
    let later = Instant { nanos: 5 }.plus(Duration::from_secs(1));
    assert_eq!(later, Instant { nanos: 1_000_000_005 });
}

#[test]
fn a_clock_never_runs_backwards() {
    let clock = Clock::start();
    let first = clock.now().nanos;
    let second = clock.now().nanos;
    assert!(first <= second);
}

#[test]
fn the_time_of_day_is_after_2020() {
    let now = unix_time();
    assert!(now.secs > 1_577_836_800);
    assert!(now.nanos < 1_000_000_000);
}

#[test]
fn a_clock_before_1970_counts_as_1970() {
    assert_eq!(since_epoch(None), Duration::new(0, 0));
    assert_eq!(since_epoch(Some(Duration::new(7, 8))), Duration::new(7, 8));
}

#[test]
fn long_spans_wrap_around() {
    assert_eq!(low_nanos(Duration::new(2, 5)), 2_000_000_005);
    let long = 20_000_000_000u64;
    assert_eq!(low_nanos(Duration::new(long, 0)), (long as u128 * 1_000_000_000 - (1u128 << 64)) as u64);
    assert_eq!(signed_secs(Duration::new(1_700_000_000, 9)), 1_700_000_000);
    assert_eq!(signed_secs(Duration::new(u64::MAX, 0)), -1);
}
