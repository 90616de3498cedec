//! Spans of time and moments on a monotonic clock.

use vstd::prelude::*;

verus! {

/// Nanoseconds in a second.
pub const NANOS_PER_SEC: u64 = 1_000_000_000;

/// A span of time of whole nanoseconds.
#[derive(Clone, Copy, PartialEq, Eq, Hash, Debug, Structural)]
pub struct Duration {
    pub secs: u64,
    pub nanos: u32,
}

impl Duration {
    /// The span in nanoseconds.
    pub open spec fn total(self) -> nat {
        (self.secs * NANOS_PER_SEC + self.nanos) as nat
    }

    pub fn new(secs: u64, nanos: u32) -> (r: Duration)
        ensures
            r.secs == secs,
            r.nanos == nanos,
    {
        Duration { secs, nanos }
    }

    pub fn from_secs(secs: u64) -> (r: Duration)
        ensures
            r.secs == secs,
            r.nanos == 0,
    {
        Duration { secs, nanos: 0 }
    }

    pub fn as_nanos(&self) -> (r: u128)
        ensures
            r as nat == self.total(),
    {
        let secs: u128 = self.secs as u128;
        let nanos: u128 = self.nanos as u128;
        secs * 1_000_000_000 + nanos
    }
}

/// A moment, as the nanoseconds since the clock it was read from started.
#[derive(Clone, Copy, PartialEq, Eq, Hash, Debug, Structural)]
pub struct Instant {
    pub nanos: u128,
}

impl Instant {
    /// The moment `span` later.
    pub fn plus(&self, span: Duration) -> (r: Instant)
        requires
            self.nanos + span.total() <= u128::MAX,
        ensures
            r.nanos == self.nanos + span.total(),
    {
        Instant { nanos: self.nanos + span.as_nanos() }
    }
}

#[verifier::external_type_specification]
#[verifier::external_body]
pub struct ExStdInstant(std::time::Instant);

/// A monotonic clock that starts at zero.
#[derive(Clone, Copy, Debug)]
pub struct Clock {
    anchor: std::time::Instant,
}

/// The last moment a [`Clock`] can show: the longest span std can express.
pub open spec fn clock_limit() -> int {
    u64::MAX * NANOS_PER_SEC + 999_999_999
}

impl Clock {
    /// Whether the clock started at a moment that the machine gave.
    pub closed spec fn is_started(self) -> bool {
        call_ensures(std_now, (), self.anchor)
    }

    /// Whether a moment is one that the machine gave for this clock.
    pub closed spec fn shows(self, now: Instant) -> bool {
        call_ensures(std_elapsed_nanos, (&self.anchor,), now.nanos)
    }

    /// A clock that starts now.
    pub fn start() -> (r: Clock)
        ensures
            r.is_started(),
    {
        Clock { anchor: std_now() }
    }

    /// The moment the clock shows, which is whatever the machine says.
    pub fn now(&self) -> (r: Instant)
        ensures
            r.nanos <= clock_limit(),
            self.shows(r),
    {
        Instant { nanos: std_elapsed_nanos(&self.anchor) }
    }
}

/// `std::time::Instant::now`: the current moment, of which nothing is known.
#[verifier::external_body]
fn std_now() -> std::time::Instant {
    std::time::Instant::now()
}

/// `std::time::Instant::elapsed`: how long ago `anchor` was. A
/// `std::time::Duration` holds at most `u64::MAX` seconds and 999,999,999
/// nanoseconds.
#[verifier::external_body]
fn std_elapsed_nanos(anchor: &std::time::Instant) -> (r: u128)
    ensures
        r <= clock_limit(),
{
    anchor.elapsed().as_nanos()
}

#[verifier::external_type_specification]
#[verifier::external_body]
pub struct ExSystemTime(std::time::SystemTime);

/// `std::time::SystemTime::now`: what the machine's clock shows, of which
/// nothing is known.
#[verifier::external_body]
fn std_system_now() -> std::time::SystemTime {
    std::time::SystemTime::now()
}

/// Whether a moment is one that the machine's clock gave.
pub closed spec fn machine_shows(time: std::time::SystemTime) -> bool {
    call_ensures(std_system_now, (), time)
}

/// The time from the start of 1970 to a moment, unless the moment is before
/// that.
pub uninterp spec fn after_epoch(time: std::time::SystemTime) -> Option<Duration>;

/// `std::time::SystemTime::duration_since`: the time from the start of 1970 to
/// `time`, unless `time` is before that. A `std::time::Duration` has less than
/// a second of nanoseconds.
#[verifier::external_body]
fn std_since_epoch(time: &std::time::SystemTime) -> (r: Option<Duration>)
    ensures
        r == after_epoch(*time),
        r matches Some(d) ==> d.nanos < NANOS_PER_SEC,
{
    match time.duration_since(std::time::UNIX_EPOCH) {
        Ok(d) => Some(Duration { secs: d.as_secs(), nanos: d.subsec_nanos() }),
        Err(_) => None,
    }
}

/// The time since the start of 1970 that counts: none, where there is no such time.
pub open spec fn counted_time(clock: Option<Duration>) -> Duration {
    match clock {
        Some(d) => d,
        None => Duration { secs: 0, nanos: 0 },
    }
}

/// The time since the start of 1970 that counts, given what the machine's
/// clock says: one that is set to before that counts as set to it.
pub fn since_epoch(clock: Option<Duration>) -> (r: Duration)
    ensures
        r == counted_time(clock),
{
    match clock {
        Some(d) => d,
        None => Duration { secs: 0, nanos: 0 },
    }
}

/// The time since the start of 1970, which is whatever the machine says. A
/// clock that is set to before that counts as set to it.
pub fn unix_time() -> (r: Duration)
    ensures
        r.nanos < NANOS_PER_SEC,
        exists|time: std::time::SystemTime|
            machine_shows(time) && r == counted_time(#[trigger] after_epoch(time)),
{
    since_epoch(std_since_epoch(&std_system_now()))
}

/// A second has a thousand million nanoseconds.
pub proof fn seconds_have_nanoseconds(d: Duration)
    ensures
        d.total() == 1_000_000_000 * d.secs + d.nanos,
{
}

/// The time that counts is what the clock says, and none if that is before the
/// start of 1970.
pub proof fn early_clocks_count_as_zero(d: Duration)
    ensures
        counted_time(Some(d)) == d,
        counted_time(None).total() == 0,
{
}

/// A moment that a clock shows is one that the machine gave, so it is not later
/// than the longest span std can express.
pub proof fn clocks_show_what_the_machine_gives(clock: Clock, now: Instant)
    requires
        clock.shows(now),
    ensures
        now.nanos <= 0xffff_ffff_ffff_ffff * 1_000_000_000 + 999_999_999,
{
    assert(call_ensures(std_elapsed_nanos, (&clock.anchor,), now.nanos));
}

} // verus!
