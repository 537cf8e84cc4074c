//! Points in time as plain seconds and nanoseconds, and the milliseconds
//! between two of them.

use vstd::prelude::*;

verus! {

/// A point in time: whole seconds since the epoch and the nanoseconds into
/// the current second.
#[derive(Clone, Copy, PartialEq, Eq, Structural, Debug)]
pub struct Moment {
    pub sec: i64,
    pub nsec: i32,
}

/// The nanoseconds from `earlier` to `later`; negative where `later` comes
/// first.
pub open spec fn nanos_between(later: Moment, earlier: Moment) -> int {
    (later.sec - earlier.sec) * 1_000_000_000 + (later.nsec - earlier.nsec)
}

/// The whole milliseconds from `earlier` to `later`; zero where `later` does
/// not come after `earlier`.
pub open spec fn millis_between(later: Moment, earlier: Moment) -> nat {
    if nanos_between(later, earlier) <= 0 {
        0
    } else {
        (nanos_between(later, earlier) / 1_000_000) as nat
    }
}

/// The milliseconds from `earlier` to `later` as a 32-bit counter, which
/// starts again from zero every 2^32 milliseconds.
pub open spec fn timestamp_between(later: Moment, earlier: Moment) -> u32 {
    (millis_between(later, earlier) % 0x1_0000_0000) as u32
}

/// Calls `time::get_time` and copies the two fields of what it returns.
/// Trusted: the nanoseconds lie within one second, which the outside
/// constructor asserts of every value it builds. On a platform without a
/// real-time clock the outside function does not return.
#[verifier::external_body]
fn get_time() -> (now: Moment)
    ensures
        0 <= now.nsec < 1_000_000_000,
{
    let t = time::get_time();
    Moment { sec: t.sec, nsec: t.nsec }
}

impl Moment {
    /// The current time of the system clock.
    pub fn now() -> (now: Moment)
        ensures
            0 <= now.nsec < 1_000_000_000,
    {
        get_time()
    }

    /// The moment `millis` milliseconds after the epoch.
    pub fn from_millis(millis: u32) -> (m: Moment)
        ensures
            m.sec == millis / 1000,
            m.nsec == (millis % 1000) * 1_000_000,
            millis_between(m, Moment { sec: 0, nsec: 0 }) == millis,
    {
        let sec: i64 = (millis / 1000) as i64;
        let nsec: i32 = ((millis % 1000) * 1_000_000) as i32;
        let m = Moment { sec, nsec };
        assert(nanos_between(m, Moment { sec: 0, nsec: 0 }) == millis * 1_000_000) by {
            assert(sec * 1000 + millis % 1000 == millis);
        }
        m
    }

    /// The whole milliseconds from `earlier` to `self`, zero where `self`
    /// does not come after `earlier`.
    pub fn millis_since(&self, earlier: &Moment) -> (ms: u128)
        ensures
            ms == millis_between(*self, *earlier),
    {
        let secs: i128 = self.sec as i128 - earlier.sec as i128;
        let nanos: i128 = secs * 1_000_000_000 + (self.nsec as i128 - earlier.nsec as i128);
        if nanos <= 0 {
            0
        } else {
            (nanos / 1_000_000) as u128
        }
    }

    /// The milliseconds from `earlier` to `self` as a 32-bit counter.
    pub fn timestamp_since(&self, earlier: &Moment) -> (ts: u32)
        ensures
            ts == timestamp_between(*self, *earlier),
    {
        let ms: u128 = self.millis_since(earlier);
        (ms % 0x1_0000_0000) as u32
    }
}

} // verus!
