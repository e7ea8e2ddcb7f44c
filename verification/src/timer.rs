//! Time abstraction for the cadence scheduler: a monotone millisecond clock
//! that can also block, a wall-clock-backed implementation, and a manually
//! driven one for deterministic runs.

use vstd::prelude::*;

verus! {

/// A source of monotone time in milliseconds.
///
/// `elapsed_ms` is the abstract reading of the clock; `now` reports it and
/// `wait` blocks until it has advanced by at least the requested amount.
/// An `exact` source promises more: readings never move on their own, and a
/// wait advances the reading by exactly the requested amount (up to the
/// machine range). A manually driven clock is exact; a real clock is not.
pub trait TimeSource: Sized {
    spec fn elapsed_ms(&self) -> int;

    spec fn exact(&self) -> bool;

    fn now(&mut self) -> (t: u64)
        ensures
            final(self).elapsed_ms() == t as int,
            t as int >= old(self).elapsed_ms(),
            final(self).exact() == old(self).exact(),
            old(self).exact() ==> t as int == old(self).elapsed_ms(),
    ;

    fn wait(&mut self, ms: u64)
        ensures
            final(self).elapsed_ms() >= old(self).elapsed_ms() + ms || final(self).elapsed_ms()
                >= u64::MAX as int,
            final(self).exact() == old(self).exact(),
            old(self).exact() && old(self).elapsed_ms() + ms <= u64::MAX as int
                ==> final(self).elapsed_ms() == old(self).elapsed_ms() + ms,
    ;
}

/// Relies on `chrono::Utc::now` and `DateTime::timestamp_millis`: the wall
/// clock as milliseconds since the Unix epoch. Nothing is assumed of the
/// value; the wall clock may jump either way between calls. A system clock
/// that predates the epoch — which chrono refuses — is reported as the
/// epoch.
#[verifier::external_body]
fn wall_clock_millis() -> i64 {
    if std::time::SystemTime::now().duration_since(std::time::UNIX_EPOCH).is_err() {
        return 0;
    }
    chrono::Utc::now().timestamp_millis()
}

/// Relies on `chan::after`: its receiver unblocks only once the given
/// duration has elapsed (the sending side sleeps that long, then hangs up).
#[verifier::external_body]
fn block_for_millis(ms: u64) {
    let _ = chan::after(std::time::Duration::from_millis(ms)).recv();
}

/// A monotone clock over the system wall clock: readings never decrease even
/// if the wall clock steps backwards, and a wait always advances the reading
/// by at least the requested amount.
pub struct RealTimeSource {
    last: u64,
}

impl RealTimeSource {
    pub fn new() -> (r: RealTimeSource)
        ensures
            r.elapsed_ms() == 0,
    {
        RealTimeSource { last: 0 }
    }

    fn wall_now(&self) -> (t: u64) {
        let w = wall_clock_millis();
        if w < 0 {
            0
        } else {
            w as u64
        }
    }
}

impl TimeSource for RealTimeSource {
    closed spec fn elapsed_ms(&self) -> int {
        self.last as int
    }

    closed spec fn exact(&self) -> bool {
        false
    }

    fn now(&mut self) -> (t: u64) {
        let w = self.wall_now();
        if w > self.last {
            self.last = w;
        }
        self.last
    }

    fn wait(&mut self, ms: u64) {
        block_for_millis(ms);
        let w = self.wall_now();
        let target = if ms > u64::MAX - self.last {
            u64::MAX
        } else {
            self.last + ms
        };
        self.last = if w > target {
            w
        } else {
            target
        };
    }
}

/// A manually driven clock: `now` reports the stored reading and `wait`
/// advances it by exactly the requested amount. Lets schedules be exercised
/// without real waiting.
pub struct FakeTimeSource {
    time: u64,
}

impl FakeTimeSource {
    pub fn new() -> (r: FakeTimeSource)
        ensures
            r.elapsed_ms() == 0,
            r.exact(),
    {
        FakeTimeSource { time: 0 }
    }
}

impl TimeSource for FakeTimeSource {
    closed spec fn elapsed_ms(&self) -> int {
        self.time as int
    }

    closed spec fn exact(&self) -> bool {
        true
    }

    fn now(&mut self) -> (t: u64) {
        self.time
    }

    fn wait(&mut self, ms: u64) {
        self.time = if ms > u64::MAX - self.time {
            u64::MAX
        } else {
            self.time + ms
        };
    }
}

/// Splits a millisecond count into the whole seconds and the nanoseconds of
/// the remainder, the form a one-shot alarm sleep takes.
pub fn split_millis(ms: u64) -> (r: (u64, u32))
    ensures
        r.0 == ms / 1000,
        r.1 == (ms % 1000) * 1_000_000,
{
    let secs = ms / 1000;
    let rem = ms % 1000;
    assert(rem * 1_000_000 <= u32::MAX as u64) by {
        assert(rem < 1000);
    }
    (secs, (rem * 1_000_000) as u32)
}

} // verus!
