//! The monotonic timer as the library sees it: a clock reading that never
//! goes backwards, and the deadline arithmetic of timed suspension. The
//! counter is wide; a deadline past its end saturates at the last tick.
use vstd::prelude::*;

verus! {

/// `now + period`, saturated at the counter's last tick.
pub open spec fn spec_deadline_after(now: u64, period: u64) -> u64 {
    if now + period > u64::MAX {
        u64::MAX
    } else {
        (now + period) as u64
    }
}

/// The deadline `period` ticks after `now`.
pub fn deadline_after(now: u64, period: u64) -> (d: u64)
    ensures
        d == spec_deadline_after(now, period),
        d >= now,
{
    match now.checked_add(period) {
        Some(d) => d,
        None => u64::MAX,
    }
}

/// How late a wake-up at `now` is for `deadline`: 0 when on time. A late
/// wake-up is an accepted effect of preemption, reported, never an error.
pub fn lateness(deadline: u64, now: u64) -> (l: u64)
    ensures
        l == if now > deadline {
            now - deadline
        } else {
            0
        },
{
    if now > deadline {
        now - deadline
    } else {
        0
    }
}

/// The monotonic clock: the latest counter value observed.
#[derive(Clone, Copy, Debug, PartialEq, Eq, Structural)]
pub struct Clock {
    pub now: u64,
}

impl Clock {
    /// A clock at tick 0.
    pub fn new() -> (c: Clock)
        ensures
            c.now == 0,
    {
        Clock { now: 0 }
    }

    /// Takes a raw counter reading. The clock never goes backwards: a reading
    /// below the current value leaves it unchanged.
    pub fn observe(&mut self, raw: u64) -> (now: u64)
        ensures
            now == final(self).now,
            final(self).now == if raw > old(self).now {
                raw
            } else {
                old(self).now
            },
            final(self).now >= old(self).now,
    {
        if raw > self.now {
            self.now = raw;
        }
        self.now
    }

    /// The current reading.
    pub fn now(&self) -> (now: u64)
        ensures
            now == self.now,
    {
        self.now
    }

    /// A deadline has fired when the clock has reached it.
    pub fn reached(&self, deadline: u64) -> (r: bool)
        ensures
            r == (self.now >= deadline),
    {
        self.now >= deadline
    }
}

} // verus!
