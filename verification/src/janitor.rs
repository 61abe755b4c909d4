//! The decision logic of the peer-expiry janitor: a fixed-interval
//! schedule that says when the next registry sweep is due.
//!
//! The janitor itself is a loop the host runs: each wake-up it asks
//! the schedule whether a sweep is due, calls the registry's cleanup
//! when it is, and stops altogether once its non-owning handle to the
//! registry can no longer be resolved. Only the timing decision lives
//! here; the loop, the clock and the handle are the host's.

use vstd::prelude::*;

verus! {

/// A fixed-interval schedule: the sweep interval in seconds and the
/// earliest time the next sweep is due.
#[derive(Clone, Copy, PartialEq, Eq, Structural, Debug)]
pub struct JanitorSchedule {
    pub interval: u64,
    pub next_due: u64,
}

impl JanitorSchedule {
    /// A meaningful schedule ticks at least every second.
    pub open spec fn wf(&self) -> bool {
        self.interval > 0
    }

    /// A schedule whose first sweep is due one full interval after
    /// `now` — the first wake-up does not sweep immediately.
    pub fn new(interval: u64, now: u64) -> (s: JanitorSchedule)
        requires
            interval > 0,
            now + interval <= u64::MAX,
        ensures
            s.wf(),
            s.interval == interval,
            s.next_due == now + interval,
    {
        JanitorSchedule { interval, next_due: now + interval }
    }

    /// Whether a sweep is due at `now`, and when: a sweep is due
    /// exactly from `next_due` on, and running one pushes `next_due`
    /// a full interval past `now`.
    pub fn poll(&mut self, now: u64) -> (run: bool)
        requires
            old(self).wf(),
            now + old(self).interval <= u64::MAX,
        ensures
            final(self).wf(),
            final(self).interval == old(self).interval,
            run == (now >= old(self).next_due),
            run ==> final(self).next_due == now + old(self).interval,
            !run ==> final(self).next_due == old(self).next_due,
    {
        if now >= self.next_due {
            self.next_due = now + self.interval;
            true
        } else {
            false
        }
    }
}

} // verus!
