//! A polled interval timer for heartbeat, handshake and timeout decisions.
//!
//! The timer holds the instant it was last reset; it "rings" once the
//! supplied current time has passed that instant by the period, or when it
//! was rung manually (used to force the first handshake out immediately).

use vstd::prelude::*;

verus! {

/// A polled interval timer over host-supplied millisecond clocks.
#[derive(Clone, Copy, PartialEq, Eq, Structural, Debug)]
pub struct Timer {
    /// The ringing period in milliseconds.
    pub period_ms: u64,
    /// The clock value at the last reset.
    pub last_reset_ms: u64,
    /// Set by `ring_manual`: the next poll rings regardless of the clock.
    pub rung_manual: bool,
}

/// Whether a timer rings when polled at time `now_ms`.
pub open spec fn spec_ringing(t: Timer, now_ms: u64) -> bool {
    t.rung_manual || now_ms >= t.last_reset_ms + t.period_ms
}

impl Timer {
    /// Creates a timer with period `period_ms`, last reset at `now_ms`.
    pub fn new(period_ms: u64, now_ms: u64) -> (t: Timer)
        ensures
            t.period_ms == period_ms,
            t.last_reset_ms == now_ms,
            !t.rung_manual,
    {
        Timer { period_ms, last_reset_ms: now_ms, rung_manual: false }
    }

    /// True once the current time has passed the last reset by the period,
    /// or after `ring_manual`.
    pub fn ringing(&self, now_ms: u64) -> (r: bool)
        ensures
            r == spec_ringing(*self, now_ms),
    {
        if self.rung_manual {
            return true;
        }
        if self.last_reset_ms > u64::MAX - self.period_ms {
            // The next fire instant lies beyond the clock's range.
            return false;
        }
        now_ms >= self.last_reset_ms + self.period_ms
    }

    /// Moves the next fire instant one period past `now_ms` and clears any
    /// manual ring.
    pub fn reset(&mut self, now_ms: u64)
        ensures
            final(self).period_ms == old(self).period_ms,
            final(self).last_reset_ms == now_ms,
            !final(self).rung_manual,
    {
        self.last_reset_ms = now_ms;
        self.rung_manual = false;
    }

    /// Forces the next poll of `ringing` to return true.
    pub fn ring_manual(&mut self)
        ensures
            final(self).period_ms == old(self).period_ms,
            final(self).last_reset_ms == old(self).last_reset_ms,
            final(self).rung_manual,
            forall|now: u64| spec_ringing(*final(self), now),
    {
        self.rung_manual = true;
    }
}

} // verus!
