//! The fixed-rate tick clock, decoupled from the render frame rate.
use vstd::prelude::*;

verus! {

/// The current tick, the tick period in nanoseconds and the time gathered
/// since the last tick boundary.
pub struct TickClock {
    pub period: u64,
    pub overshoot: u64,
    pub tick: u64,
}

impl TickClock {
    pub open spec fn wf(self) -> bool {
        &&& self.period >= 1
        &&& self.overshoot < self.period
    }

    /// A clock at tick 0 with a period of `period` nanoseconds.
    pub fn new(period: u64) -> (r: TickClock)
        requires
            period >= 1,
        ensures
            r.wf(),
            r.period == period,
            r.tick == 0,
            r.overshoot == 0,
    {
        TickClock { period, overshoot: 0, tick: 0 }
    }

    /// Adds `elapsed` nanoseconds of wall-clock time and returns how many
    /// ticks fell due; the caller runs the simulation step that many times,
    /// in order. The tick never goes back.
    pub fn advance(&mut self, elapsed: u64) -> (n: u64)
        requires
            old(self).wf(),
            old(self).tick + (old(self).overshoot + elapsed) / (old(self).period as int)
                <= u64::MAX,
        ensures
            final(self).wf(),
            final(self).period == old(self).period,
            n == (old(self).overshoot + elapsed) / (old(self).period as int),
            final(self).overshoot == (old(self).overshoot + elapsed) % (old(self).period as int),
            final(self).tick == old(self).tick + n,
    {
        let total: u128 = self.overshoot as u128 + elapsed as u128;
        let p: u128 = self.period as u128;
        let n: u128 = total / p;
        let rest: u128 = total % p;
        self.overshoot = rest as u64;
        self.tick = self.tick + n as u64;
        n as u64
    }

    /// The next tick the authoritative simulation will process: the tick
    /// that a freshly sampled input is tagged with.
    pub fn next_tick(&self) -> (r: u64)
        requires
            self.tick < u64::MAX,
        ensures
            r == self.tick + 1,
    {
        self.tick + 1
    }
}

} // verus!
