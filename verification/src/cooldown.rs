//! Repeating cooldowns, kept as plain numbers and advanced by the
//! engine's own timer.

use vstd::prelude::*;
use std::time::Duration;
use bevy::time::{Timer, TimerMode};

verus! {

/// A repeating cooldown: the time between two firings and the time since
/// the last one, both in microseconds.
#[derive(Clone, Copy, Debug, PartialEq, Eq, Structural)]
pub struct Cooldown {
    pub period: u64,
    pub elapsed: u64,
}

/// Advances a repeating `bevy::time::Timer` of the given period, which
/// has run for `elapsed`, by `delta`, all in microseconds, with
/// `Timer::tick`. Returns whether the timer finished on this tick and how
/// long it has run since it last finished.
///
/// Trusted: a repeating timer that is not paused adds `delta` to the
/// elapsed time, has finished if the sum reaches the period, and then
/// keeps what is left of the sum after as many whole periods as fit. The
/// period must not be zero, and the number of whole periods must fit the
/// timer's 32-bit count: `tick` divides by the period and counts with
/// `u32`.
#[verifier::external_body]
fn timer_tick(period: u64, elapsed: u64, delta: u32) -> (r: (bool, u64))
    requires
        period > 0,
        (elapsed + delta) / (period as int) <= u32::MAX,
    ensures
        r.0 == (elapsed + delta >= period),
        r.1 == (elapsed + delta) % (period as int),
{
    let mut timer = Timer::new(Duration::from_micros(period), TimerMode::Repeating);
    timer.set_elapsed(Duration::from_micros(elapsed));
    timer.tick(Duration::from_micros(delta as u64));
    (timer.finished(), timer.elapsed().as_micros() as u64)
}

impl Cooldown {
    /// A cooldown runs for less than its period, which is not zero.
    pub open spec fn well_formed(self) -> bool {
        0 <= self.elapsed < self.period
    }

    /// Whether the cooldown fires when `delta` microseconds pass.
    pub open spec fn fires(self, delta: int) -> bool {
        self.elapsed + delta >= self.period
    }

    /// The cooldown after `delta` microseconds passed.
    pub open spec fn after(self, delta: int) -> Cooldown {
        Cooldown { period: self.period, elapsed: ((self.elapsed + delta) % (self.period as int)) as u64 }
    }

    /// Makes a cooldown that fires every `period` microseconds, or none
    /// if the period is zero.
    pub fn new(period: u64) -> (r: Option<Cooldown>)
        ensures
            r == if period > 0 {
                Some(Cooldown { period, elapsed: 0 })
            } else {
                None
            },
            r matches Some(cooldown) ==> cooldown.well_formed(),
    {
        if period > 0 {
            Some(Cooldown { period, elapsed: 0 })
        } else {
            None
        }
    }

    /// Lets `delta` microseconds pass, and says whether the cooldown
    /// fired.
    pub fn tick(&mut self, delta: u32) -> (fired: bool)
        requires
            old(self).well_formed(),
        ensures
            fired == old(self).fires(delta as int),
            *final(self) == old(self).after(delta as int),
            final(self).well_formed(),
    {
        proof {
            let p = self.period as int;
            let total = self.elapsed + delta;
            assert(total / p <= delta) by (nonlinear_arith)
                requires
                    0 < p,
                    0 <= total < p + delta,
                    0 <= delta,
            ;
            assert(0 <= total % p < p) by (nonlinear_arith)
                requires
                    0 < p,
                    0 <= total,
            ;
        }
        let (fired, elapsed) = timer_tick(self.period, self.elapsed, delta);
        self.elapsed = elapsed;
        fired
    }
}

} // verus!
