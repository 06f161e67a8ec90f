//! A bank of stopwatches that accumulate elapsed time per slot.
//!
//! Clock readings are plain nanosecond counts handed in by the caller, so the
//! bank itself never consults a clock.

use vstd::prelude::*;

verus! {

/// Number of independent stopwatches in a bank.
pub const TIMER_SLOTS: usize = 64;

/// Elapsed time is capped at this many nanoseconds.
pub const MAX_NANOS: u64 = 0xffff_ffff_ffff_ffff;

/// A bank of `TIMER_SLOTS` stopwatches.
pub struct Timers {
    start: [u64; 64],
    elapsed: [u64; 64],
}

/// What one `timer_stop` adds to a slot: the time since the matching
/// `timer_start`, nothing if the clock reads earlier than it did then,
/// capped so that the total never exceeds `MAX_NANOS`.
pub open spec fn accumulate(elapsed: u64, start: u64, now: u64) -> u64 {
    let lap: int = if now >= start { now - start } else { 0 };
    if elapsed + lap > MAX_NANOS { MAX_NANOS } else { (elapsed + lap) as u64 }
}

impl Timers {
    /// The clock reading recorded by the last `timer_start` of each slot.
    pub closed spec fn started(&self) -> Seq<u64> {
        self.start@
    }

    /// The time accumulated in each slot.
    pub closed spec fn total(&self) -> Seq<u64> {
        self.elapsed@
    }

    /// A bank with every slot at zero.
    pub fn new() -> (t: Timers)
        ensures
            t.started() == Seq::new(TIMER_SLOTS as nat, |i: int| 0u64),
            t.total() == Seq::new(TIMER_SLOTS as nat, |i: int| 0u64),
    {
        Timers { start: [0u64; 64], elapsed: [0u64; 64] }
    }
}

/// Resets the accumulated time of slot `x` to zero.
pub fn timer_clear(timers: &mut Timers, x: usize)
    requires
        x < TIMER_SLOTS,
    ensures
        final(timers).total() == old(timers).total().update(x as int, 0),
        final(timers).started() == old(timers).started(),
{
    timers.elapsed[x] = 0;
}

/// Records `now` as the moment slot `x` was started.
pub fn timer_start(timers: &mut Timers, x: usize, now: u64)
    requires
        x < TIMER_SLOTS,
    ensures
        final(timers).started() == old(timers).started().update(x as int, now),
        final(timers).total() == old(timers).total(),
{
    timers.start[x] = now;
}

/// Adds the time between the last start of slot `x` and `now` to the slot.
pub fn timer_stop(timers: &mut Timers, x: usize, now: u64)
    requires
        x < TIMER_SLOTS,
    ensures
        final(timers).total() == old(timers).total().update(
            x as int,
            accumulate(old(timers).total()[x as int], old(timers).started()[x as int], now),
        ),
        final(timers).started() == old(timers).started(),
{
    let lap: u64 = now.saturating_sub(timers.start[x]);
    let sum: u64 = timers.elapsed[x].saturating_add(lap);
    timers.elapsed[x] = sum;
}

/// The time accumulated in slot `x`, in nanoseconds.
pub fn timer_read(timers: &Timers, x: usize) -> (nanos: u64)
    requires
        x < TIMER_SLOTS,
    ensures
        nanos == timers.total()[x as int],
{
    timers.elapsed[x]
}
} // verus!
