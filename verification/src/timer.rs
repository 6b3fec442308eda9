//! Time slices: when the next timer interrupt is due and the time in
//! milliseconds, from the `time` counter and the clock's frequency.
use vstd::prelude::*;

verus! {

/// Time slices per second.
pub const TICKS_PER_SEC: usize = 100;

/// Milliseconds per second.
pub const MSEC_PER_SEC: usize = 1000;

/// The counter value at which the next timer interrupt is due: one time
/// slice after `now`, for a clock of `clock_freq` ticks per second.
pub fn set_next_trigger(now: usize, clock_freq: usize) -> (deadline: usize)
    requires
        now + clock_freq / 100 <= usize::MAX,
    ensures
        deadline == now + clock_freq / 100,
{
    now + clock_freq / TICKS_PER_SEC
}

/// The counter value `now` in milliseconds, for a clock of `clock_freq`
/// ticks per second (at least 1000).
pub fn get_time_ms(now: usize, clock_freq: usize) -> (ms: usize)
    requires
        clock_freq >= 1000,
    ensures
        ms == now / (clock_freq / 1000),
{
    now / (clock_freq / MSEC_PER_SEC)
}

} // verus!
