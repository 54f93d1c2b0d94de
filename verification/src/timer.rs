//! Conversions of the hardware time counter and the timer-interrupt schedule.
//!
//! The counter itself is read by the caller; these functions compute on its
//! value.
use vstd::prelude::*;
use crate::config::CLOCK_FREQ;

verus! {

/// Timer interrupts per second.
pub const TICKS_PER_SEC: usize = 100;
/// Milliseconds per second.
pub const MSEC_PER_SEC: usize = 1000;
/// Microseconds per second.
pub const MICRO_PER_SEC: usize = 1_000_000;

/// The counter reading in ticks, unchanged.
pub fn get_time(ticks: usize) -> (r: usize)
    ensures
        r == ticks,
{
    ticks
}

/// Whole milliseconds elapsed at a counter reading.
pub fn get_time_ms(ticks: usize) -> (r: usize)
    requires
        ticks * MSEC_PER_SEC <= usize::MAX,
    ensures
        r == (ticks * MSEC_PER_SEC) / (CLOCK_FREQ as int),
{
    ticks * MSEC_PER_SEC / CLOCK_FREQ
}

/// Whole microseconds elapsed at a counter reading.
pub fn get_time_us(ticks: usize) -> (r: usize)
    requires
        ticks * MICRO_PER_SEC <= usize::MAX,
    ensures
        r == (ticks * MICRO_PER_SEC) / (CLOCK_FREQ as int),
{
    ticks * MICRO_PER_SEC / CLOCK_FREQ
}

/// The absolute counter value at which the next timer interrupt is due: one
/// interval of `1 / TICKS_PER_SEC` seconds after the reading `now`.
pub fn set_next_trigger(now: usize) -> (r: usize)
    requires
        now + CLOCK_FREQ / TICKS_PER_SEC <= usize::MAX,
    ensures
        r == now + CLOCK_FREQ / TICKS_PER_SEC,
        r - now == CLOCK_FREQ / TICKS_PER_SEC,
{
    now + CLOCK_FREQ / TICKS_PER_SEC
}

} // verus!
