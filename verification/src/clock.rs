//! The clock.

use vstd::prelude::*;

verus! {

/// Calls `embassy_time::Instant::now`, the time since startup, in clock ticks.
/// Nothing is claimed of what the clock shows.
#[verifier::external_body]
pub(crate) fn now_ticks() -> (ticks: u64) {
    embassy_time::Instant::now().as_ticks()
}

/// Whether `ticks` is a reading of the clock: one that [`now_ticks`] gave.
pub closed spec fn clock_showed(ticks: u64) -> bool {
    call_ensures(now_ticks, (), ticks)
}

/// A reading of the clock is what [`now_ticks`] gave, and nothing else is.
proof fn law_readings_come_from_the_clock(ticks: u64)
    ensures
        clock_showed(ticks) <==> call_ensures(now_ticks, (), ticks),
{
}

/// Calls `source` once, and hands on what it gave.
fn ask<C: Fn() -> u64>(source: C) -> (ticks: u64)
    requires
        call_requires(source, ()),
    ensures
        call_ensures(source, (), ticks),
{
    source()
}

/// Reads the clock.
pub fn read_clock() -> (ticks: u64)
    ensures
        clock_showed(ticks),
{
    ask(now_ticks)
}

} // verus!
