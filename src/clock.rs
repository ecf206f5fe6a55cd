use vstd::prelude::*;

verus! {

#[verifier::external_type_specification]
#[verifier::external_body]
pub struct ExInstant(coarsetime::Instant);

/// Ticks per second of coarsetime's clock.
pub const TICKS_PER_SEC: u64 = 0x1_0000_0000;

/// Ticks coarsetime gives to one millisecond within a second.
pub const TICKS_PER_MILLI: u64 = 0x40_0000;

/// A number of milliseconds in coarsetime's ticks: whole seconds at
/// `TICKS_PER_SEC` each (saturating), and the remaining milliseconds at
/// `TICKS_PER_MILLI` each.
pub open spec fn ticks_of_millis(millis: u64) -> u64 {
    let secs = millis / 1000;
    if secs * TICKS_PER_SEC > u64::MAX {
        u64::MAX
    } else {
        (secs * TICKS_PER_SEC + (millis % 1000) * TICKS_PER_MILLI) as u64
    }
}

/// Relies on coarsetime::Duration::from_millis and Duration::as_ticks.
#[verifier::external_body]
pub(crate) fn duration_ticks_from_millis(millis: u64) -> (r: u64)
    ensures
        r == ticks_of_millis(millis),
{
    coarsetime::Duration::from_millis(millis).as_ticks()
}

/// Relies on coarsetime::Instant::now: the current time.
#[verifier::external_body]
pub(crate) fn now() -> coarsetime::Instant {
    coarsetime::Instant::now()
}

/// Relies on coarsetime::Instant::elapsed and Duration::as_ticks: the ticks
/// since `start`, as the clock reads now.
#[verifier::external_body]
pub(crate) fn elapsed_ticks(start: &coarsetime::Instant) -> u64 {
    start.elapsed().as_ticks()
}

/// A time budget in milliseconds, in coarsetime's ticks.
pub fn millis_to_ticks(millis: u64) -> (r: u64)
    ensures
        r == ticks_of_millis(millis),
        millis == 0 ==> r == 0,
        millis < 1000 ==> r == millis * TICKS_PER_MILLI,
{
    duration_ticks_from_millis(millis)
}

} // verus!
