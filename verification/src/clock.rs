//! Milliseconds, as the rest of the library counts them.
use vstd::prelude::*;

verus! {

/// A number of milliseconds, or the largest that can be represented.
pub open spec fn clamped_millis(millis: u128) -> i64 {
    if millis > i64::MAX {
        i64::MAX
    } else {
        millis as i64
    }
}

/// The time on a clock that is `Ok(millis)` after or `Err(millis)` before the
/// epoch.
pub open spec fn clock_millis(clock: Result<u128, u128>) -> i64 {
    match clock {
        Ok(millis) => clamped_millis(millis),
        Err(millis) => (-clamped_millis(millis)) as i64,
    }
}

/// The milliseconds of a duration, clamped to what can be represented.
pub fn duration_millis(millis: u128) -> (result: i64)
    ensures
        result == clamped_millis(millis),
{
    if millis > i64::MAX as u128 {
        i64::MAX
    } else {
        millis as i64
    }
}

/// The time on a clock, negative before the epoch.
pub fn current_time_ms(clock: Result<u128, u128>) -> (result: i64)
    ensures
        result == clock_millis(clock),
{
    match clock {
        Ok(millis) => duration_millis(millis),
        Err(millis) => -duration_millis(millis),
    }
}

/// The time on a clock that has run for some milliseconds since the epoch.
pub fn now_ms(elapsed_millis: u128) -> (result: i64)
    ensures
        result == clamped_millis(elapsed_millis),
{
    duration_millis(elapsed_millis)
}

/// Time does not run backwards: a later clock gives no earlier time.
pub proof fn clock_is_monotonic(earlier: u128, later: u128)
    requires
        earlier <= later,
    ensures
        clock_millis(Ok(earlier)) <= clock_millis(Ok(later)),
        clock_millis(Err(later)) <= clock_millis(Err(earlier)),
        clock_millis(Err(earlier)) <= clock_millis(Ok(later)),
{
}

} // verus!
