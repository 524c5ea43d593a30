//! Spans of time.
use std::time::Duration;
use vstd::prelude::*;

verus! {

/// The span of time that `Duration::from_secs` makes of a number of whole seconds.
pub uninterp spec fn seconds(n: u64) -> Duration;

/// The span of time that `Duration::from_millis` makes of a number of milliseconds.
pub uninterp spec fn milliseconds(n: u64) -> Duration;

/// `std::time::Duration::from_secs`, whose result depends on the number alone.
pub assume_specification[ std::time::Duration::from_secs ](n: u64) -> (r: std::time::Duration)
    ensures
        r == seconds(n),
;

/// `std::time::Duration::from_millis`, whose result depends on the number alone.
pub assume_specification[ std::time::Duration::from_millis ](n: u64) -> (r: std::time::Duration)
    ensures
        r == milliseconds(n),
;

/// The seconds to wait after a failed attempt before which `current` seconds were waited:
/// twice as many, but no more than `max`.
pub open spec fn doubled(current: u64, max: u64) -> u64 {
    if 2 * current <= max {
        (2 * current) as u64
    } else {
        max
    }
}

pub fn next_backoff(current: u64, max: u64) -> (r: u64)
    ensures
        r == doubled(current, max),
{
    if current <= max / 2 {
        2 * current
    } else {
        max
    }
}

/// The seconds waited after `failures` failed attempts in a row.
pub open spec fn backoff_after(failures: nat, max: u64) -> u64
    decreases failures,
{
    if failures == 0 {
        1
    } else {
        doubled(backoff_after((failures - 1) as nat, max), max)
    }
}

/// However many attempts fail, the wait is never longer than the configured one, or than
/// the first.
pub proof fn law_backoff_is_bounded(failures: nat, max: u64)
    ensures
        backoff_after(failures, max) <= max || backoff_after(failures, max) <= 1,
    decreases failures,
{
    if failures > 0 {
        law_backoff_is_bounded((failures - 1) as nat, max);
    }
}

/// The wait never gets shorter while attempts fail.
pub proof fn law_backoff_grows(failures: nat, max: u64)
    requires
        max >= 1,
    ensures
        backoff_after(failures, max) <= backoff_after(failures + 1, max),
{
    law_backoff_is_bounded(failures, max);
}

/// After each further failure the wait is twice as long, until that would be more than the
/// configured one; then it is the configured one. The first wait is a second.
pub proof fn law_the_wait_doubles_up_to_the_configured_one(failures: nat, max: u64)
    ensures
        backoff_after(0, max) == 1,
        backoff_after(failures, max) + backoff_after(failures, max) <= max ==> backoff_after(
            failures + 1,
            max,
        ) == backoff_after(failures, max) + backoff_after(failures, max),
        backoff_after(failures, max) + backoff_after(failures, max) > max ==> backoff_after(
            failures + 1,
            max,
        ) == max,
{
}

} // verus!
