//! The wall clock of the search, read in whole milliseconds.

use std::time::Duration;
use std::time::Instant;
use vstd::prelude::*;

verus! {

/// `std::time::Instant`, a moment of the machine's clock. Nothing is known of
/// what such a value holds.
#[verifier::external_type_specification]
#[verifier::external_body]
pub struct ExInstant(Instant);

/// `Instant::now`: the present moment.
#[verifier::external_body]
pub(crate) fn now() -> Instant {
    Instant::now()
}

/// `Instant::elapsed`: the time that has passed since `start`.
#[verifier::external_body]
pub(crate) fn elapsed(start: &Instant) -> Duration {
    start.elapsed()
}

/// `Duration::as_millis`: the whole milliseconds of a span of time.
#[verifier::external_body]
pub(crate) fn whole_millis(span: &Duration) -> u128 {
    span.as_millis()
}

/// Whether `elapsed_millis` have used up a limit of `limit_millis`. A limit
/// of zero is no limit.
pub fn deadline_reached(limit_millis: u64, elapsed_millis: u128) -> (b: bool)
    ensures
        b == (limit_millis > 0 && elapsed_millis >= limit_millis),
{
    limit_millis > 0 && elapsed_millis >= limit_millis as u128
}

/// Whether the time since `start` has used up a limit of `limit_millis`.
/// Without a limit the answer is always no.
pub fn out_of_time(start: &Instant, limit_millis: u64) -> (b: bool)
    ensures
        limit_millis == 0 ==> !b,
{
    let span = elapsed(start);
    deadline_reached(limit_millis, whole_millis(&span))
}

} // verus!
