use std::time::{Duration, Instant};
use vstd::prelude::*;

verus! {

/// `std::time::Instant`, a reading of the monotonic clock, carried through
/// as an opaque value.
#[verifier::external_type_specification]
#[verifier::external_body]
pub struct ExInstant(Instant);

/// Calls `Instant::now`. Nothing is claimed of the reading: it depends on
/// the time at which the call is made.
#[verifier::external_body]
pub(crate) fn instant_now() -> Instant {
    Instant::now()
}

/// Calls `Instant::elapsed` on `start`. Nothing is claimed of the span: it
/// depends on the time at which the call is made.
#[verifier::external_body]
pub(crate) fn elapsed_since(start: &Instant) -> Duration {
    start.elapsed()
}

/// Calls `Duration::as_nanos`. `Duration` is opaque here, so nothing is
/// claimed of the count beyond its type.
#[verifier::external_body]
pub(crate) fn whole_nanos(span: &Duration) -> u128 {
    span.as_nanos()
}

/// A nanosecond count narrowed to `u64`, held at `u64::MAX` where it does
/// not fit (after some 584 years).
pub fn nanos_as_u64(ns: u128) -> (r: u64)
    ensures
        r == (if ns > u64::MAX { u64::MAX as u128 } else { ns }),
{
    if ns > 0xffff_ffff_ffff_ffffu128 {
        0xffff_ffff_ffff_ffffu64
    } else {
        ns as u64
    }
}

/// Nanoseconds since `start`, as `nanos_as_u64` narrows them. How many have
/// passed rests on the clock, which no clause can fix.
pub fn nanos_since(start: &Instant) -> u64 {
    let span = elapsed_since(start);
    nanos_as_u64(whole_nanos(&span))
}

} // verus!
