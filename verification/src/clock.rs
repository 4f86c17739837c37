//! How long something takes.

use std::time::Instant;

use vstd::prelude::*;

use crate::scalar::Scalar;

verus! {

/// `std::time::Instant`, a reading of a clock that never goes back. Nothing is claimed
/// of one.
#[verifier::external_type_specification]
#[verifier::external_body]
pub struct ExInstant(Instant);

/// `Instant::now` reads the clock. What it shows is left open.
#[verifier::external_body]
pub(crate) fn now() -> Instant {
    Instant::now()
}

/// `Instant::elapsed` in nanoseconds, up to what a `u64` holds. How many they are is left
/// open.
#[verifier::external_body]
fn elapsed_ns(since: &Instant) -> u64 {
    since.elapsed().as_nanos() as u64
}

/// So many nanoseconds in seconds.
pub open spec fn seconds_of<S: Scalar>(ns: u64) -> S {
    S::whole_spec(ns as nat).over_spec(S::whole_spec(1_000_000_000))
}

/// `s` is some number of nanoseconds in seconds.
pub open spec fn is_elapsed<S: Scalar>(s: S) -> bool {
    exists|ns: u64| s == #[trigger] seconds_of::<S>(ns)
}

/// So many nanoseconds in seconds.
pub fn to_seconds<S: Scalar>(ns: u64) -> (r: S)
    ensures
        r == seconds_of::<S>(ns),
{
    S::whole(ns).over(S::whole(1_000_000_000))
}

/// The seconds since the clock was read. How many they are depends on the clock.
pub(crate) fn seconds_since<S: Scalar>(since: &Instant) -> (r: S)
    ensures
        is_elapsed(r),
{
    to_seconds(elapsed_ns(since))
}

} // verus!
