//! Access to the monotonic clock, which drives election timeouts.
use vstd::prelude::*;
use std::time::{Duration, Instant};

verus! {

#[verifier::external_type_specification]
#[verifier::external_body]
pub struct ExInstant(Instant);

/// Reads the clock with `std::time::Instant::now`. Nothing is stated of the
/// reading: it depends on when the call happens.
#[verifier::external_body]
pub(crate) fn instant_now() -> Instant {
    Instant::now()
}

/// What `std::time::Instant::checked_add` gives for `start` and `d`: the
/// instant `d` after `start`, or `None` where the platform cannot represent
/// it. It depends on the two arguments alone.
pub uninterp spec fn instant_plus(start: Instant, d: Duration) -> Option<Instant>;

/// The instant `d` after `start`, by `std::time::Instant::checked_add`. The
/// contract claims only that the answer is `instant_plus(start, d)`: which
/// instants are representable is the platform's, and is left unsaid.
#[verifier::external_body]
pub(crate) fn instant_after(start: Instant, d: Duration) -> (r: Option<Instant>)
    ensures
        r == instant_plus(start, d),
{
    start.checked_add(d)
}

/// The deadline `timeout` after the reading `now`; the reading itself where
/// that instant cannot be represented.
pub open spec fn deadline_after(now: Instant, timeout: Duration) -> Instant {
    match instant_plus(now, timeout) {
        Some(d) => d,
        None => now,
    }
}

/// What `Instant`'s `>=` answers for `now` and `deadline`: whether `now` is
/// at or past `deadline`. It depends on the two instants alone.
pub uninterp spec fn instant_at_or_after(now: Instant, deadline: Instant) -> bool;

/// Whether `now` is at or past `deadline`, by `Instant`'s `>=`. The contract
/// claims only that the answer is `instant_at_or_after(*now, *deadline)`.
#[verifier::external_body]
pub(crate) fn instant_reached(now: &Instant, deadline: &Instant) -> (r: bool)
    ensures
        r == instant_at_or_after(*now, *deadline),
{
    *now >= *deadline
}

} // verus!
