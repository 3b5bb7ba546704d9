//! The one place where the library reads the machine's clock.
use std::time::{Duration, Instant};
use vstd::prelude::*;

verus! {

/// A reading of the monotonic clock of `std`, carried through the library as
/// an opaque value.
#[verifier::external_type_specification]
#[verifier::external_body]
pub struct ExInstant(Instant);

/// The span of time from one reading of the clock to a later one.
pub uninterp spec fn span_between(from: Instant, to: Instant) -> Duration;

/// The whole nanoseconds of a span of time.
pub uninterp spec fn nanos_of(span: Duration) -> u128;

/// The nanoseconds from one reading of the clock to a later one, which wrap around at 64 bits.
pub open spec fn nanos_between(from: Instant, to: Instant) -> u64 {
    nanos_of(span_between(from, to)) as u64
}

/// Reads the clock with `std::time::Instant::now`. Nothing is claimed of the
/// reading: it depends on when the call is made.
#[verifier::external_body]
pub(crate) fn now() -> Instant {
    Instant::now()
}

/// Calls `std::time::Instant::saturating_duration_since`: the two readings determine the span
/// of time between them. Which of two readings is the later one is not stated.
pub assume_specification[ Instant::saturating_duration_since ](
    to: &Instant,
    from: Instant,
) -> (span: Duration)
    ensures
        span == span_between(from, *to),
;

/// Calls `std::time::Duration::as_nanos`: the span determines the number.
pub assume_specification[ Duration::as_nanos ](span: &Duration) -> (ns: u128)
    ensures
        ns == nanos_of(*span),
;

/// The nanoseconds from one reading of the clock to another.
pub fn nanos_since(from: Instant, to: Instant) -> (ns: u64)
    ensures
        ns == nanos_between(from, to),
{
    to.saturating_duration_since(from).as_nanos() as u64
}

/// The time between two readings is the span between them in nanoseconds, where that fits 64
/// bits.
pub proof fn law_nanoseconds_are_the_span(from: Instant, to: Instant)
    requires
        nanos_of(span_between(from, to)) <= u64::MAX,
    ensures
        nanos_between(from, to) == nanos_of(span_between(from, to)),
{
}

} // verus!
