//! The monotonic clock that timer marks are read from.
use vstd::prelude::*;

verus! {

/// A reading of std's monotonic clock, carried through as an opaque mark.
#[verifier::external_type_specification]
#[verifier::external_body]
pub struct ExInstant(std::time::Instant);

/// Relies on std's `Instant::now`: reads the monotonic clock. Nothing is
/// promised of the reading.
pub assume_specification[ std::time::Instant::now ]() -> std::time::Instant;

/// Relies on std's `Instant::elapsed`: the time passed since the mark.
/// Nothing is promised of it beyond its type.
pub assume_specification[ std::time::Instant::elapsed ](mark: &std::time::Instant) -> std::time::Duration;

/// Relies on std's `Duration::as_nanos`: the whole nanoseconds of a duration.
/// The duration is opaque here, so nothing more is stated.
pub assume_specification[ core::time::Duration::as_nanos ](d: &core::time::Duration) -> u128;

/// Nanoseconds passed since `mark`, saturated at `u64::MAX`.
pub fn nanos_since(mark: &std::time::Instant) -> u64 {
    let nanos = mark.elapsed().as_nanos();
    if nanos > 0xffff_ffff_ffff_ffffu128 {
        0xffff_ffff_ffff_ffff
    } else {
        nanos as u64
    }
}

} // verus!
