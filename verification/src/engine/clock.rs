//! Monotonic time, read as nanoseconds since a clock was started.

use std::time::Instant;
use vstd::prelude::*;

verus! {

/// `std::time::Instant`, carried as an opaque value.
#[verifier::external_type_specification]
#[verifier::external_body]
pub struct ExInstant(std::time::Instant);

/// `std::time::Instant::now`: the present moment. Nothing is claimed of it.
pub assume_specification[ std::time::Instant::now ]() -> (now: std::time::Instant)
;

/// `std::time::Instant::elapsed`, as a whole number of nanoseconds. The result
/// depends on when the call is made, so nothing is claimed of it.
#[verifier::external_body]
fn nanos_since(origin: &Instant) -> (nanos: u128) {
    origin.elapsed().as_nanos()
}

/// A clock that counts nanoseconds from the moment it was started.
#[derive(Debug)]
pub struct Clock {
    origin: Instant,
}

impl Clock {
    /// A clock that is started now. Its origin is the moment of the call, of which
    /// nothing can be said beforehand.
    pub(crate) fn start() -> (clock: Self) {
        Clock { origin: Instant::now() }
    }

    /// The nanoseconds since the clock was started. The number depends on when the
    /// call is made and two readings may differ, so callers are written to hold for
    /// every reading.
    pub(crate) fn now(&self) -> (nanos: u128) {
        nanos_since(&self.origin)
    }
}

} // verus!
