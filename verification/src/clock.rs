//! Readings of the monotonic clock.

use vstd::prelude::*;
use std::time::Instant;

verus! {

/// A reading of the monotonic clock (`std::time::Instant`), carried through
/// unread.
#[verifier::external_type_specification]
#[verifier::external_body]
pub struct ExInstant(Instant);

/// Cloning an `Instant` (a `Copy` type) gives the same reading.
pub assume_specification[ <Instant as Clone>::clone ](i: &Instant) -> (r: Instant)
    ensures
        r == *i,
;

/// The current reading of the monotonic clock (`Instant::now`). Nothing is
/// promised of it: it is the clock's.
#[verifier::external_body]
pub(crate) fn instant_now() -> Instant {
    Instant::now()
}

} // verus!
