//! What the locks read of a [`Duration`]: its length in nanoseconds.

use std::time::Duration;
use vstd::prelude::*;

verus! {

/// Nanoseconds in a millisecond.
pub const NANOS_PER_MILLI: u128 = 1_000_000;

/// Nanoseconds in a second.
pub const NANOS_PER_SEC: u128 = 1_000_000_000;

/// The length of the longest duration, which stands for "no deadline".
pub const FOREVER_NANOS: u128 = 18_446_744_073_709_551_615_999_999_999;

/// The length of a duration in nanoseconds, as `Duration::as_nanos` gives it.
pub uninterp spec fn nanos_of(span: Duration) -> u128;

/// `Duration::as_nanos` gives the whole length of the duration, named
/// [`nanos_of`].
pub assume_specification[ Duration::as_nanos ](span: &Duration) -> (nanos: u128)
    ensures
        nanos == nanos_of(*span),
;

/// `Duration::new` makes a duration of that many seconds and nanoseconds. The
/// nanoseconds stay below one second here, so nothing carries over.
pub assume_specification[ Duration::new ](secs: u64, nanos: u32) -> (span: Duration)
    requires
        nanos < NANOS_PER_SEC,
    ensures
        nanos_of(span) == secs * NANOS_PER_SEC + nanos,
;

/// The duration that means "wait without a deadline".
pub fn forever() -> (span: Duration)
    ensures
        nanos_of(span) == FOREVER_NANOS,
        nanos_of(span) == u64::MAX * 1_000_000_000 + 999_999_999,
{
    Duration::new(u64::MAX, 999_999_999)
}

} // verus!
