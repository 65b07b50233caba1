//! Spans of time.

use vstd::prelude::*;

verus! {

/// How long a `std::time::Duration` is, in nanoseconds.
pub uninterp spec fn nanoseconds(duration: std::time::Duration) -> nat;

/// `Duration::from_secs` is that many whole seconds.
pub assume_specification[ std::time::Duration::from_secs ](secs: u64) -> (d: std::time::Duration)
    ensures
        nanoseconds(d) == secs * 1_000_000_000,
;

/// `Duration::as_millis` is the number of whole milliseconds.
pub assume_specification[ std::time::Duration::as_millis ](d: &std::time::Duration) -> (ms: u128)
    ensures
        ms == nanoseconds(*d) / 1_000_000,
;

} // verus!
