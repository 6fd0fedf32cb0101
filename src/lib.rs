//! Append-only container of opaque byte payloads, written by many threads and
//! addressed through a two-tier index.
use vstd::prelude::*;

pub mod io;

verus! {

/// A batch of records handed to the container as one payload.
pub struct BatchGasData<T>(pub Vec<T>);

/// Sum of two counters.
pub fn add(left: u64, right: u64) -> (r: u64)
    requires
        left + right <= u64::MAX,
    ensures
        r == left + right,
{
    left + right
}

} // verus!
