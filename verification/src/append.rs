//! # Admission of appends to a fixed-capacity buffer
//!
//! A fixed-capacity append-only buffer publishes its length once the new
//! values are written. Whether an append of `count` values may go ahead is
//! decided from the published length, the capacity and whether the buffer
//! is sealed; the writes and the publication belong to the buffer.

use vstd::prelude::*;

verus! {

/// The published length after appending `count` values, or `None` when
/// the append is refused: the buffer is sealed, or the values do not all
/// fit. An empty append to an open buffer is accepted and changes nothing.
pub fn plan_append(len: usize, capacity: usize, sealed: bool, count: usize) -> (r: Option<usize>)
    requires
        len <= capacity,
    ensures
        r == if sealed || len + count > capacity {
            None::<usize>
        } else {
            Some((len + count) as usize)
        },
{
    if sealed || count > capacity - len {
        None
    } else {
        Some(len + count)
    }
}

/// `true` when no more values fit.
pub fn is_full(len: usize, capacity: usize) -> (b: bool)
    ensures
        b == (len == capacity),
{
    len == capacity
}

} // verus!
