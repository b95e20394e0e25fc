//! Shared ownership of a value through `Arc`.

use std::sync::Arc;

use vstd::prelude::*;

verus! {

/// A second handle to the value behind `a`.
///
/// Calls `Arc::clone`, which hands out another pointer to the same
/// allocation without copying the value; the contract claims only that the
/// new handle reaches the same value.
#[verifier::external_body]
pub(crate) fn share<A>(a: &Arc<A>) -> (out: Arc<A>)
    ensures
        *out == **a,
{
    Arc::clone(a)
}

} // verus!
