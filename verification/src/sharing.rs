//! Shared ownership of lock-guarded state: cloned facade handles all point at
//! one underlying instance, which lives until the last handle is dropped.

use std::sync::Arc;
use vstd::prelude::*;

verus! {

/// Relies on std's `Arc::clone`: the clone shares the same allocation as the
/// original, so both hold the same value.
#[verifier::external_body]
pub fn arc_clone<T>(v: &Arc<T>) -> (r: Arc<T>)
    ensures
        r == *v,
{
    Arc::clone(v)
}

} // verus!
