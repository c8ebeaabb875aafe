//! Shared ownership of immutable values.

use vstd::prelude::*;

use std::sync::Arc;

verus! {

/// Returns another handle on the same value with `Arc::clone`, which makes a
/// pointer to the same allocation.
#[verifier::external_body]
pub(crate) fn share<T>(value: &Arc<T>) -> (r: Arc<T>)
    ensures
        r == *value,
{
    value.clone()
}

} // verus!
