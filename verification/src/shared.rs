//! Sharing of values between the caches and their readers.

use std::sync::Arc;
use vstd::prelude::*;

verus! {

/// Calls `Arc::clone`. Trusted: the new pointer points to the same value as
/// the one it was cloned from.
#[verifier::external_body]
pub(crate) fn share<T>(value: &Arc<T>) -> (shared: Arc<T>)
    ensures
        shared == *value,
{
    Arc::clone(value)
}

} // verus!
