//! Shared references to values that several messages carry.
use vstd::prelude::*;
use std::sync::Arc;

verus! {

/// `Arc::clone`: another pointer to the same value.
#[verifier::external_body]
pub(crate) fn share<T>(a: &Arc<T>) -> (r: Arc<T>)
    ensures
        r == *a,
{
    Arc::clone(a)
}

} // verus!
