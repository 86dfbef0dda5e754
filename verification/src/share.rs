use std::sync::Arc;
use vstd::prelude::*;

verus! {

/// `Arc::clone`: gives another pointer to the allocation that `a` points to, so both
/// point to the same value.
#[verifier::external_body]
pub(crate) fn share<T>(a: &Arc<T>) -> (r: Arc<T>)
    ensures
        r == *a,
{
    Arc::clone(a)
}

} // verus!
