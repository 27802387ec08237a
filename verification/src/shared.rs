//! Values that several holders share.

use std::sync::Arc;
use vstd::prelude::*;

verus! {

/// `std::sync::Arc::clone`: another handle on the same value.
#[verifier::external_body]
pub(crate) fn share<T>(value: &Arc<T>) -> (other: Arc<T>)
    ensures
        other == *value,
{
    Arc::clone(value)
}

/// `std::sync::Arc::ptr_eq`: whether two handles are on one value. Where they are, what they hand
/// out is the same; of two values nothing is claimed, which may be alike.
#[verifier::external_body]
pub(crate) fn same_value<T>(one: &Arc<T>, other: &Arc<T>) -> (yes: bool)
    ensures
        yes ==> *one == *other,
{
    Arc::ptr_eq(one, other)
}

/// `std::sync::Arc::strong_count`: how many handles on the value there are at the moment it is asked.
/// Other threads take and drop handles meanwhile, so nothing is claimed of the answer.
#[verifier::external_body]
pub(crate) fn handles<T>(value: &Arc<T>) -> (count: usize) {
    Arc::strong_count(value)
}

} // verus!
