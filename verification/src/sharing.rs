//! Sharing of transitions between the log, the messages and the effects.

use std::sync::Arc;
use vstd::prelude::*;

verus! {

/// A second pointer to the value behind `shared`, by `Arc::clone`, which hands
/// out another pointer to the same allocation.
#[verifier::external_body]
pub(crate) fn share<T>(shared: &Arc<T>) -> (other: Arc<T>)
    ensures
        other == *shared,
{
    Arc::clone(shared)
}

} // verus!
