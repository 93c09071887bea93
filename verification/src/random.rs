//! Random timeouts.

use madsim::rand::Rng;
use vstd::prelude::*;

verus! {

/// Draws a number between `low` and `high`, both included, by
/// `rand::Rng::gen_range` on the generator of `rand::thread_rng`. Which number
/// it is rests on chance; that it lies in the range is what the call promises,
/// for a range that is not empty.
#[verifier::external_body]
pub(crate) fn random_between(low: u128, high: u128) -> (drawn: u128)
    requires
        low <= high,
    ensures
        low <= drawn <= high,
{
    rand::thread_rng().gen_range(low..=high)
}

} // verus!
