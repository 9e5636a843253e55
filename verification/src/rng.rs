use vstd::prelude::*;
use rand::Rng;

verus! {

/// Calls `rand::thread_rng().gen_range(low, high)`: a number drawn
/// uniformly from `low` (included) to `high` (excluded). Only the range
/// holds of every outcome; `gen_range` panics when the range is empty,
/// which `requires` leaves out.
#[verifier::external_body]
pub fn random_range(low: u64, high: u64) -> (r: u64)
    requires
        low < high,
    ensures
        low <= r < high,
{
    rand::thread_rng().gen_range(low, high)
}

} // verus!
