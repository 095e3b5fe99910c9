use rand::Rng;
use vstd::prelude::*;

verus! {

/// Draws a number from `low..high` with `rand::thread_rng().gen_range(low..high)`.
///
/// `gen_range` panics on an empty range, so the range must hold at least one number. The
/// value comes from the thread's random generator: all that is stated of it is that it lies
/// in the range.
#[verifier::external_body]
pub(crate) fn random_in_range(low: usize, high: usize) -> (r: usize)
    requires
        low < high,
    ensures
        low <= r < high,
{
    rand::thread_rng().gen_range(low..high)
}

} // verus!
