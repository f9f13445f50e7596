use vstd::prelude::*;
use crate::database::weight_sum;

verus! {

/// Relies on `rand::Rng::gen_range` over `0..n` with the thread-local generator: a value
/// below `n`. It panics on an empty range, which `requires` leaves out.
#[verifier::external_body]
pub(crate) fn random_below(n: u64) -> (r: u64)
    requires
        n > 0,
    ensures
        r < n,
{
    rand::Rng::gen_range(&mut rand::thread_rng(), 0..n)
}

/// Relies on `rand::seq::SliceRandom::choose_weighted` with the thread-local generator:
/// an item is picked with probability proportional to its weight, so never one of weight
/// zero; it fails when the slice is empty or every weight is zero. The weights are summed
/// in `u64`, which `requires` keeps from overflowing.
#[verifier::external_body]
pub(crate) fn choose_weighted(candidates: &Vec<(u64, u64)>) -> (r: Option<(u64, u64)>)
    requires
        weight_sum(candidates@) <= u64::MAX,
    ensures
        r is None <==> (forall|j: int| 0 <= j < candidates@.len() ==> candidates@[j].1 == 0),
        r matches Some(c) ==> candidates@.contains(c) && c.1 > 0,
{
    rand::seq::SliceRandom::choose_weighted(candidates.as_slice(), &mut rand::thread_rng(), |c| c.1)
        .ok()
        .copied()
}

} // verus!
