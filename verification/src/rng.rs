use rand::rngs::StdRng;
use rand::seq::SliceRandom;
use rand::Rng;
use rand::SeedableRng;
use vstd::prelude::*;

verus! {

/// `rand::rngs::StdRng`: the explicit, seedable random generator that each
/// relaxed queue owns. The type is opaque here; every draw goes through one
/// of the wrappers below.
#[verifier::external_type_specification]
#[verifier::external_body]
pub struct ExStdRng(StdRng);

/// Relies on rand's `SeedableRng::seed_from_u64` for `StdRng`: it builds a
/// generator from the given seed and always succeeds. Nothing is claimed
/// about the values the generator will produce.
#[verifier::external_body]
pub(crate) fn rng_from_seed(seed: u64) -> StdRng {
    StdRng::seed_from_u64(seed)
}

/// Relies on rand's `Rng::gen_range` over `0..n`: it panics only on an empty
/// range, and otherwise returns a value drawn from that range. Which value
/// comes back is not stated; only the bound is.
#[verifier::external_body]
pub(crate) fn gen_below(rng: &mut StdRng, n: usize) -> (r: usize)
    requires
        n > 0,
    ensures
        r < n,
{
    rng.gen_range(0..n)
}

/// Relies on rand's `SliceRandom::choose_multiple`: it draws
/// `min(amount, len)` pairwise distinct indices of the slice (through
/// `rand::seq::index::sample`) and yields the elements found there. On a
/// slice of pairwise distinct values the returned values are therefore
/// pairwise distinct as well. Which elements are chosen is not stated.
#[verifier::external_body]
pub(crate) fn choose_distinct(rng: &mut StdRng, pool: &Vec<usize>, amount: usize) -> (r: Vec<
    usize,
>)
    requires
        amount <= pool@.len(),
        forall|i: int, j: int| 0 <= i < j < pool@.len() ==> pool@[i] != pool@[j],
    ensures
        r@.len() == amount,
        forall|k: int| 0 <= k < r@.len() ==> pool@.contains(#[trigger] r@[k]),
        forall|i: int, j: int| 0 <= i < j < r@.len() ==> r@[i] != r@[j],
{
    pool.choose_multiple(rng, amount).cloned().collect()
}

} // verus!
