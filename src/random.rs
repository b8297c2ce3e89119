use vstd::prelude::*;

verus! {

/// Relies on `rand::seq::index::sample`, fed by `rand::thread_rng`: exactly
/// `amount` distinct indices of `0..length`, in random order. It panics when
/// `amount > length`.
#[verifier::external_body]
pub(crate) fn distinct_indices(length: usize, amount: usize) -> (r: Vec<usize>)
    requires
        amount <= length,
    ensures
        r@.len() == amount,
        r@.no_duplicates(),
        forall|k: int| 0 <= k < r@.len() ==> r@[k] < length,
{
    rand::seq::index::sample(&mut rand::thread_rng(), length, amount).into_vec()
}

/// Relies on `rand::Rng::gen_range` over `rand::thread_rng`: a value of
/// `0..bound`. It panics on an empty range.
#[verifier::external_body]
pub(crate) fn draw_below(bound: u128) -> (r: u128)
    requires
        bound > 0,
    ensures
        r < bound,
{
    rand::Rng::gen_range(&mut rand::thread_rng(), 0..bound)
}

} // verus!
