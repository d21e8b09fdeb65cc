//! The calls into std and into rand that the verified code relies on, each
//! with the contract that the callee's documentation gives.
use crate::binary::{all_below, non_decreasing};
use vstd::prelude::*;

verus! {

/// Relies on `slice::sort_unstable`: the same elements, in ascending order.
#[verifier::external_body]
pub(crate) fn sort_indices(v: Vec<usize>) -> (r: Vec<usize>)
    ensures
        non_decreasing(r@),
        r@.to_multiset() == v@.to_multiset(),
{
    let mut v = v;
    v.sort_unstable();
    v
}

/// Relies on `rand::seq::index::sample`, drawn from the thread-local
/// generator `rand::rng`: exactly `amount` distinct indices from
/// `0..length`. It panics when `amount > length`.
#[verifier::external_body]
pub(crate) fn sample_indices(length: usize, amount: usize) -> (r: Vec<usize>)
    requires
        amount <= length,
    ensures
        r@.len() == amount,
        all_below(r@, length as nat),
        r@.no_duplicates(),
{
    rand::seq::index::sample(&mut rand::rng(), length, amount).into_vec()
}

/// Relies on `rand::random::<bool>`: a fair coin from the thread-local
/// generator. Nothing is known of the outcome.
#[verifier::external_body]
pub(crate) fn coin_flip() -> (r: bool) {
    rand::random::<bool>()
}

} // verus!
