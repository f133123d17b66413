//! Random numbers and shuffles, from the `rand` crate.
//!
//! The generators are opaque here. The functions marked `external_body`
//! make the calls into `rand`; their contracts state, without proof, what
//! holds of every outcome.

use crate::seq_facts::{all_below, identity_indices, lemma_identity_indices};
use rand::{Rng, SeedableRng};
use rand::rngs::{StdRng, ThreadRng};
use rand::seq::SliceRandom;
use vstd::prelude::*;

verus! {

/// `rand::rngs::ThreadRng`, the generator that each thread seeds from the
/// system.
#[verifier::external_type_specification]
#[verifier::external_body]
pub struct ExThreadRng(rand::rngs::ThreadRng);

/// `rand::rngs::StdRng`, the generator that a seed determines.
#[verifier::external_type_specification]
#[verifier::external_body]
pub struct ExStdRng(rand::rngs::StdRng);

/// `rand::thread_rng`: a handle to the thread's generator.
#[verifier::external_body]
pub(crate) fn thread_rng() -> (rng: ThreadRng) {
    rand::thread_rng()
}

/// `rand::Rng::gen_range` on the half-open range `low..high`: some value of
/// the range. The call panics when the range is empty.
#[verifier::external_body]
pub(crate) fn gen_range(rng: &mut ThreadRng, low: usize, high: usize) -> (value: usize)
    requires
        low < high,
    ensures
        low <= value < high,
{
    rng.gen_range(low..high)
}

/// `rand::SeedableRng::seed_from_u64` for `StdRng`: the generator of that
/// seed.
#[verifier::external_body]
pub(crate) fn std_rng_from_seed(seed: u64) -> (rng: StdRng) {
    StdRng::seed_from_u64(seed)
}

/// `rand::seq::SliceRandom::shuffle`: the elements are swapped among
/// themselves, so the vector holds afterwards what it held before, each
/// value as often as before.
#[verifier::external_body]
pub(crate) fn shuffle(values: &mut Vec<usize>, rng: &mut StdRng)
    ensures
        final(values)@.to_multiset() == old(values)@.to_multiset(),
{
    values.shuffle(rng);
}

/// A rearrangement of `0, .., n - 1`: every index below `n` exactly once.
pub open spec fn is_rearrangement(order: Seq<usize>, n: nat) -> bool {
    &&& order.len() == n
    &&& order.no_duplicates()
    &&& all_below(order, n)
    &&& forall|x: usize| x < n ==> order.contains(x)
}

/// A list that holds what `0, .., n - 1` holds is a rearrangement of it.
pub proof fn lemma_shuffled_indices(order: Seq<usize>, n: nat)
    requires
        n <= usize::MAX,
        order.to_multiset() == identity_indices(n).to_multiset(),
    ensures
        is_rearrangement(order, n),
{
    broadcast use {vstd::seq_lib::to_multiset_len, vstd::seq_lib::to_multiset_contains};

    let ids = identity_indices(n);
    lemma_identity_indices(n);
    ids.lemma_multiset_has_no_duplicates();
    order.lemma_multiset_has_no_duplicates_conv();
    assert(order.len() == order.to_multiset().len());
    assert(ids.len() == ids.to_multiset().len());
    assert forall|x: usize| order.contains(x) <==> x < n by {
        assert(order.contains(x) <==> order.to_multiset().count(x) > 0);
        assert(ids.contains(x) <==> ids.to_multiset().count(x) > 0);
    }
    assert forall|k: int| 0 <= k < order.len() implies (#[trigger] order[k]) < n by {
        assert(order.contains(order[k]));
    }
}

} // verus!
