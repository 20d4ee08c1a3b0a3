//! The seedable random source used for sampling, shuffling and swap trials.

use vstd::prelude::*;
use rand::rngs::StdRng;
use rand::seq::SliceRandom;
use rand::Rng;

verus! {

/// rand's standard seedable generator; callers seed it to make runs
/// reproducible.
#[verifier::external_type_specification]
#[verifier::external_body]
pub struct ExStdRng(StdRng);

/// Relies on rand's `Rng::gen_range` over `0..n`: a value below `n`
/// (it panics on an empty range, which `requires` rules out).
#[verifier::external_body]
pub(crate) fn random_index(rng: &mut StdRng, n: usize) -> (r: usize)
    requires
        n > 0,
    ensures
        r < n,
{
    rng.gen_range(0..n)
}

/// Relies on rand's `SliceRandom::shuffle`: the elements are permuted in place.
#[verifier::external_body]
pub(crate) fn shuffle_indices(rng: &mut StdRng, v: &mut Vec<usize>)
    ensures
        final(v)@.to_multiset() == old(v)@.to_multiset(),
{
    v.shuffle(rng)
}

/// The indices `0, 1, ..., n - 1` in order.
pub fn index_range(n: usize) -> (v: Vec<usize>)
    ensures
        v@.len() == n,
        forall|k: int| 0 <= k < n ==> #[trigger] v@[k] == k,
{
    let mut v: Vec<usize> = Vec::new();
    let mut k: usize = 0;
    while k < n
        invariant
            k <= n,
            v@.len() == k,
            forall|j: int| 0 <= j < k ==> #[trigger] v@[j] == j,
        decreases n - k,
    {
        v.push(k);
        k += 1;
    }
    v
}

/// A permutation of `0..n` in random order: no index repeats and each is below `n`.
pub fn shuffled_range(rng: &mut StdRng, n: usize) -> (v: Vec<usize>)
    ensures
        v@.len() == n,
        v@.no_duplicates(),
        forall|k: int| 0 <= k < n ==> #[trigger] v@[k] < n,
{
    let mut v = index_range(n);
    let ghost before = v@;
    proof {
        assert(before.no_duplicates());
        before.lemma_multiset_has_no_duplicates();
    }
    shuffle_indices(rng, &mut v);
    proof {
        broadcast use vstd::seq_lib::group_to_multiset_ensures;

        assert(v@.len() == n) by {
            vstd::seq_lib::to_multiset_len(v@);
            vstd::seq_lib::to_multiset_len(before);
        }
        v@.lemma_multiset_has_no_duplicates_conv();
        assert forall|k: int| 0 <= k < n implies #[trigger] v@[k] < n by {
            vstd::seq_lib::to_multiset_contains(v@, v@[k]);
            vstd::seq_lib::to_multiset_contains(before, v@[k]);
            assert(v@.contains(v@[k]));
        }
    }
    v
}

} // verus!
