//! Random orders of sample indices: shuffling, and bootstrap samples drawn
//! without replacement.

use rand::seq::SliceRandom;
use vstd::prelude::*;

verus! {

broadcast use vstd::seq_lib::group_to_multiset_ensures;

/// The random number generator of the current thread.
#[verifier::external_type_specification]
#[verifier::external_body]
pub struct ExThreadRng(rand::rngs::ThreadRng);

/// `SliceRandom::choose_multiple` of rand on `pool`, the chosen items
/// collected in the order rand yields them. rand draws `min(amount, len)`
/// distinct positions of the slice (`seq::index::sample`) and yields the
/// items there. Stated here: how many items come out, that each comes from
/// the pool, and that choosing at least as many as the pool holds yields
/// the pool's items reordered. Which items and which order rand picks is
/// left unsaid: it rests on chance.
#[verifier::external_body]
fn choose_multiple_indices(pool: &Vec<usize>, amount: usize, rng: &mut rand::rngs::ThreadRng) -> (r: Vec<usize>)
    ensures
        r@.len() == if amount < pool@.len() {
            amount as int
        } else {
            pool@.len() as int
        },
        forall|i: int| 0 <= i < r@.len() ==> pool@.contains(#[trigger] r@[i]),
        amount >= pool@.len() ==> r@.to_multiset() == pool@.to_multiset(),
{
    pool.choose_multiple(rng, amount).cloned().collect()
}

/// `SliceRandom::shuffle` of rand on `v`: rand reorders the slice in place
/// by swaps (a Fisher-Yates shuffle). Stated here: the items stay the same,
/// only their order changes. The order rests on chance and is left unsaid.
#[verifier::external_body]
fn shuffle_indices(v: &mut Vec<usize>, rng: &mut rand::rngs::ThreadRng)
    ensures
        final(v)@.to_multiset() == old(v)@.to_multiset(),
{
    v.shuffle(rng);
}

/// The indices `0, 1, ..., n - 1`.
pub open spec fn index_range(n: nat) -> Seq<usize> {
    Seq::new(n, |i: int| i as usize)
}

/// `r` holds each of the indices `0..n` exactly once.
pub open spec fn is_index_permutation(r: Seq<usize>, n: nat) -> bool {
    r.to_multiset() == index_range(n).to_multiset()
}

/// The indices `0..n` in increasing order.
pub fn indices_upto(n: usize) -> (r: Vec<usize>)
    ensures
        r@ == index_range(n as nat),
{
    let mut r: Vec<usize> = Vec::new();
    let mut i: usize = 0;
    while i < n
        invariant
            i <= n,
            r@ == index_range(i as nat),
        decreases n - i,
    {
        r.push(i);
        i = i + 1;
        assert(r@ =~= index_range(i as nat));
    }
    r
}

/// A permutation of `0..n` holds every index below `n` and nothing else.
pub proof fn lemma_permutation_members(r: Seq<usize>, n: nat)
    requires
        is_index_permutation(r, n),
    ensures
        r.len() == n,
        forall|k: usize| k < n ==> #[trigger] r.contains(k),
        forall|i: int| 0 <= i < r.len() ==> #[trigger] r[i] < n,
{
    let range = index_range(n);
    assert(r.to_multiset().len() == range.to_multiset().len());
    assert forall|k: usize| k < n implies #[trigger] r.contains(k) by {
        assert(range[k as int] == k);
        assert(range.contains(k));
        assert(range.to_multiset().count(k) > 0);
    }
    assert forall|i: int| 0 <= i < r.len() implies #[trigger] r[i] < n by {
        assert(r.contains(r[i]));
        assert(r.to_multiset().count(r[i]) > 0);
        assert(range.contains(r[i]));
    }
}

/// The sample indices `0..n` in a random order: what shuffling the samples
/// themselves would do to their positions.
pub fn shuffled_order(n: usize, rng: &mut rand::rngs::ThreadRng) -> (r: Vec<usize>)
    ensures
        is_index_permutation(r@, n as nat),
        r@.len() == n,
        forall|k: usize| k < n ==> #[trigger] r@.contains(k),
        forall|i: int| 0 <= i < r@.len() ==> #[trigger] r@[i] < n,
{
    let mut order = indices_upto(n);
    shuffle_indices(&mut order, rng);
    proof {
        lemma_permutation_members(order@, n as nat);
    }
    order
}

/// A bootstrap sample of `n` indices, drawn from `0..n` at random without
/// replacement: the sample indices in a random order.
pub fn bootstrap_sample(n: usize, rng: &mut rand::rngs::ThreadRng) -> (r: Vec<usize>)
    ensures
        is_index_permutation(r@, n as nat),
        r@.len() == n,
        forall|k: usize| k < n ==> #[trigger] r@.contains(k),
        forall|i: int| 0 <= i < r@.len() ==> #[trigger] r@[i] < n,
{
    let pool = indices_upto(n);
    let sample = choose_multiple_indices(&pool, n, rng);
    proof {
        lemma_permutation_members(sample@, n as nat);
    }
    sample
}

/// The items at the given positions, in the order of `positions`.
pub fn gather<T: Copy>(items: &Vec<T>, positions: &Vec<usize>) -> (r: Vec<T>)
    requires
        forall|i: int| 0 <= i < positions@.len() ==> #[trigger] positions@[i] < items@.len(),
    ensures
        r@.len() == positions@.len(),
        forall|i: int| 0 <= i < positions@.len() ==> #[trigger] r@[i] == items@[positions@[i] as int],
{
    let n: usize = positions.len();
    let mut r: Vec<T> = Vec::new();
    let mut i: usize = 0;
    while i < n
        invariant
            i <= n,
            n == positions@.len(),
            forall|j: int| 0 <= j < positions@.len() ==> #[trigger] positions@[j] < items@.len(),
            r@.len() == i,
            forall|j: int| 0 <= j < i ==> #[trigger] r@[j] == items@[positions@[j] as int],
        decreases n - i,
    {
        let x: T = items[positions[i]];
        r.push(x);
        i = i + 1;
    }
    r
}

} // verus!
