//! Counting correct predictions.

use vstd::prelude::*;

verus! {

/// How many of the first `n` positions hold equal values in `p` and `a`.
pub open spec fn matches_in_prefix(p: Seq<usize>, a: Seq<usize>, n: int) -> nat
    decreases n,
{
    if n <= 0 {
        0
    } else {
        matches_in_prefix(p, a, n - 1) + if p[n - 1] == a[n - 1] {
            1nat
        } else {
            0nat
        }
    }
}

/// The number of positions, up to the shorter of the two, where the
/// prediction equals the actual value (what zipping the two, keeping the
/// equal pairs and counting them gives).
pub open spec fn correct_count(predicted: Seq<usize>, actual: Seq<usize>) -> nat {
    let n = if predicted.len() <= actual.len() {
        predicted.len()
    } else {
        actual.len()
    };
    matches_in_prefix(predicted, actual, n as int)
}

/// The positions `0..n` in order.
pub open spec fn positions(n: int) -> Seq<int> {
    Seq::new(n as nat, |i: int| i)
}

/// The positions, below the shorter length, where `p` and `a` hold the same
/// value.
pub open spec fn agreeing_positions(p: Seq<usize>, a: Seq<usize>) -> Seq<int> {
    let n = if p.len() <= a.len() {
        p.len()
    } else {
        a.len()
    };
    positions(n as int).filter(|i: int| p[i] == a[i])
}

proof fn lemma_prefix_counts_agreements(p: Seq<usize>, a: Seq<usize>, m: int)
    requires
        0 <= m,
    ensures
        matches_in_prefix(p, a, m) == positions(m).filter(|i: int| p[i] == a[i]).len(),
    decreases m,
{
    broadcast use Seq::lemma_filter_push;

    if m > 0 {
        lemma_prefix_counts_agreements(p, a, m - 1);
        assert(positions(m) == positions(m - 1).push(m - 1));
    }
}

/// The correct count is the number of positions, below the shorter length,
/// at which prediction and actual value are equal: each such position counts
/// once, and no other position counts.
pub proof fn lemma_correct_count_counts_agreements(p: Seq<usize>, a: Seq<usize>)
    ensures
        correct_count(p, a) == agreeing_positions(p, a).len(),
        forall|i: int| #[trigger]
            agreeing_positions(p, a).contains(i) <==> 0 <= i < p.len() && i < a.len() && p[i]
                == a[i],
{
    broadcast use vstd::seq_lib::group_filter_ensures, Seq::lemma_filter_contains_rev;

    let n = if p.len() <= a.len() {
        p.len()
    } else {
        a.len()
    };
    lemma_prefix_counts_agreements(p, a, n as int);
    let pred = |i: int| p[i] == a[i];
    assert forall|i: int| #[trigger]
        agreeing_positions(p, a).contains(i) <==> 0 <= i < p.len() && i < a.len() && p[i]
            == a[i] by {
        if 0 <= i < n && p[i] == a[i] {
            assert(positions(n as int)[i] == i);
            positions(n as int).lemma_filter_contains(pred, i);
        }
        if agreeing_positions(p, a).contains(i) {
            positions(n as int).lemma_filter_contains_rev(pred, i);
            let k = choose|k: int| 0 <= k < agreeing_positions(p, a).len() && agreeing_positions(p, a)[k] == i;
            positions(n as int).lemma_filter_pred(pred, k);
        }
    }
}

/// Where prediction and actual value differ at every position, nothing is
/// counted correct.
pub proof fn lemma_no_agreement_counts_nothing(p: Seq<usize>, a: Seq<usize>)
    requires
        forall|i: int| 0 <= i < p.len() && i < a.len() ==> p[i] != a[i],
    ensures
        correct_count(p, a) == 0,
{
    lemma_correct_count_counts_agreements(p, a);
    if agreeing_positions(p, a).len() > 0 {
        assert(agreeing_positions(p, a).contains(agreeing_positions(p, a)[0]));
    }
}

/// Predictions that equal the actual values are all counted correct.
pub proof fn lemma_full_agreement_counts_all(p: Seq<usize>)
    ensures
        correct_count(p, p) == p.len(),
{
    lemma_full_agreement_prefix(p, p.len() as int);
}

proof fn lemma_full_agreement_prefix(p: Seq<usize>, m: int)
    requires
        0 <= m <= p.len(),
    ensures
        matches_in_prefix(p, p, m) == m,
    decreases m,
{
    if m > 0 {
        lemma_full_agreement_prefix(p, m - 1);
    }
}

/// The number of positions at which `predicted` and `actual` agree.
pub fn count_correct(predicted: &Vec<usize>, actual: &Vec<usize>) -> (c: usize)
    ensures
        c == correct_count(predicted@, actual@),
        c == agreeing_positions(predicted@, actual@).len(),
        c <= predicted@.len(),
        c <= actual@.len(),
{
    let n: usize = if predicted.len() <= actual.len() {
        predicted.len()
    } else {
        actual.len()
    };
    let mut c: usize = 0;
    let mut i: usize = 0;
    while i < n
        invariant
            i <= n,
            n <= predicted@.len(),
            n <= actual@.len(),
            c == matches_in_prefix(predicted@, actual@, i as int),
            c <= i,
        decreases n - i,
    {
        if predicted[i] == actual[i] {
            c = c + 1;
        }
        i = i + 1;
    }
    proof {
        lemma_correct_count_counts_agreements(predicted@, actual@);
    }
    c
}

} // verus!
