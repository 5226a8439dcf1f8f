//! Contiguous k-fold cross-validation splits.

use vstd::multiset::Multiset;
use vstd::prelude::*;

verus! {

/// First sample index of fold `i` when `n` samples are cut into `k` folds of
/// `n / k` samples each.
pub open spec fn fold_start(n: int, k: int, i: int) -> int {
    i * (n / k)
}

/// One past the last sample index of fold `i`: the last fold also takes the
/// `n % k` samples left over.
pub open spec fn fold_end(n: int, k: int, i: int) -> int {
    if i == k - 1 {
        n
    } else {
        (i + 1) * (n / k)
    }
}

proof fn lemma_fold_bounds(n: int, k: int, i: int)
    requires
        0 <= n,
        0 < k,
        0 <= i < k,
    ensures
        0 <= fold_start(n, k, i) <= fold_end(n, k, i) <= n,
        i + 1 < k ==> fold_end(n, k, i) <= fold_start(n, k, i + 1),
{
    let q = n / k;
    assert(0 <= q) by (nonlinear_arith)
        requires
            0 <= n,
            0 < k,
            q == n / k,
    ;
    assert(k * q <= n) by (nonlinear_arith)
        requires
            0 <= n,
            0 < k,
            q == n / k,
    ;
    assert(0 <= i * q <= (i + 1) * q <= k * q) by (nonlinear_arith)
        requires
            0 <= i < k,
            0 <= q,
    ;
}

/// The sample range `[start, end)` of fold `i` out of `k` over `n` samples.
pub fn fold_bounds(n: usize, k: usize, i: usize) -> (r: (usize, usize))
    requires
        0 < k,
        i < k,
    ensures
        r.0 == fold_start(n as int, k as int, i as int),
        r.1 == fold_end(n as int, k as int, i as int),
        r.0 <= r.1 <= n,
        i < k - 1 ==> r.1 - r.0 == n / k,
        i == k - 1 ==> r.1 - r.0 == n / k + n % k,
{
    proof {
        lemma_fold_bounds(n as int, k as int, i as int);
        lemma_fold_sizes(n as int, k as int, i as int);
    }
    let fold_size: usize = n / k;
    let start: usize = i * fold_size;
    let end: usize = if i == k - 1 {
        n
    } else {
        (i + 1) * fold_size
    };
    (start, end)
}

/// Every fold but the last holds `n / k` samples; the last holds those and
/// the `n % k` samples left over.
pub proof fn lemma_fold_sizes(n: int, k: int, i: int)
    requires
        0 <= n,
        0 < k,
        0 <= i < k,
    ensures
        i < k - 1 ==> fold_end(n, k, i) - fold_start(n, k, i) == n / k,
        i == k - 1 ==> fold_end(n, k, i) - fold_start(n, k, i) == n / k + n % k,
{
    let q = n / k;
    assert((i + 1) * q - i * q == q) by (nonlinear_arith);
    assert(n - (k - 1) * q == q + n % k) by (nonlinear_arith)
        requires
            0 < k,
            q == n / k,
    ;
}

/// The fold that sample `idx` falls in.
pub open spec fn fold_of(n: int, k: int, idx: int) -> int {
    let q = n / k;
    if q == 0 || idx / q >= k - 1 {
        k - 1
    } else {
        idx / q
    }
}

/// The folds cover the samples one after another: the first starts at 0,
/// each ends where the next starts, and the last ends at `n`.
pub proof fn lemma_folds_adjacent(n: int, k: int)
    requires
        0 <= n,
        0 < k,
    ensures
        fold_start(n, k, 0) == 0,
        fold_end(n, k, k - 1) == n,
        forall|i: int| 0 <= i < k - 1 ==> #[trigger] fold_end(n, k, i) == fold_start(n, k, i + 1),
{
}

/// Every sample lies in exactly one fold: `fold_of` names a fold whose range
/// holds it, and no other fold's range does. So each sample is tested once
/// over the `k` rounds of cross-validation.
pub proof fn lemma_folds_partition(n: int, k: int, idx: int)
    requires
        0 < k,
        0 <= idx < n,
    ensures
        0 <= fold_of(n, k, idx) < k,
        fold_start(n, k, fold_of(n, k, idx)) <= idx < fold_end(n, k, fold_of(n, k, idx)),
        forall|j: int|
            0 <= j < k && fold_start(n, k, j) <= idx < #[trigger] fold_end(n, k, j) ==> j
                == fold_of(n, k, idx),
{
    let q = n / k;
    assert(0 <= q && k * q <= n) by (nonlinear_arith)
        requires
            0 <= n,
            0 < k,
            q == n / k,
    ;
    if q == 0 {
        assert forall|j: int|
            0 <= j < k && fold_start(n, k, j) <= idx < #[trigger] fold_end(n, k, j) implies j
                == k - 1 by {
            if j < k - 1 {
                assert((j + 1) * q == 0) by (nonlinear_arith)
                    requires
                        q == 0,
                ;
            }
        }
        assert((k - 1) * q == 0) by (nonlinear_arith)
            requires
                q == 0,
        ;
    } else {
        let d = idx / q;
        assert(d * q <= idx < (d + 1) * q && 0 <= d) by (nonlinear_arith)
            requires
                q > 0,
                0 <= idx,
                d == idx / q,
        ;
        if d >= k - 1 {
            assert((k - 1) * q <= d * q) by (nonlinear_arith)
                requires
                    d >= k - 1,
                    q > 0,
            ;
        }
        assert forall|j: int|
            0 <= j < k && fold_start(n, k, j) <= idx < #[trigger] fold_end(n, k, j) implies j
                == fold_of(n, k, idx) by {
            if j < k - 1 {
                assert(j == d) by (nonlinear_arith)
                    requires
                        j * q <= idx < (j + 1) * q,
                        d * q <= idx < (d + 1) * q,
                        q > 0,
                ;
            } else {
                assert(d >= k - 1) by (nonlinear_arith)
                    requires
                        (k - 1) * q <= idx,
                        idx < (d + 1) * q,
                        q > 0,
                ;
            }
        }
    }
}

/// The items whose positions fall in `[start, end)`, in order.
pub open spec fn test_part<T>(s: Seq<T>, start: int, end: int) -> Seq<T>
    decreases s.len(),
{
    if s.len() == 0 {
        Seq::<T>::empty()
    } else {
        let r = test_part(s.drop_last(), start, end);
        if start <= s.len() - 1 < end {
            r.push(s.last())
        } else {
            r
        }
    }
}

/// The items whose positions fall outside `[start, end)`, in order.
pub open spec fn train_part<T>(s: Seq<T>, start: int, end: int) -> Seq<T>
    decreases s.len(),
{
    if s.len() == 0 {
        Seq::<T>::empty()
    } else {
        let r = train_part(s.drop_last(), start, end);
        if start <= s.len() - 1 < end {
            r
        } else {
            r.push(s.last())
        }
    }
}

/// The test part is the range `[start, end)` cut to the items, and the
/// training part is what lies before and after it.
pub proof fn lemma_parts_are_ranges<T>(s: Seq<T>, start: int, end: int)
    requires
        0 <= start <= end,
        start <= s.len(),
    ensures
        test_part(s, start, end) == s.subrange(start, if end <= s.len() { end } else { s.len() as int }),
        train_part(s, start, end) == s.subrange(0, start) + s.subrange(
            if end <= s.len() { end } else { s.len() as int },
            s.len() as int,
        ),
    decreases s.len(),
{
    if s.len() > 0 {
        let t = s.drop_last();
        let l = s.len() - 1;
        if start == s.len() {
            lemma_parts_outside(t, start, end);
            assert(s.subrange(0, start) == s);
            assert(t.push(s.last()) == s);
        } else {
            lemma_parts_are_ranges(t, start, end);
            if end > l {
                assert(s.subrange(start, s.len() as int) == t.subrange(start, l).push(s.last()));
                assert(s.subrange(0, start) == t.subrange(0, start));
            } else {
                assert(s.subrange(start, end) == t.subrange(start, end));
                assert(s.subrange(0, start) + s.subrange(end, s.len() as int) == (t.subrange(
                    0,
                    start,
                ) + t.subrange(end, l)).push(s.last()));
            }
        }
    }
}

/// Whatever the range, every item lands in exactly one of the two parts:
/// together they hold the items, each as often as the items do.
pub proof fn lemma_parts_cover<T>(s: Seq<T>, start: int, end: int)
    ensures
        test_part(s, start, end).to_multiset().add(train_part(s, start, end).to_multiset())
            == s.to_multiset(),
        test_part(s, start, end).len() + train_part(s, start, end).len() == s.len(),
    decreases s.len(),
{
    broadcast use vstd::seq_lib::group_to_multiset_ensures, vstd::multiset::group_multiset_axioms;

    if s.len() == 0 {
        assert(test_part(s, start, end).to_multiset() =~= Multiset::<T>::empty());
        assert(train_part(s, start, end).to_multiset() =~= Multiset::<T>::empty());
        assert(s.to_multiset() =~= Multiset::<T>::empty());
    } else {
        let t = s.drop_last();
        lemma_parts_cover(t, start, end);
        assert(t.push(s.last()) == s);
        assert(test_part(s, start, end).to_multiset().add(train_part(s, start, end).to_multiset())
            =~= t.to_multiset().insert(s.last()));
    }
}

proof fn lemma_parts_outside<T>(s: Seq<T>, start: int, end: int)
    requires
        s.len() <= start,
    ensures
        test_part(s, start, end) == Seq::<T>::empty(),
        train_part(s, start, end) == s,
    decreases s.len(),
{
    if s.len() > 0 {
        lemma_parts_outside(s.drop_last(), start, end);
        assert(s.drop_last().push(s.last()) == s);
    }
}

/// Splits `items` into the training part (positions outside `[start, end)`)
/// and the test part (positions inside it), keeping their order.
pub fn split_by_fold<T: Copy>(items: &Vec<T>, start: usize, end: usize) -> (r: (Vec<T>, Vec<T>))
    ensures
        r.0@ == train_part(items@, start as int, end as int),
        r.1@ == test_part(items@, start as int, end as int),
        r.0@.len() + r.1@.len() == items@.len(),
        r.1@.to_multiset().add(r.0@.to_multiset()) == items@.to_multiset(),
        start <= end <= items@.len() ==> r.1@ == items@.subrange(start as int, end as int)
            && r.0@ == items@.subrange(0, start as int) + items@.subrange(
            end as int,
            items@.len() as int,
        ),
{
    let n: usize = items.len();
    let mut train: Vec<T> = Vec::new();
    let mut test: Vec<T> = Vec::new();
    let mut idx: usize = 0;
    while idx < n
        invariant
            idx <= n,
            n == items@.len(),
            train@ == train_part(items@.take(idx as int), start as int, end as int),
            test@ == test_part(items@.take(idx as int), start as int, end as int),
        decreases n - idx,
    {
        let x: T = items[idx];
        assert(items@.take(idx + 1).drop_last() == items@.take(idx as int));
        if idx >= start && idx < end {
            test.push(x);
        } else {
            train.push(x);
        }
        idx = idx + 1;
    }
    assert(items@.take(n as int) == items@);
    proof {
        if start <= end <= n {
            lemma_parts_are_ranges(items@, start as int, end as int);
        }
        lemma_parts_cover(items@, start as int, end as int);
    }
    (train, test)
}

} // verus!
