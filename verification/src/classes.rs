//! Binary classification labels: finding the two classes and mapping them to
//! the signs -1 and 1 and back.

use vstd::prelude::*;

verus! {

/// `s` holds exactly the two classes `a < b`: both occur and nothing else
/// does.
pub open spec fn two_classes(s: Seq<usize>, a: usize, b: usize) -> bool {
    &&& a < b
    &&& s.contains(a)
    &&& s.contains(b)
    &&& forall|i: int| 0 <= i < s.len() ==> #[trigger] s[i] == a || s[i] == b
}

/// The two classes of `labels`, smaller first, where exactly two distinct
/// values occur (what sorting and deduplicating `labels` leaves when it
/// leaves two values); `None` where fewer or more occur.
pub fn binary_classes(labels: &Vec<usize>) -> (r: Option<(usize, usize)>)
    ensures
        match r {
            Some((a, b)) => two_classes(labels@, a, b),
            None => forall|a: usize, b: usize| !two_classes(labels@, a, b),
        },
{
    let n: usize = labels.len();
    if n == 0 {
        return None;
    }
    let mut lo: usize = labels[0];
    let mut i: usize = 1;
    while i < n
        invariant
            1 <= i <= n,
            n == labels@.len(),
            labels@.contains(lo),
            forall|j: int| 0 <= j < i ==> lo <= #[trigger] labels@[j],
        decreases n - i,
    {
        if labels[i] < lo {
            lo = labels[i];
        }
        i = i + 1;
    }
    let mut k: usize = 0;
    while k < n && labels[k] == lo
        invariant
            k <= n,
            n == labels@.len(),
            forall|j: int| 0 <= j < k ==> #[trigger] labels@[j] == lo,
        decreases n - k,
    {
        k = k + 1;
    }
    if k == n {
        assert forall|a: usize, b: usize| !two_classes(labels@, a, b) by {
            if two_classes(labels@, a, b) {
                let ia = choose|j: int| 0 <= j < labels@.len() && labels@[j] == a;
                let ib = choose|j: int| 0 <= j < labels@.len() && labels@[j] == b;
                assert(labels@[ia] == lo && labels@[ib] == lo);
            }
        }
        return None;
    }
    let hi: usize = labels[k];
    assert(lo < hi);
    let mut m: usize = 0;
    while m < n
        invariant
            m <= n,
            n == labels@.len(),
            k < n,
            labels@[k as int] == hi,
            lo < hi,
            labels@.contains(lo),
            forall|j: int| 0 <= j < m ==> #[trigger] labels@[j] == lo || labels@[j] == hi,
        decreases n - m,
    {
        if labels[m] != lo && labels[m] != hi {
            let x: usize = labels[m];
            proof {
                assert forall|a: usize, b: usize| !two_classes(labels@, a, b) by {
                    if two_classes(labels@, a, b) {
                        assert(labels@[k as int] == a || labels@[k as int] == b);
                        assert(labels@[m as int] == a || labels@[m as int] == b);
                        let il = choose|j: int| 0 <= j < labels@.len() && labels@[j] == lo;
                        assert(labels@[il] == a || labels@[il] == b);
                    }
                }
            }
            return None;
        }
        m = m + 1;
    }
    assert(labels@[k as int] == hi);
    Some((lo, hi))
}

/// The sign that stands for `y`: -1 for the class `a`, 1 for any other.
pub open spec fn sign_of(y: usize, a: usize) -> i32 {
    if y == a {
        -1i32
    } else {
        1i32
    }
}

/// The class that a sign stands for: `a` for a negative one, `b` otherwise.
pub open spec fn class_of(v: i32, a: usize, b: usize) -> usize {
    if v < 0 {
        a
    } else {
        b
    }
}

/// Each label as the sign that stands for it.
pub fn to_signs(labels: &Vec<usize>, a: usize) -> (r: Vec<i32>)
    ensures
        r@.len() == labels@.len(),
        forall|i: int| 0 <= i < labels@.len() ==> #[trigger] r@[i] == sign_of(labels@[i], a),
        forall|i: int| 0 <= i < labels@.len() ==> (#[trigger] r@[i] < 0 <==> labels@[i] == a),
        forall|i: int| 0 <= i < labels@.len() ==> #[trigger] r@[i] == -1 || r@[i] == 1,
{
    let n: usize = labels.len();
    let mut r: Vec<i32> = Vec::new();
    let mut i: usize = 0;
    while i < n
        invariant
            i <= n,
            n == labels@.len(),
            r@.len() == i,
            forall|j: int| 0 <= j < i ==> #[trigger] r@[j] == sign_of(labels@[j], a),
        decreases n - i,
    {
        let s: i32 = if labels[i] == a {
            -1
        } else {
            1
        };
        r.push(s);
        i = i + 1;
    }
    r
}

/// Each sign as the class it stands for.
pub fn to_classes(signs: &Vec<i32>, a: usize, b: usize) -> (r: Vec<usize>)
    ensures
        r@.len() == signs@.len(),
        forall|i: int| 0 <= i < signs@.len() ==> #[trigger] r@[i] == class_of(signs@[i], a, b),
        forall|i: int| 0 <= i < signs@.len() ==> signs@[i] < 0 ==> #[trigger] r@[i] == a,
        forall|i: int| 0 <= i < signs@.len() ==> signs@[i] >= 0 ==> #[trigger] r@[i] == b,
{
    let n: usize = signs.len();
    let mut r: Vec<usize> = Vec::new();
    let mut i: usize = 0;
    while i < n
        invariant
            i <= n,
            n == signs@.len(),
            r@.len() == i,
            forall|j: int| 0 <= j < i ==> #[trigger] r@[j] == class_of(signs@[j], a, b),
        decreases n - i,
    {
        let c: usize = if signs[i] < 0 {
            a
        } else {
            b
        };
        r.push(c);
        i = i + 1;
    }
    r
}

/// For labels of two classes `a` and `b`, turning each into its sign and the
/// sign back into a class gives the label again.
pub proof fn lemma_sign_round_trip(y: usize, a: usize, b: usize)
    requires
        y == a || y == b,
    ensures
        class_of(sign_of(y, a), a, b) == y,
{
}

} // verus!
