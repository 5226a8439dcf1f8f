//! Encoding the distinct texts of a categorical column as consecutive codes,
//! in the order of their first appearance.

use vstd::prelude::*;
use crate::text::{copy_range, views};

verus! {

/// No text occurs twice in `s`.
pub open spec fn distinct(s: Seq<Seq<char>>) -> bool {
    forall|i: int, j: int| 0 <= i < j < s.len() ==> s[i] != s[j]
}

/// The position of `v` in `s`.
pub open spec fn code_of(s: Seq<Seq<char>>, v: Seq<char>) -> int {
    choose|i: int| 0 <= i < s.len() && s[i] == v
}

/// What encoding `v` does to the known texts `s`: a known text keeps its
/// code; a new one is appended and gets the next code.
pub open spec fn encode_spec(s: Seq<Seq<char>>, v: Seq<char>) -> (Seq<Seq<char>>, int) {
    if s.contains(v) {
        (s, code_of(s, v))
    } else {
        (s.push(v), s.len() as int)
    }
}

/// The distinct texts of `s` in the order in which they first appear: what
/// an encoder knows after encoding `s` from empty.
pub open spec fn first_appearances(s: Seq<Seq<char>>) -> Seq<Seq<char>>
    decreases s.len(),
{
    if s.len() == 0 {
        Seq::<Seq<char>>::empty()
    } else {
        encode_spec(first_appearances(s.drop_last()), s.last()).0
    }
}

/// In a sequence without repeats, a text sits at exactly one position.
pub proof fn lemma_code_of_unique(s: Seq<Seq<char>>, i: int)
    requires
        distinct(s),
        0 <= i < s.len(),
    ensures
        code_of(s, s[i]) == i,
{
    let v = s[i];
    assert(s.contains(v));
    let j = code_of(s, v);
    if j != i {
        if j < i {
            assert(s[j] != s[i]);
        } else {
            assert(s[i] != s[j]);
        }
    }
}

/// Encoding keeps the texts distinct, keeps every earlier code, and gives a
/// code that stands for the encoded text.
pub proof fn lemma_encode_spec(s: Seq<Seq<char>>, v: Seq<char>)
    requires
        distinct(s),
    ensures
        distinct(encode_spec(s, v).0),
        0 <= encode_spec(s, v).1 < encode_spec(s, v).0.len(),
        encode_spec(s, v).0[encode_spec(s, v).1] == v,
        s.len() <= encode_spec(s, v).0.len() <= s.len() + 1,
        forall|i: int| 0 <= i < s.len() ==> encode_spec(s, v).0[i] == s[i],
{
    if !s.contains(v) {
        let t = s.push(v);
        assert forall|i: int, j: int| 0 <= i < j < t.len() implies t[i] != t[j] by {
            if j == s.len() {
                assert(t[i] == s[i]);
            }
        }
    }
}

/// Encoding a text a second time neither changes the encoder nor the code.
pub proof fn lemma_encode_stable(s: Seq<Seq<char>>, v: Seq<char>)
    requires
        distinct(s),
    ensures
        encode_spec(encode_spec(s, v).0, v) == encode_spec(s, v),
{
    lemma_encode_spec(s, v);
    let (t, c) = encode_spec(s, v);
    assert(t.contains(v));
    lemma_code_of_unique(t, c);
}

/// Different texts, encoded one after the other, get different codes, and
/// the first code still stands for the first text afterwards.
pub proof fn lemma_encode_injective(s: Seq<Seq<char>>, v: Seq<char>, w: Seq<char>)
    requires
        distinct(s),
        v != w,
    ensures
        encode_spec(encode_spec(s, v).0, w).1 != encode_spec(s, v).1,
        encode_spec(encode_spec(s, v).0, w).0[encode_spec(s, v).1] == v,
{
    lemma_encode_spec(s, v);
    let (t, c) = encode_spec(s, v);
    lemma_encode_spec(t, w);
}

/// The first appearances of `s` hold no repeats and hold exactly the texts
/// that occur in `s`.
pub proof fn lemma_first_appearances(s: Seq<Seq<char>>)
    ensures
        distinct(first_appearances(s)),
        forall|v: Seq<char>| #[trigger] first_appearances(s).contains(v) <==> s.contains(v),
    decreases s.len(),
{
    if s.len() > 0 {
        let t = s.drop_last();
        lemma_first_appearances(t);
        let d = first_appearances(t);
        lemma_encode_spec(d, s.last());
        assert forall|v: Seq<char>| #[trigger] first_appearances(s).contains(v) <==> s.contains(
            v,
        ) by {
            let e = first_appearances(s);
            if s.contains(v) {
                let k = choose|k: int| 0 <= k < s.len() && s[k] == v;
                if k < t.len() {
                    assert(t[k] == v);
                    assert(d.contains(v));
                    let m = choose|m: int| 0 <= m < d.len() && d[m] == v;
                    assert(e[m] == v);
                } else {
                    assert(e[encode_spec(d, s.last()).1] == v);
                }
            }
            if e.contains(v) {
                let m = choose|m: int| 0 <= m < e.len() && e[m] == v;
                if m < d.len() {
                    assert(d[m] == v);
                    assert(d.contains(v));
                    assert(t.contains(v));
                    let k = choose|k: int| 0 <= k < t.len() && t[k] == v;
                    assert(s[k] == v);
                } else {
                    assert(e[m] == s.last());
                    assert(s[s.len() - 1] == v);
                }
            }
        }
    }
}

/// `x` occurs in `s` at some position before `k`.
pub open spec fn occurs_before(s: Seq<Seq<char>>, x: Seq<char>, k: int) -> bool {
    exists|l: int| 0 <= l < k && s[l] == x
}

/// Codes follow the order of first appearance: for codes `i < j`, the text
/// coded `i` occurs in `s` before any occurrence of the text coded `j`.
pub proof fn lemma_first_appearances_in_order(s: Seq<Seq<char>>)
    ensures
        forall|i: int, j: int, k: int|
            #![trigger first_appearances(s)[i], first_appearances(s)[j], s[k]]
            0 <= i < j < first_appearances(s).len() && 0 <= k < s.len() && s[k]
                == first_appearances(s)[j] ==> occurs_before(s, first_appearances(s)[i], k),
    decreases s.len(),
{
    if s.len() > 0 {
        let t = s.drop_last();
        let d = first_appearances(t);
        let e = first_appearances(s);
        let v = s.last();
        lemma_first_appearances_in_order(t);
        lemma_first_appearances(t);
        lemma_encode_spec(d, v);
        assert forall|i: int, j: int, k: int|
            #![trigger first_appearances(s)[i], first_appearances(s)[j], s[k]]
            0 <= i < j < first_appearances(s).len() && 0 <= k < s.len() && s[k]
                == first_appearances(s)[j] implies occurs_before(s, first_appearances(s)[i], k) by {
            assert(e[i] == d[i]);
            assert(d.contains(d[i]));
            assert(t.contains(d[i]));
            let m = choose|m: int| 0 <= m < t.len() && t[m] == d[i];
            assert(s[m] == d[i]);
            if k < t.len() {
                assert(s[k] == t[k]);
                if j < d.len() {
                    assert(e[j] == d[j]);
                    assert(t[k] == d[j]);
                    assert(occurs_before(t, d[i], k));
                    let l = choose|l: int| 0 <= l < k && t[l] == d[i];
                    assert(s[l] == e[i]);
                } else {
                    assert(!d.contains(v));
                    assert(e[j] == v);
                    assert(t.contains(v));
                    assert(d.contains(v));
                }
            } else {
                assert(m < k);
            }
        }
    } else {
        assert(first_appearances(s).len() == 0);
    }
}

/// Whether two texts are equal.
pub fn same_text(a: &Vec<char>, b: &Vec<char>) -> (r: bool)
    ensures
        r == (a@ == b@),
{
    if a.len() != b.len() {
        return false;
    }
    let n: usize = a.len();
    let mut i: usize = 0;
    while i < n
        invariant
            i <= n,
            n == a@.len(),
            n == b@.len(),
            forall|j: int| 0 <= j < i ==> a@[j] == b@[j],
        decreases n - i,
    {
        if a[i] != b[i] {
            return false;
        }
        i = i + 1;
    }
    assert(a@ =~= b@);
    true
}

/// The codes of one categorical column: each distinct text gets the number
/// of distinct texts seen before it.
///
/// The known texts are kept in a vector, indexed by their codes, and a text
/// is looked up by scanning that vector. A lookup therefore costs time in
/// proportion to the number of known texts (each compared character by
/// character), where a hash map keyed by `String` would take constant
/// expected time; on a column with few distinct texts and many rows the
/// scan is the dominant cost of encoding. The map is not used because
/// vstd's model of `HashMap` keys covers integer and boolean keys, so Verus proves
/// nothing about lookups by `String`; the vector gives the same codes, and
/// its no-repeats invariant is checked by Verus.
pub struct CategoryEncoder {
    values: Vec<Vec<char>>,
}

impl View for CategoryEncoder {
    type V = Seq<Seq<char>>;

    /// The known texts, indexed by their codes.
    closed spec fn view(&self) -> Seq<Seq<char>> {
        views(self.values@)
    }
}

impl CategoryEncoder {
    /// The encoder's invariant: no text is known twice.
    #[verifier::type_invariant]
    spec fn no_repeats(self) -> bool {
        distinct(views(self.values@))
    }

    /// An encoder that knows no text yet.
    pub fn new() -> (e: Self)
        ensures
            e@ == Seq::<Seq<char>>::empty(),
    {
        let e = CategoryEncoder { values: Vec::new() };
        assert(e@ =~= Seq::<Seq<char>>::empty());
        e
    }

    /// How many distinct texts the encoder knows.
    pub fn len(&self) -> (n: usize)
        ensures
            n == self@.len(),
    {
        self.values.len()
    }

    /// The text that `code` stands for, if the encoder has given that code.
    pub fn text_of(&self, code: usize) -> (r: Option<Vec<char>>)
        ensures
            match r {
                Some(t) => code < self@.len() && t@ == self@[code as int],
                None => code >= self@.len(),
            },
    {
        if code < self.values.len() {
            let t = copy_range(&self.values[code], 0, self.values[code].len());
            assert(t@ =~= self@[code as int]);
            Some(t)
        } else {
            None
        }
    }

    /// The code of `v`, if the encoder knows it.
    pub fn code(&self, v: &Vec<char>) -> (r: Option<usize>)
        ensures
            match r {
                Some(c) => self@.contains(v@) && c == code_of(self@, v@) && c < self@.len()
                    && self@[c as int] == v@,
                None => !self@.contains(v@),
            },
    {
        proof {
            use_type_invariant(self);
        }
        let n: usize = self.values.len();
        let mut i: usize = 0;
        while i < n
            invariant
                i <= n,
                n == self@.len(),
                self@ == views(self.values@),
                distinct(self@),
                forall|j: int| 0 <= j < i ==> self@[j] != v@,
            decreases n - i,
        {
            if same_text(&self.values[i], v) {
                proof {
                    assert(self@[i as int] == v@);
                    lemma_code_of_unique(self@, i as int);
                }
                return Some(i);
            }
            i = i + 1;
        }
        None
    }

    /// The code of `v`; an unknown text is added first and gets the next
    /// code, as `entry(v).or_insert(len)` does on a map of codes.
    pub fn encode(&mut self, v: &Vec<char>) -> (c: usize)
        ensures
            distinct(final(self)@),
            (final(self)@, c as int) == encode_spec(old(self)@, v@),
            c < final(self)@.len(),
            final(self)@[c as int] == v@,
    {
        proof {
            use_type_invariant(&*self);
            lemma_encode_spec(self@, v@);
        }
        match self.code(v) {
            Some(c) => c,
            None => {
                let c: usize = self.values.len();
                let copy = copy_range(v, 0, v.len());
                assert(copy@ =~= v@);
                let mut values: Vec<Vec<char>> = Vec::new();
                std::mem::swap(&mut values, &mut self.values);
                values.push(copy);
                assert(views(values@) =~= old(self)@.push(v@));
                self.values = values;
                c
            },
        }
    }
}

} // verus!
