//! Character-level text handling for delimited records.

use vstd::prelude::*;

verus! {

/// The pieces of `s` separated by `sep`, as `str::split` with a `char`
/// pattern yields them: `n` separators give `n + 1` pieces, the empty text
/// gives one empty piece.
pub open spec fn split_spec(s: Seq<char>, sep: char) -> Seq<Seq<char>>
    decreases s.len(),
{
    if s.len() == 0 {
        seq![Seq::<char>::empty()]
    } else {
        let r = split_spec(s.drop_last(), sep);
        if s.last() == sep {
            r.push(Seq::<char>::empty())
        } else {
            r.update(r.len() - 1, r.last().push(s.last()))
        }
    }
}

/// The pieces joined back together, with `sep` between neighbours.
pub open spec fn join_spec(parts: Seq<Seq<char>>, sep: char) -> Seq<char>
    decreases parts.len(),
{
    if parts.len() == 0 {
        Seq::<char>::empty()
    } else if parts.len() == 1 {
        parts[0]
    } else {
        join_spec(parts.drop_last(), sep).push(sep) + parts.last()
    }
}

/// The views of a vector of character vectors.
pub open spec fn views(parts: Seq<Vec<char>>) -> Seq<Seq<char>> {
    parts.map_values(|p: Vec<char>| p@)
}

/// Splitting always yields at least one piece.
pub proof fn lemma_split_nonempty(s: Seq<char>, sep: char)
    ensures
        split_spec(s, sep).len() >= 1,
    decreases s.len(),
{
    if s.len() > 0 {
        lemma_split_nonempty(s.drop_last(), sep);
    }
}

/// Joining the pieces of a split with the same separator gives back the text.
pub proof fn lemma_join_split(s: Seq<char>, sep: char)
    ensures
        join_spec(split_spec(s, sep), sep) == s,
    decreases s.len(),
{
    if s.len() > 0 {
        let t = s.drop_last();
        let r = split_spec(t, sep);
        lemma_join_split(t, sep);
        lemma_split_nonempty(t, sep);
        if s.last() == sep {
            assert(r.push(Seq::<char>::empty()).drop_last() == r);
            assert(join_spec(r, sep).push(sep) + Seq::<char>::empty() == s);
        } else {
            let u = r.update(r.len() - 1, r.last().push(s.last()));
            if r.len() == 1 {
                assert(join_spec(u, sep) == r[0].push(s.last()));
                assert(s == t.push(s.last()));
            } else {
                assert(u.drop_last() == r.drop_last());
                assert(join_spec(r.drop_last(), sep).push(sep) + r.last().push(s.last())
                    =~= (join_spec(r.drop_last(), sep).push(sep) + r.last()).push(s.last()));
                assert(s == t.push(s.last()));
            }
        }
    }
}

/// No piece of a split holds the separator.
pub proof fn lemma_split_pieces_lack_separator(s: Seq<char>, sep: char)
    ensures
        forall|k: int|
            0 <= k < split_spec(s, sep).len() ==> !(#[trigger] split_spec(s, sep)[k]).contains(
                sep,
            ),
    decreases s.len(),
{
    if s.len() > 0 {
        let t = s.drop_last();
        lemma_split_pieces_lack_separator(t, sep);
        lemma_split_nonempty(t, sep);
        let r = split_spec(t, sep);
        if s.last() != sep {
            let last = r.last().push(s.last());
            assert forall|j: int| 0 <= j < last.len() implies last[j] != sep by {
                if j < r.last().len() {
                    assert(last[j] == r.last()[j]);
                    assert(r[r.len() - 1] == r.last());
                }
            }
        }
    }
}

/// Splits `line` at every occurrence of `sep`.
pub fn split_on(line: &Vec<char>, sep: char) -> (parts: Vec<Vec<char>>)
    ensures
        views(parts@) == split_spec(line@, sep),
{
    let mut parts: Vec<Vec<char>> = Vec::new();
    let mut cur: Vec<char> = Vec::new();
    let n: usize = line.len();
    let mut i: usize = 0;
    while i < n
        invariant
            n == line@.len(),
            i <= n,
            views(parts@).push(cur@) == split_spec(line@.take(i as int), sep),
        decreases n - i,
    {
        let c: char = line[i];
        proof {
            assert(line@.take(i + 1).drop_last() == line@.take(i as int));
            lemma_split_nonempty(line@.take(i as int), sep);
        }
        if c == sep {
            let done = cur;
            parts.push(done);
            cur = Vec::new();
            assert(views(parts@).push(cur@) =~= views(parts@.drop_last()).push(done@).push(cur@));
        } else {
            cur.push(c);
            assert(views(parts@).push(cur@) =~= split_spec(line@.take(i as int), sep).update(
                parts@.len() as int, cur@));
        }
        i = i + 1;
    }
    parts.push(cur);
    assert(line@.take(n as int) == line@);
    assert(views(parts@) =~= views(parts@.drop_last()).push(cur@));
    parts
}

/// What remains of `s` once every leading character that satisfies `p` is
/// removed.
pub open spec fn strip_start(s: Seq<char>, p: spec_fn(char) -> bool) -> Seq<char>
    decreases s.len(),
{
    if s.len() > 0 && p(s[0]) {
        strip_start(s.drop_first(), p)
    } else {
        s
    }
}

/// What remains of `s` once every trailing character that satisfies `p` is
/// removed.
pub open spec fn strip_end(s: Seq<char>, p: spec_fn(char) -> bool) -> Seq<char>
    decreases s.len(),
{
    if s.len() > 0 && p(s.last()) {
        strip_end(s.drop_last(), p)
    } else {
        s
    }
}

/// `s` without its leading and trailing characters that satisfy `p`, as
/// `str::trim_matches` leaves it.
pub open spec fn trim_by(s: Seq<char>, p: spec_fn(char) -> bool) -> Seq<char> {
    strip_end(strip_start(s, p), p)
}

proof fn lemma_strip_start_shape(s: Seq<char>, p: spec_fn(char) -> bool)
    ensures
        exists|a: int|
            0 <= a <= s.len() && (forall|i: int| 0 <= i < a ==> p(#[trigger] s[i])) && (a < s.len()
                ==> !p(s[a])) && strip_start(s, p) == s.subrange(a, s.len() as int),
    decreases s.len(),
{
    if s.len() > 0 && p(s[0]) {
        let t = s.drop_first();
        lemma_strip_start_shape(t, p);
        let a = choose|a: int|
            0 <= a <= t.len() && (forall|i: int| 0 <= i < a ==> p(#[trigger] t[i])) && (a < t.len()
                ==> !p(t[a])) && strip_start(t, p) == t.subrange(a, t.len() as int);
        assert forall|i: int| 0 <= i < a + 1 implies p(#[trigger] s[i]) by {
            if i > 0 {
                assert(s[i] == t[i - 1]);
            }
        }
        assert(t.subrange(a, t.len() as int) == s.subrange(a + 1, s.len() as int));
        if a + 1 < s.len() {
            assert(s[a + 1] == t[a]);
        }
    } else {
        assert(s.subrange(0, s.len() as int) == s);
    }
}

proof fn lemma_strip_end_shape(s: Seq<char>, p: spec_fn(char) -> bool)
    ensures
        exists|b: int|
            0 <= b <= s.len() && (forall|i: int| b <= i < s.len() ==> p(#[trigger] s[i])) && (b > 0
                ==> !p(s[b - 1])) && strip_end(s, p) == s.subrange(0, b),
    decreases s.len(),
{
    if s.len() > 0 && p(s.last()) {
        let t = s.drop_last();
        lemma_strip_end_shape(t, p);
        let b = choose|b: int|
            0 <= b <= t.len() && (forall|i: int| b <= i < t.len() ==> p(#[trigger] t[i])) && (b > 0
                ==> !p(t[b - 1])) && strip_end(t, p) == t.subrange(0, b);
        assert forall|i: int| b <= i < s.len() implies p(#[trigger] s[i]) by {
            if i < t.len() {
                assert(s[i] == t[i]);
            }
        }
        assert(t.subrange(0, b) == s.subrange(0, b));
        if b > 0 {
            assert(s[b - 1] == t[b - 1]);
        }
    } else {
        assert(s.subrange(0, s.len() as int) == s);
    }
}

/// Trimming keeps one stretch of the text: everything before it and after it
/// satisfies `p`, and the stretch, where not empty, begins and ends with a
/// character that does not.
pub proof fn lemma_trim_by_keeps_the_middle(s: Seq<char>, p: spec_fn(char) -> bool)
    ensures
        exists|a: int, b: int|
            0 <= a <= b <= s.len() && trim_by(s, p) == s.subrange(a, b) && (forall|i: int|
                0 <= i < a ==> p(#[trigger] s[i])) && (forall|i: int|
                b <= i < s.len() ==> p(#[trigger] s[i])) && (a < b ==> !p(s[a]) && !p(s[b - 1])),
{
    lemma_strip_start_shape(s, p);
    let a = choose|a: int|
        0 <= a <= s.len() && (forall|i: int| 0 <= i < a ==> p(#[trigger] s[i])) && (a < s.len() ==> !p(
            s[a],
        )) && strip_start(s, p) == s.subrange(a, s.len() as int);
    let t = s.subrange(a, s.len() as int);
    lemma_strip_end_shape(t, p);
    let c = choose|b: int|
        0 <= b <= t.len() && (forall|i: int| b <= i < t.len() ==> p(#[trigger] t[i])) && (b > 0 ==> !p(
            t[b - 1],
        )) && strip_end(t, p) == t.subrange(0, b);
    let b = a + c;
    assert(t.subrange(0, c) == s.subrange(a, b));
    assert forall|i: int| b <= i < s.len() implies p(#[trigger] s[i]) by {
        assert(s[i] == t[i - a]);
    }
    if a < b {
        assert(s[b - 1] == t[c - 1]);
    }
    assert(0 <= a <= b <= s.len() && trim_by(s, p) == s.subrange(a, b) && (forall|i: int|
        0 <= i < a ==> p(#[trigger] s[i])) && (forall|i: int| b <= i < s.len() ==> p(#[trigger] s[i]))
        && (a < b ==> !p(s[a]) && !p(s[b - 1])));
}

/// The predicate "is the character `c`".
pub open spec fn is_char(c: char) -> spec_fn(char) -> bool {
    |x: char| x == c
}

/// The Unicode `White_Space` property, which `char::is_whitespace` tests.
pub open spec fn white_space(c: char) -> bool {
    ||| '\u{9}' <= c <= '\u{d}'
    ||| c == ' '
    ||| c == '\u{85}'
    ||| c == '\u{a0}'
    ||| c == '\u{1680}'
    ||| '\u{2000}' <= c <= '\u{200a}'
    ||| c == '\u{2028}'
    ||| c == '\u{2029}'
    ||| c == '\u{202f}'
    ||| c == '\u{205f}'
    ||| c == '\u{3000}'
}

/// The predicate "is white space".
pub open spec fn is_white_space() -> spec_fn(char) -> bool {
    |x: char| white_space(x)
}

/// Whether `c` is white space.
pub fn white_space_char(c: char) -> (b: bool)
    ensures
        b == white_space(c),
{
    ('\u{9}' <= c && c <= '\u{d}') || c == ' ' || c == '\u{85}' || c == '\u{a0}' || c
        == '\u{1680}' || ('\u{2000}' <= c && c <= '\u{200a}') || c == '\u{2028}' || c
        == '\u{2029}' || c == '\u{202f}' || c == '\u{205f}' || c == '\u{3000}'
}

proof fn lemma_strip_start_at(s: Seq<char>, p: spec_fn(char) -> bool, a: int)
    requires
        0 <= a <= s.len(),
        forall|j: int| 0 <= j < a ==> p(#[trigger] s[j]),
        a == s.len() || !p(s[a]),
    ensures
        strip_start(s, p) == s.subrange(a, s.len() as int),
    decreases a,
{
    if a == 0 {
        assert(s.subrange(0, s.len() as int) == s);
    } else {
        assert(p(s[0]));
        let t = s.drop_first();
        assert forall|j: int| 0 <= j < a - 1 implies p(#[trigger] t[j]) by {
            assert(t[j] == s[j + 1]);
        }
        lemma_strip_start_at(t, p, a - 1);
        assert(t.subrange(a - 1, t.len() as int) == s.subrange(a, s.len() as int));
    }
}

proof fn lemma_strip_end_at(s: Seq<char>, p: spec_fn(char) -> bool, b: int)
    requires
        0 <= b <= s.len(),
        forall|j: int| b <= j < s.len() ==> p(#[trigger] s[j]),
        b == 0 || !p(s[b - 1]),
    ensures
        strip_end(s, p) == s.subrange(0, b),
    decreases s.len() - b,
{
    if b == s.len() {
        assert(s.subrange(0, b) == s);
    } else {
        assert(p(s.last()));
        let t = s.drop_last();
        assert forall|j: int| b <= j < t.len() implies p(#[trigger] t[j]) by {
            assert(t[j] == s[j]);
        }
        lemma_strip_end_at(t, p, b);
        assert(t.subrange(0, b) == s.subrange(0, b));
    }
}

/// The characters `s[a..b]`.
pub(crate) fn copy_range(s: &Vec<char>, a: usize, b: usize) -> (r: Vec<char>)
    requires
        a <= b <= s@.len(),
    ensures
        r@ == s@.subrange(a as int, b as int),
{
    let mut r: Vec<char> = Vec::new();
    let mut k: usize = a;
    while k < b
        invariant
            a <= k <= b,
            b <= s@.len(),
            r@ == s@.subrange(a as int, k as int),
        decreases b - k,
    {
        r.push(s[k]);
        k = k + 1;
        assert(r@ =~= s@.subrange(a as int, k as int));
    }
    r
}

/// `s` without its leading and trailing occurrences of `c`, as
/// `str::trim_matches(c)` returns it.
pub fn trim_matching(s: &Vec<char>, c: char) -> (r: Vec<char>)
    ensures
        r@ == trim_by(s@, is_char(c)),
        exists|a: int, b: int|
            0 <= a <= b <= s@.len() && r@ == s@.subrange(a, b) && (forall|i: int|
                0 <= i < a ==> is_char(c)(#[trigger] s@[i])) && (forall|i: int|
                b <= i < s@.len() ==> is_char(c)(#[trigger] s@[i])) && (a < b ==> !is_char(c)(s@[a])
                && !is_char(c)(s@[b - 1])),
{
    proof {
        lemma_trim_by_keeps_the_middle(s@, is_char(c));
    }
    let ghost p = is_char(c);
    let n: usize = s.len();
    let mut a: usize = 0;
    while a < n && s[a] == c
        invariant
            a <= n,
            n == s@.len(),
            p == is_char(c),
            forall|j: int| 0 <= j < a ==> p(#[trigger] s@[j]),
        decreases n - a,
    {
        a = a + 1;
    }
    proof {
        lemma_strip_start_at(s@, p, a as int);
    }
    let mut b: usize = n;
    while b > a && s[b - 1] == c
        invariant
            a <= b <= n,
            n == s@.len(),
            p == is_char(c),
            forall|j: int| b <= j < n ==> p(#[trigger] s@[j]),
        decreases b,
    {
        b = b - 1;
    }
    let ghost t = s@.subrange(a as int, n as int);
    proof {
        assert forall|j: int| b - a <= j < t.len() implies p(#[trigger] t[j]) by {
            assert(t[j] == s@[j + a]);
        }
        if b > a {
            assert(t[b - a - 1] == s@[b - 1]);
        }
        lemma_strip_end_at(t, p, b - a);
        assert(t.subrange(0, b - a) == s@.subrange(a as int, b as int));
    }
    copy_range(s, a, b)
}

/// `s` without its leading and trailing white space, as `str::trim`
/// returns it.
pub fn trim_white_space(s: &Vec<char>) -> (r: Vec<char>)
    ensures
        r@ == trim_by(s@, is_white_space()),
        exists|a: int, b: int|
            0 <= a <= b <= s@.len() && r@ == s@.subrange(a, b) && (forall|i: int|
                0 <= i < a ==> is_white_space()(#[trigger] s@[i])) && (forall|i: int|
                b <= i < s@.len() ==> is_white_space()(#[trigger] s@[i])) && (a < b ==> !is_white_space()(s@[a])
                && !is_white_space()(s@[b - 1])),
{
    proof {
        lemma_trim_by_keeps_the_middle(s@, is_white_space());
    }
    let ghost p = is_white_space();
    let n: usize = s.len();
    let mut a: usize = 0;
    while a < n && white_space_char(s[a])
        invariant
            a <= n,
            n == s@.len(),
            p == is_white_space(),
            forall|j: int| 0 <= j < a ==> p(#[trigger] s@[j]),
        decreases n - a,
    {
        a = a + 1;
    }
    proof {
        lemma_strip_start_at(s@, p, a as int);
    }
    let mut b: usize = n;
    while b > a && white_space_char(s[b - 1])
        invariant
            a <= b <= n,
            n == s@.len(),
            p == is_white_space(),
            forall|j: int| b <= j < n ==> p(#[trigger] s@[j]),
        decreases b,
    {
        b = b - 1;
    }
    let ghost t = s@.subrange(a as int, n as int);
    proof {
        assert forall|j: int| b - a <= j < t.len() implies p(#[trigger] t[j]) by {
            assert(t[j] == s@[j + a]);
        }
        if b > a {
            assert(t[b - a - 1] == s@[b - 1]);
        }
        lemma_strip_end_at(t, p, b - a);
        assert(t.subrange(0, b - a) == s@.subrange(a as int, b as int));
    }
    copy_range(s, a, b)
}

/// Whether `s` holds nothing but white space, as `s.trim().is_empty()`
/// tells.
pub fn is_blank(s: &Vec<char>) -> (b: bool)
    ensures
        b == (trim_by(s@, is_white_space()).len() == 0),
{
    let t = trim_white_space(s);
    t.len() == 0
}

/// `s` cut at the first occurrence of `sep` into the text before it and the
/// text after it, as `str::split_once` does; `None` where `sep` does not
/// occur.
pub fn split_once(s: &Vec<char>, sep: char) -> (r: Option<(Vec<char>, Vec<char>)>)
    ensures
        match r {
            None => !s@.contains(sep),
            Some((before, after)) => {
                &&& s@ == before@.push(sep) + after@
                &&& !before@.contains(sep)
            },
        },
{
    let n: usize = s.len();
    let mut k: usize = 0;
    while k < n && s[k] != sep
        invariant
            k <= n,
            n == s@.len(),
            forall|j: int| 0 <= j < k ==> s@[j] != sep,
        decreases n - k,
    {
        k = k + 1;
    }
    if k == n {
        None
    } else {
        let before = copy_range(s, 0, k);
        let after = copy_range(s, k + 1, n);
        assert(s@ =~= before@.push(sep) + after@);
        Some((before, after))
    }
}

} // verus!
