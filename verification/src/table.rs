//! Reading delimited records and encoding their categorical columns.

use vstd::prelude::*;
use crate::metrics::positions;
use crate::encoder::{distinct, first_appearances, lemma_first_appearances, lemma_encode_spec, CategoryEncoder};
use crate::text::{is_blank, is_char, is_white_space, lemma_split_nonempty, split_on, split_spec, trim_by, trim_matching, trim_white_space, views};

verus! {

/// The field separator of the records.
pub const FIELD_SEPARATOR: char = ';';

/// The quote that may surround a field.
pub const QUOTE: char = '"';

/// Each piece without its surrounding quotes.
pub open spec fn unquote_all(parts: Seq<Seq<char>>) -> Seq<Seq<char>> {
    parts.map_values(|p: Seq<char>| trim_by(p, is_char(QUOTE)))
}

/// The fields of one line, unquoted, where the line (trimmed of white space
/// first, if `trim_line`) splits into exactly `n` fields; `None` otherwise.
pub open spec fn record_spec(line: Seq<char>, n: int, trim_line: bool) -> Option<Seq<Seq<char>>> {
    let text = if trim_line {
        trim_by(line, is_white_space())
    } else {
        line
    };
    let parts = split_spec(text, FIELD_SEPARATOR);
    if parts.len() == n {
        Some(unquote_all(parts))
    } else {
        None
    }
}

/// The records of all lines but the first (the header), in order, leaving
/// out the lines without exactly `n` fields.
pub open spec fn records_spec(lines: Seq<Seq<char>>, n: int, trim_line: bool) -> Seq<
    Seq<Seq<char>>,
>
    decreases lines.len(),
{
    if lines.len() <= 1 {
        Seq::<Seq<Seq<char>>>::empty()
    } else {
        let r = records_spec(lines.drop_last(), n, trim_line);
        match record_spec(lines.last(), n, trim_line) {
            Some(f) => r.push(f),
            None => r,
        }
    }
}

proof fn lemma_records_prefix(lines: Seq<Seq<char>>, n: int, trim_line: bool, m: int)
    requires
        1 <= m <= lines.len(),
    ensures
        records_spec(lines.take(m), n, trim_line) == positions(m).filter(
            |i: int| i >= 1 && record_spec(lines[i], n, trim_line) is Some,
        ).map_values(|i: int| record_spec(lines[i], n, trim_line).unwrap()),
    decreases m,
{
    broadcast use Seq::lemma_filter_push;

    let pred = |i: int| i >= 1 && record_spec(lines[i], n, trim_line) is Some;
    let f = |i: int| record_spec(lines[i], n, trim_line).unwrap();
    if m == 1 {
        assert(positions(1) == Seq::<int>::empty().push(0));
        assert(Seq::<int>::empty().filter(pred) =~= Seq::<int>::empty()) by {
            reveal(Seq::filter);
        }
        assert(positions(1).filter(pred) =~= Seq::<int>::empty());
        assert(positions(1).filter(pred).map_values(f) =~= Seq::<Seq<Seq<char>>>::empty());
    } else {
        lemma_records_prefix(lines, n, trim_line, m - 1);
        assert(positions(m) == positions(m - 1).push(m - 1));
        assert(lines.take(m).drop_last() == lines.take(m - 1));
        assert(lines.take(m).last() == lines[m - 1]);
        let g = positions(m - 1).filter(pred);
        assert(g.push(m - 1).map_values(f) =~= g.map_values(f).push(f(m - 1)));
    }
}

/// The records read are exactly those of the lines after the first that
/// split into `n` fields, in the order of the lines: every such line gives
/// its record, and no other line gives one.
pub proof fn lemma_records_are_the_good_lines(lines: Seq<Seq<char>>, n: int, trim_line: bool)
    ensures
        records_spec(lines, n, trim_line) == positions(lines.len() as int).filter(
            |i: int| i >= 1 && record_spec(lines[i], n, trim_line) is Some,
        ).map_values(|i: int| record_spec(lines[i], n, trim_line).unwrap()),
{
    broadcast use Seq::lemma_filter_push;

    if lines.len() == 0 {
        assert(positions(0) =~= Seq::<int>::empty());
        assert(positions(0).filter(|i: int| i >= 1 && record_spec(lines[i], n, trim_line) is Some)
            =~= Seq::<int>::empty()) by {
            reveal(Seq::filter);
        }
    } else {
        lemma_records_prefix(lines, n, trim_line, lines.len() as int);
        assert(lines.take(lines.len() as int) == lines);
    }
}

/// The views of a vector of records.
pub open spec fn record_views(recs: Seq<Vec<Vec<char>>>) -> Seq<Seq<Seq<char>>> {
    recs.map_values(|r: Vec<Vec<char>>| views(r@))
}

/// The number of fields in `line`.
pub fn count_fields(line: &Vec<char>) -> (n: usize)
    requires
        line@.len() < usize::MAX,
    ensures
        n == split_spec(line@, FIELD_SEPARATOR).len(),
{
    let n: usize = line.len();
    let mut count: usize = 1;
    let mut i: usize = 0;
    while i < n
        invariant
            i <= n,
            n == line@.len(),
            n < usize::MAX,
            count == split_spec(line@.take(i as int), FIELD_SEPARATOR).len(),
            count <= i + 1,
        decreases n - i,
    {
        proof {
            assert(line@.take(i + 1).drop_last() == line@.take(i as int));
            lemma_split_nonempty(line@.take(i as int), FIELD_SEPARATOR);
        }
        if line[i] == FIELD_SEPARATOR {
            count = count + 1;
        }
        i = i + 1;
    }
    assert(line@.take(n as int) == line@);
    count
}

/// The unquoted fields of `line` (trimmed of white space first, if
/// `trim_line`), or `None` where it does not have exactly `n_fields` fields.
pub fn parse_record(line: &Vec<char>, n_fields: usize, trim_line: bool) -> (r: Option<
    Vec<Vec<char>>,
>)
    ensures
        match r {
            Some(f) => record_spec(line@, n_fields as int, trim_line) == Some(views(f@))
                && f@.len() == n_fields,
            None => record_spec(line@, n_fields as int, trim_line) is None,
        },
{
    let parts = if trim_line {
        let t = trim_white_space(line);
        split_on(&t, FIELD_SEPARATOR)
    } else {
        split_on(line, FIELD_SEPARATOR)
    };
    if parts.len() != n_fields {
        return None;
    }
    let mut fields: Vec<Vec<char>> = Vec::new();
    let mut i: usize = 0;
    while i < n_fields
        invariant
            i <= n_fields,
            parts@.len() == n_fields,
            views(fields@) == unquote_all(views(parts@)).take(i as int),
        decreases n_fields - i,
    {
        let f = trim_matching(&parts[i], QUOTE);
        proof {
            assert(views(parts@)[i as int] == parts@[i as int]@);
            assert(unquote_all(views(parts@))[i as int] == f@);
        }
        let ghost before = views(fields@);
        fields.push(f);
        assert(views(fields@) =~= before.push(f@));
        i = i + 1;
        assert(views(fields@) =~= unquote_all(views(parts@)).take(i as int));
    }
    assert(views(fields@) =~= unquote_all(views(parts@)));
    Some(fields)
}

/// The records of `lines` after the first (the header), as `records_spec`
/// describes them.
pub fn read_records(lines: &Vec<Vec<char>>, n_fields: usize, trim_line: bool) -> (recs: Vec<
    Vec<Vec<char>>,
>)
    ensures
        record_views(recs@) == records_spec(views(lines@), n_fields as int, trim_line),
        record_views(recs@) == positions(lines@.len() as int).filter(
            |i: int| i >= 1 && record_spec(views(lines@)[i], n_fields as int, trim_line) is Some,
        ).map_values(|i: int| record_spec(views(lines@)[i], n_fields as int, trim_line).unwrap()),
        forall|r: int| 0 <= r < recs@.len() ==> (#[trigger] recs@[r])@.len() == n_fields,
{
    proof {
        lemma_records_are_the_good_lines(views(lines@), n_fields as int, trim_line);
    }
    let mut recs: Vec<Vec<Vec<char>>> = Vec::new();
    let n: usize = lines.len();
    if n <= 1 {
        assert(record_views(recs@) =~= Seq::<Seq<Seq<char>>>::empty());
        return recs;
    }
    let mut i: usize = 1;
    assert(views(lines@).take(1).len() <= 1);
    assert(record_views(recs@) =~= records_spec(views(lines@).take(1), n_fields as int, trim_line));
    while i < n
        invariant
            1 <= i <= n,
            n == lines@.len(),
            record_views(recs@) == records_spec(
                views(lines@).take(i as int),
                n_fields as int,
                trim_line,
            ),
            forall|r: int| 0 <= r < recs@.len() ==> (#[trigger] recs@[r])@.len() == n_fields,
        decreases n - i,
    {
        let ghost pre = views(lines@).take(i as int);
        assert(views(lines@).take(i + 1).drop_last() == pre);
        assert(views(lines@).take(i + 1).last() == lines@[i as int]@);
        match parse_record(&lines[i], n_fields, trim_line) {
            Some(f) => {
                recs.push(f);
                assert(record_views(recs@) =~= record_views(recs@.drop_last()).push(
                    views(f@),
                ));
            },
            None => {},
        }
        i = i + 1;
    }
    assert(views(lines@).take(n as int) =~= views(lines@));
    recs
}

/// Field `c` of every record, in order.
pub open spec fn column_spec(recs: Seq<Seq<Seq<char>>>, c: int) -> Seq<Seq<char>> {
    Seq::new(recs.len(), |r: int| recs[r][c])
}

/// The encoder of a categorical column knows exactly the texts of that
/// column: a text is known if and only if some record holds it in that
/// field.
pub proof fn lemma_encoder_knows_column_texts(recs: Seq<Seq<Seq<char>>>, c: int)
    ensures
        forall|v: Seq<char>| #[trigger]
            first_appearances(column_spec(recs, c)).contains(v) <==> exists|k: int|
                0 <= k < recs.len() && recs[k][c] == v,
{
    let col = column_spec(recs, c);
    lemma_first_appearances(col);
    assert forall|v: Seq<char>| #[trigger]
        first_appearances(col).contains(v) <==> exists|k: int| 0 <= k < recs.len() && recs[k][c] == v by {
        if col.contains(v) {
            let i = choose|i: int| 0 <= i < col.len() && col[i] == v;
            assert(recs[i][c] == v);
        }
        if exists|k: int| 0 <= k < recs.len() && recs[k][c] == v {
            let k = choose|k: int| 0 <= k < recs.len() && recs[k][c] == v;
            assert(col[k] == v);
            assert(col.contains(v));
        }
    }
}

/// Encodes field `c` of every record: the encoder ends up knowing the
/// column's distinct texts in order of first appearance, and `codes[r]` is
/// the code of record `r`'s text.
pub fn encode_column(recs: &Vec<Vec<Vec<char>>>, c: usize) -> (r: (CategoryEncoder, Vec<usize>))
    requires
        forall|k: int| 0 <= k < recs@.len() ==> (#[trigger] recs@[k])@.len() > c,
    ensures
        distinct(r.0@),
        r.0@ == first_appearances(column_spec(record_views(recs@), c as int)),
        forall|v: Seq<char>| #[trigger]
            r.0@.contains(v) <==> exists|k: int|
                0 <= k < recs@.len() && record_views(recs@)[k][c as int] == v,
        r.1@.len() == recs@.len(),
        forall|k: int|
            0 <= k < recs@.len() ==> #[trigger] r.1@[k] < r.0@.len() && r.0@[r.1@[k] as int]
                == record_views(recs@)[k][c as int],
{
    let ghost col = column_spec(record_views(recs@), c as int);
    let n: usize = recs.len();
    let mut enc = CategoryEncoder::new();
    let mut codes: Vec<usize> = Vec::new();
    let mut k: usize = 0;
    while k < n
        invariant
            k <= n,
            n == recs@.len(),
            col == column_spec(record_views(recs@), c as int),
            forall|j: int| 0 <= j < recs@.len() ==> (#[trigger] recs@[j])@.len() > c,
            distinct(enc@),
            enc@ == first_appearances(col.take(k as int)),
            codes@.len() == k,
            forall|j: int|
                0 <= j < k ==> #[trigger] codes@[j] < enc@.len() && enc@[codes@[j] as int]
                    == col[j],
        decreases n - k,
    {
        let ghost before = enc@;
        proof {
            lemma_encode_spec(enc@, col[k as int]);
            assert(col.take(k + 1).drop_last() == col.take(k as int));
            assert(recs@[k as int]@[c as int]@ == col[k as int]);
        }
        let code: usize = enc.encode(&recs[k][c]);
        codes.push(code);
        k = k + 1;
    }
    assert(col.take(n as int) == col);
    proof {
        lemma_encoder_knows_column_texts(record_views(recs@), c as int);
    }
    (enc, codes)
}

/// A table whose every column is categorical: the codes of the feature
/// columns, the codes of the target column, and the encoders of all
/// columns.
pub struct EncodedTable {
    pub features: Vec<Vec<usize>>,
    pub targets: Vec<usize>,
    pub encoders: Vec<CategoryEncoder>,
}

/// Reads the records of `lines` (the first line is a header; lines without
/// exactly `n_fields` fields are left out) and encodes every field: the
/// first `n_fields - 1` are the features, the last is the target. Each
/// column has an encoder of its own, which knows the column's texts in
/// order of first appearance.
pub fn encode_categorical(lines: &Vec<Vec<char>>, n_fields: usize) -> (t: EncodedTable)
    requires
        n_fields >= 1,
    ensures
        ({
            let recs = records_spec(views(lines@), n_fields as int, false);
            &&& t.features@.len() == recs.len()
            &&& t.targets@.len() == recs.len()
            &&& t.encoders@.len() == n_fields
            &&& forall|c: int|
                0 <= c < n_fields ==> distinct((#[trigger] t.encoders@[c])@) && t.encoders@[c]@
                    == first_appearances(column_spec(recs, c))
            &&& forall|c: int, v: Seq<char>|
                0 <= c < n_fields ==> (#[trigger] t.encoders@[c]@.contains(v) <==> exists|k: int|
                    0 <= k < recs.len() && recs[k][c] == v)
            &&& forall|r: int| 0 <= r < recs.len() ==> (#[trigger] t.features@[r])@.len() == n_fields - 1
            &&& forall|r: int, c: int|
                0 <= r < recs.len() && 0 <= c < n_fields - 1 ==> #[trigger] t.features@[r]@[c]
                    < t.encoders@[c]@.len() && t.encoders@[c]@[t.features@[r]@[c] as int]
                    == recs[r][c]
            &&& forall|r: int|
                0 <= r < recs.len() ==> #[trigger] t.targets@[r] < t.encoders@[n_fields
                    - 1]@.len() && t.encoders@[n_fields - 1]@[t.targets@[r] as int] == recs[r][n_fields - 1]
        }),
{
    let recs = read_records(lines, n_fields, false);
    let ghost rv = record_views(recs@);
    let nrec: usize = recs.len();
    let mut encoders: Vec<CategoryEncoder> = Vec::new();
    let mut columns: Vec<Vec<usize>> = Vec::new();
    let mut c: usize = 0;
    while c < n_fields
        invariant
            c <= n_fields,
            nrec == recs@.len(),
            rv == record_views(recs@),
            forall|k: int| 0 <= k < recs@.len() ==> (#[trigger] recs@[k])@.len() == n_fields,
            encoders@.len() == c,
            columns@.len() == c,
            forall|d: int|
                0 <= d < c ==> distinct((#[trigger] encoders@[d])@) && encoders@[d]@
                    == first_appearances(column_spec(rv, d)),
            forall|d: int| 0 <= d < c ==> (#[trigger] columns@[d])@.len() == nrec,
            forall|d: int, k: int|
                0 <= d < c && 0 <= k < nrec ==> #[trigger] columns@[d]@[k] < encoders@[d]@.len()
                    && encoders@[d]@[columns@[d]@[k] as int] == rv[k][d],
        decreases n_fields - c,
    {
        let (enc, codes) = encode_column(&recs, c);
        encoders.push(enc);
        columns.push(codes);
        c = c + 1;
    }
    let mut features: Vec<Vec<usize>> = Vec::new();
    let mut targets: Vec<usize> = Vec::new();
    let mut k: usize = 0;
    while k < nrec
        invariant
            k <= nrec,
            n_fields >= 1,
            encoders@.len() == n_fields,
            columns@.len() == n_fields,
            forall|d: int| 0 <= d < n_fields ==> (#[trigger] columns@[d])@.len() == nrec,
            forall|d: int, j: int|
                0 <= d < n_fields && 0 <= j < nrec ==> #[trigger] columns@[d]@[j]
                    < encoders@[d]@.len() && encoders@[d]@[columns@[d]@[j] as int] == rv[j][d],
            features@.len() == k,
            targets@.len() == k,
            forall|r: int| 0 <= r < k ==> (#[trigger] features@[r])@.len() == n_fields - 1,
            forall|r: int, d: int|
                0 <= r < k && 0 <= d < n_fields - 1 ==> #[trigger] features@[r]@[d]
                    == columns@[d]@[r],
            forall|r: int| 0 <= r < k ==> #[trigger] targets@[r] == columns@[n_fields - 1]@[r],
        decreases nrec - k,
    {
        let mut row: Vec<usize> = Vec::new();
        let mut d: usize = 0;
        while d < n_fields - 1
            invariant
                d <= n_fields - 1,
                k < nrec,
                columns@.len() == n_fields,
                forall|e: int| 0 <= e < n_fields ==> (#[trigger] columns@[e])@.len() == nrec,
                row@.len() == d,
                forall|e: int| 0 <= e < d ==> #[trigger] row@[e] == columns@[e]@[k as int],
            decreases n_fields - 1 - d,
        {
            row.push(columns[d][k]);
            d = d + 1;
        }
        features.push(row);
        targets.push(columns[n_fields - 1][k]);
        k = k + 1;
    }
    proof {
        assert forall|r: int, d: int|
            0 <= r < nrec && 0 <= d < n_fields - 1 implies #[trigger] features@[r]@[d]
                < encoders@[d]@.len() && encoders@[d]@[features@[r]@[d] as int] == rv[r][d] by {
            assert(features@[r]@[d] == columns@[d]@[r]);
        }
        assert forall|r: int| 0 <= r < nrec implies #[trigger] targets@[r] < encoders@[n_fields
            - 1]@.len() && encoders@[n_fields - 1]@[targets@[r] as int] == rv[r][n_fields
            - 1] by {
            assert(targets@[r] == columns@[n_fields - 1]@[r]);
        }
    }
    proof {
        assert forall|c: int, v: Seq<char>| 0 <= c < n_fields implies (
        #[trigger] encoders@[c]@.contains(v) <==> exists|k: int| 0 <= k < rv.len() && rv[k][c] == v) by {
            lemma_encoder_knows_column_texts(rv, c);
        }
    }
    EncodedTable { features, targets, encoders }
}

/// The views of a vector of flag vectors.
pub open spec fn flag_views(flags: Seq<Vec<bool>>) -> Seq<Seq<bool>> {
    flags.map_values(|f: Vec<bool>| f@)
}

/// Field `c` of the first `n` records, leaving out the records where that
/// field is flagged as numeric.
pub open spec fn categorical_column(
    recs: Seq<Seq<Seq<char>>>,
    numeric: Seq<Seq<bool>>,
    c: int,
    n: int,
) -> Seq<Seq<char>>
    decreases n,
{
    if n <= 0 {
        Seq::<Seq<char>>::empty()
    } else {
        let r = categorical_column(recs, numeric, c, n - 1);
        if numeric[n - 1][c] {
            r
        } else {
            r.push(recs[n - 1][c])
        }
    }
}

proof fn lemma_categorical_prefix_members(
    recs: Seq<Seq<Seq<char>>>,
    numeric: Seq<Seq<bool>>,
    c: int,
    n: int,
)
    requires
        0 <= n,
    ensures
        forall|v: Seq<char>| #[trigger]
            categorical_column(recs, numeric, c, n).contains(v) <==> exists|k: int|
                0 <= k < n && !numeric[k][c] && recs[k][c] == v,
    decreases n,
{
    if n > 0 {
        lemma_categorical_prefix_members(recs, numeric, c, n - 1);
        let r = categorical_column(recs, numeric, c, n - 1);
        assert forall|v: Seq<char>| #[trigger]
            categorical_column(recs, numeric, c, n).contains(v) <==> exists|k: int|
                0 <= k < n && !numeric[k][c] && recs[k][c] == v by {
            let s = categorical_column(recs, numeric, c, n);
            if s.contains(v) {
                let i = choose|i: int| 0 <= i < s.len() && s[i] == v;
                if i < r.len() {
                    assert(r[i] == v);
                    assert(r.contains(v));
                } else {
                    assert(!numeric[n - 1][c] && recs[n - 1][c] == v);
                }
            }
            if exists|k: int| 0 <= k < n && !numeric[k][c] && recs[k][c] == v {
                let k = choose|k: int| 0 <= k < n && !numeric[k][c] && recs[k][c] == v;
                if k < n - 1 {
                    assert(r.contains(v));
                    let i = choose|i: int| 0 <= i < r.len() && r[i] == v;
                    if !numeric[n - 1][c] {
                        assert(s[i] == v);
                    }
                } else {
                    assert(s[s.len() - 1] == v);
                }
            }
        }
    }
}

/// The encoder of a mixed column knows exactly the column's texts that are
/// not flagged numeric: a text is known if and only if some record holds it
/// in that field without the numeric flag. A column of numeric fields only
/// leaves its encoder empty.
pub proof fn lemma_mixed_encoder_knows_categorical_texts(
    recs: Seq<Seq<Seq<char>>>,
    numeric: Seq<Seq<bool>>,
    c: int,
    n: int,
)
    requires
        0 <= n,
    ensures
        forall|v: Seq<char>| #[trigger]
            first_appearances(categorical_column(recs, numeric, c, n)).contains(v) <==> exists|
                k: int,
            | 0 <= k < n && !numeric[k][c] && recs[k][c] == v,
{
    lemma_categorical_prefix_members(recs, numeric, c, n);
    lemma_first_appearances(categorical_column(recs, numeric, c, n));
}

/// Encodes field `c` of the records whose field `c` is not numeric: those
/// get `Some` code, the numeric ones `None`; the encoder knows the distinct
/// non-numeric texts in order of first appearance.
pub fn encode_mixed_column(recs: &Vec<Vec<Vec<char>>>, numeric: &Vec<Vec<bool>>, c: usize) -> (r: (
    CategoryEncoder,
    Vec<Option<usize>>,
))
    requires
        recs@.len() == numeric@.len(),
        forall|k: int| 0 <= k < recs@.len() ==> (#[trigger] recs@[k])@.len() > c,
        forall|k: int| 0 <= k < numeric@.len() ==> (#[trigger] numeric@[k])@.len() > c,
    ensures
        distinct(r.0@),
        r.0@ == first_appearances(
            categorical_column(record_views(recs@), flag_views(numeric@), c as int, recs@.len() as int),
        ),
        forall|v: Seq<char>| #[trigger]
            r.0@.contains(v) <==> exists|k: int|
                0 <= k < recs@.len() && !numeric@[k]@[c as int] && record_views(recs@)[k][c as int]
                    == v,
        r.1@.len() == recs@.len(),
        forall|k: int|
            0 <= k < recs@.len() ==> match #[trigger] r.1@[k] {
                None => numeric@[k]@[c as int],
                Some(code) => !numeric@[k]@[c as int] && code < r.0@.len() && r.0@[code as int]
                    == record_views(recs@)[k][c as int],
            },
{
    let ghost rv = record_views(recs@);
    let ghost nv = flag_views(numeric@);
    let n: usize = recs.len();
    let mut enc = CategoryEncoder::new();
    let mut codes: Vec<Option<usize>> = Vec::new();
    let mut k: usize = 0;
    while k < n
        invariant
            k <= n,
            n == recs@.len(),
            n == numeric@.len(),
            rv == record_views(recs@),
            nv == flag_views(numeric@),
            forall|j: int| 0 <= j < recs@.len() ==> (#[trigger] recs@[j])@.len() > c,
            forall|j: int| 0 <= j < numeric@.len() ==> (#[trigger] numeric@[j])@.len() > c,
            distinct(enc@),
            enc@ == first_appearances(categorical_column(rv, nv, c as int, k as int)),
            codes@.len() == k,
            forall|j: int|
                0 <= j < k ==> match #[trigger] codes@[j] {
                    None => numeric@[j]@[c as int],
                    Some(code) => !numeric@[j]@[c as int] && code < enc@.len() && enc@[code as int]
                        == rv[j][c as int],
                },
        decreases n - k,
    {
        proof {
            assert(nv[k as int] == numeric@[k as int]@);
            assert(rv[k as int] == views(recs@[k as int]@));
            assert(rv[k as int][c as int] == recs@[k as int]@[c as int]@);
        }
        if numeric[k][c] {
            codes.push(None);
        } else {
            proof {
                lemma_encode_spec(enc@, rv[k as int][c as int]);
                let col = categorical_column(rv, nv, c as int, k as int);
                assert(col.push(rv[k as int][c as int]).drop_last() == col);
            }
            let code: usize = enc.encode(&recs[k][c]);
            codes.push(Some(code));
        }
        k = k + 1;
    }
    proof {
        lemma_mixed_encoder_knows_categorical_texts(rv, nv, c as int, n as int);
        assert forall|k: int| 0 <= k < n implies nv[k] == numeric@[k]@ by {}
    }
    (enc, codes)
}

/// A table of feature columns where a field is either numeric (`None`: its
/// text is read as a number elsewhere) or categorical (`Some` code), with the
/// encoders of all columns.
pub struct MixedTable {
    pub features: Vec<Vec<Option<usize>>>,
    pub encoders: Vec<CategoryEncoder>,
}

/// Encodes the first `n_features` fields of every record: a field flagged in
/// `numeric` stays numeric, any other field gets its column's code. Each
/// column's encoder knows that column's non-numeric texts in order of first
/// appearance.
pub fn encode_mixed(recs: &Vec<Vec<Vec<char>>>, numeric: &Vec<Vec<bool>>, n_features: usize) -> (t:
    MixedTable)
    requires
        recs@.len() == numeric@.len(),
        forall|k: int| 0 <= k < recs@.len() ==> (#[trigger] recs@[k])@.len() >= n_features,
        forall|k: int| 0 <= k < numeric@.len() ==> (#[trigger] numeric@[k])@.len() >= n_features,
    ensures
        t.features@.len() == recs@.len(),
        t.encoders@.len() == n_features,
        forall|c: int|
            0 <= c < n_features ==> distinct((#[trigger] t.encoders@[c])@) && t.encoders@[c]@
                == first_appearances(
                categorical_column(record_views(recs@), flag_views(numeric@), c, recs@.len() as int),
            ),
        forall|c: int, v: Seq<char>|
            0 <= c < n_features ==> (#[trigger] t.encoders@[c]@.contains(v) <==> exists|k: int|
                0 <= k < recs@.len() && !numeric@[k]@[c] && record_views(recs@)[k][c] == v),
        forall|r: int| 0 <= r < recs@.len() ==> (#[trigger] t.features@[r])@.len() == n_features,
        forall|r: int, c: int|
            0 <= r < recs@.len() && 0 <= c < n_features ==> match #[trigger] t.features@[r]@[c] {
                None => numeric@[r]@[c],
                Some(code) => !numeric@[r]@[c] && code < t.encoders@[c]@.len()
                    && t.encoders@[c]@[code as int] == record_views(recs@)[r][c],
            },
{
    let nrec: usize = recs.len();
    let mut encoders: Vec<CategoryEncoder> = Vec::new();
    let mut columns: Vec<Vec<Option<usize>>> = Vec::new();
    let mut c: usize = 0;
    while c < n_features
        invariant
            c <= n_features,
            nrec == recs@.len(),
            nrec == numeric@.len(),
            forall|k: int| 0 <= k < recs@.len() ==> (#[trigger] recs@[k])@.len() >= n_features,
            forall|k: int| 0 <= k < numeric@.len() ==> (#[trigger] numeric@[k])@.len() >= n_features,
            encoders@.len() == c,
            columns@.len() == c,
            forall|d: int|
                0 <= d < c ==> distinct((#[trigger] encoders@[d])@) && encoders@[d]@ == first_appearances(
                    categorical_column(record_views(recs@), flag_views(numeric@), d, nrec as int),
                ),
            forall|d: int| 0 <= d < c ==> (#[trigger] columns@[d])@.len() == nrec,
            forall|d: int, k: int|
                0 <= d < c && 0 <= k < nrec ==> match #[trigger] columns@[d]@[k] {
                    None => numeric@[k]@[d],
                    Some(code) => !numeric@[k]@[d] && code < encoders@[d]@.len()
                        && encoders@[d]@[code as int] == record_views(recs@)[k][d],
                },
        decreases n_features - c,
    {
        let (enc, codes) = encode_mixed_column(recs, numeric, c);
        encoders.push(enc);
        columns.push(codes);
        c = c + 1;
    }
    let mut features: Vec<Vec<Option<usize>>> = Vec::new();
    let mut k: usize = 0;
    while k < nrec
        invariant
            k <= nrec,
            columns@.len() == n_features,
            forall|d: int| 0 <= d < n_features ==> (#[trigger] columns@[d])@.len() == nrec,
            features@.len() == k,
            forall|r: int| 0 <= r < k ==> (#[trigger] features@[r])@.len() == n_features,
            forall|r: int, d: int|
                0 <= r < k && 0 <= d < n_features ==> #[trigger] features@[r]@[d]
                    == columns@[d]@[r],
        decreases nrec - k,
    {
        let mut row: Vec<Option<usize>> = Vec::new();
        let mut d: usize = 0;
        while d < n_features
            invariant
                d <= n_features,
                k < nrec,
                columns@.len() == n_features,
                forall|e: int| 0 <= e < n_features ==> (#[trigger] columns@[e])@.len() == nrec,
                row@.len() == d,
                forall|e: int| 0 <= e < d ==> #[trigger] row@[e] == columns@[e]@[k as int],
            decreases n_features - d,
        {
            row.push(columns[d][k]);
            d = d + 1;
        }
        features.push(row);
        k = k + 1;
    }
    proof {
        assert forall|r: int, d: int| 0 <= r < nrec && 0 <= d < n_features implies match
            #[trigger] features@[r]@[d] {
            None => numeric@[r]@[d],
            Some(code) => !numeric@[r]@[d] && code < encoders@[d]@.len() && encoders@[d]@[code as int]
                == record_views(recs@)[r][d],
        } by {
            assert(features@[r]@[d] == columns@[d]@[r]);
        }
    }
    proof {
        let rv = record_views(recs@);
        let nv = flag_views(numeric@);
        assert forall|k: int| 0 <= k < nrec implies nv[k] == numeric@[k]@ by {}
        assert forall|c: int, v: Seq<char>| 0 <= c < n_features implies (
        #[trigger] encoders@[c]@.contains(v) <==> exists|k: int|
            0 <= k < recs@.len() && !numeric@[k]@[c] && rv[k][c] == v) by {
            lemma_mixed_encoder_knows_categorical_texts(rv, nv, c, nrec as int);
        }
    }
    MixedTable { features, encoders }
}

/// The class of a "yes"/"no" answer: 1 for "yes", 0 for "no", `None` for
/// any other text.
pub open spec fn yes_no_spec(text: Seq<char>) -> Option<usize> {
    if text == seq!['y', 'e', 's'] {
        Some(1)
    } else if text == seq!['n', 'o'] {
        Some(0)
    } else {
        None
    }
}

/// The class that a "yes"/"no" answer stands for.
pub fn yes_no_label(text: &Vec<char>) -> (r: Option<usize>)
    ensures
        r == yes_no_spec(text@),
{
    if text.len() == 3 && text[0] == 'y' && text[1] == 'e' && text[2] == 's' {
        assert(text@ =~= seq!['y', 'e', 's']);
        Some(1)
    } else if text.len() == 2 && text[0] == 'n' && text[1] == 'o' {
        assert(text@ =~= seq!['n', 'o']);
        Some(0)
    } else {
        None
    }
}

/// Some field of the record holds nothing but white space.
pub open spec fn has_blank_spec(fields: Seq<Seq<char>>) -> bool {
    exists|i: int| 0 <= i < fields.len() && #[trigger] trim_by(fields[i], is_white_space()).len() == 0
}

/// Whether some field of the record is blank (empty once trimmed).
pub fn has_blank_field(fields: &Vec<Vec<char>>) -> (b: bool)
    ensures
        b == has_blank_spec(views(fields@)),
{
    let n: usize = fields.len();
    let mut i: usize = 0;
    while i < n
        invariant
            i <= n,
            n == fields@.len(),
            forall|j: int|
                0 <= j < i ==> #[trigger] trim_by(views(fields@)[j], is_white_space()).len() != 0,
        decreases n - i,
    {
        assert(views(fields@)[i as int] == fields@[i as int]@);
        if is_blank(&fields[i]) {
            assert(trim_by(views(fields@)[i as int], is_white_space()).len() == 0);
            return true;
        }
        i = i + 1;
    }
    false
}

/// Whether the record has exactly `n` fields and none of them is blank.
pub fn is_complete_record(fields: &Vec<Vec<char>>, n: usize) -> (b: bool)
    ensures
        b == (fields@.len() == n && !has_blank_spec(views(fields@))),
{
    fields.len() == n && !has_blank_field(fields)
}

/// The positions of the rows that have a label, and those labels, in order.
pub open spec fn labelled_spec(labels: Seq<Option<usize>>, n: int) -> (Seq<usize>, Seq<usize>)
    decreases n,
{
    if n <= 0 {
        (Seq::<usize>::empty(), Seq::<usize>::empty())
    } else {
        let (rows, ys) = labelled_spec(labels, n - 1);
        match labels[n - 1] {
            Some(y) => (rows.push((n - 1) as usize), ys.push(y)),
            None => (rows, ys),
        }
    }
}

/// The positions, in order, that hold a label.
pub open spec fn labelled_positions(labels: Seq<Option<usize>>) -> Seq<int> {
    positions(labels.len() as int).filter(|i: int| labels[i] is Some)
}

proof fn lemma_labelled_prefix(labels: Seq<Option<usize>>, m: int)
    requires
        0 <= m <= labels.len(),
    ensures
        labelled_spec(labels, m).0 == positions(m).filter(|i: int| labels[i] is Some).map_values(
            |i: int| i as usize,
        ),
        labelled_spec(labels, m).1 == positions(m).filter(|i: int| labels[i] is Some).map_values(
            |i: int| labels[i].unwrap(),
        ),
    decreases m,
{
    broadcast use Seq::lemma_filter_push;

    if m > 0 {
        lemma_labelled_prefix(labels, m - 1);
        assert(positions(m) == positions(m - 1).push(m - 1));
        let f = positions(m - 1).filter(|i: int| labels[i] is Some);
        assert(f.push(m - 1).map_values(|i: int| i as usize) =~= f.map_values(|i: int| i as usize).push(
            (m - 1) as usize,
        ));
        assert(f.push(m - 1).map_values(|i: int| labels[i].unwrap()) =~= f.map_values(
            |i: int| labels[i].unwrap(),
        ).push(labels[m - 1].unwrap()));
    }
}

/// The rows kept are exactly the labelled ones: the positions returned are
/// the positions that hold a label, in order, each with its label; so every
/// labelled row is kept and as many rows come out as there are labels.
pub proof fn lemma_labelled_rows_are_the_labelled(labels: Seq<Option<usize>>)
    ensures
        labelled_spec(labels, labels.len() as int).0 == labelled_positions(labels).map_values(
            |i: int| i as usize,
        ),
        labelled_spec(labels, labels.len() as int).1 == labelled_positions(labels).map_values(
            |i: int| labels[i].unwrap(),
        ),
        forall|i: int|
            0 <= i < labels.len() && #[trigger] labels[i] is Some ==> labelled_spec(
                labels,
                labels.len() as int,
            ).0.contains(i as usize),
{
    broadcast use vstd::seq_lib::group_filter_ensures, Seq::lemma_filter_contains_rev;

    lemma_labelled_prefix(labels, labels.len() as int);
    let pred = |i: int| labels[i] is Some;
    let lp = labelled_positions(labels);
    assert forall|i: int|
        0 <= i < labels.len() && #[trigger] labels[i] is Some implies labelled_spec(
            labels,
            labels.len() as int,
        ).0.contains(i as usize) by {
        assert(positions(labels.len() as int)[i] == i);
        positions(labels.len() as int).lemma_filter_contains(pred, i);
        let k = choose|k: int| 0 <= k < lp.len() && lp[k] == i;
        assert(lp.map_values(|i: int| i as usize)[k] == i as usize);
    }
}

/// The rows that have a label: their positions and their labels, in order.
/// Rows without a label are left out.
pub fn labelled_rows(labels: &Vec<Option<usize>>) -> (r: (Vec<usize>, Vec<usize>))
    ensures
        (r.0@, r.1@) == labelled_spec(labels@, labels@.len() as int),
        r.0@ == labelled_positions(labels@).map_values(|i: int| i as usize),
        r.1@ == labelled_positions(labels@).map_values(|i: int| labels@[i].unwrap()),
        forall|i: int| 0 <= i < labels@.len() && #[trigger] labels@[i] is Some ==> r.0@.contains(i as usize),
        r.0@.len() == r.1@.len(),
        forall|i: int|
            0 <= i < r.0@.len() ==> #[trigger] r.0@[i] < labels@.len() && labels@[r.0@[i] as int]
                == Some(r.1@[i]),
{
    let n: usize = labels.len();
    let mut rows: Vec<usize> = Vec::new();
    let mut ys: Vec<usize> = Vec::new();
    let mut i: usize = 0;
    while i < n
        invariant
            i <= n,
            n == labels@.len(),
            (rows@, ys@) == labelled_spec(labels@, i as int),
            rows@.len() == ys@.len(),
            forall|j: int|
                0 <= j < rows@.len() ==> #[trigger] rows@[j] < i && labels@[rows@[j] as int]
                    == Some(ys@[j]),
        decreases n - i,
    {
        match labels[i] {
            Some(y) => {
                rows.push(i);
                ys.push(y);
            },
            None => {},
        }
        i = i + 1;
    }
    proof {
        lemma_labelled_rows_are_the_labelled(labels@);
    }
    (rows, ys)
}

} // verus!
