//! Reading comma-separated files with a header line (through the csv crate)
//! and choosing the records that the experiments use.

use vstd::prelude::*;
use crate::table::{has_blank_spec, record_views};
use crate::text::views;
use crate::metrics::positions;

verus! {

/// An error of the csv crate.
#[verifier::external_type_specification]
#[verifier::external_body]
pub struct ExCsvError(csv::Error);

/// The records, each a sequence of field texts, that the csv crate reads from
/// `text` when its first line is a header; `None` where csv reports an error
/// (malformed quoting, records of unequal length, text that is not UTF-8).
pub uninterp spec fn csv_records(text: Seq<char>) -> Option<Seq<Seq<Seq<char>>>>;

/// `csv::ReaderBuilder::new().has_headers(true).from_reader(..).records()` of
/// the csv crate on `text`, every record collected as its fields' texts. The
/// contract names the records that csv reads (`csv_records`): what they are
/// follows csv's parser and is not written out here; stated is that the
/// result is a function of the text alone, and that an error comes exactly
/// where csv reports one.
#[verifier::external_body]
fn read_csv_records(text: &String) -> (r: Result<Vec<Vec<Vec<char>>>, csv::Error>)
    ensures
        match r {
            Ok(v) => csv_records(text@) == Some(record_views(v@)),
            Err(_) => csv_records(text@) is None,
        },
{
    let mut reader = csv::ReaderBuilder::new().has_headers(true).from_reader(text.as_bytes());
    reader.records().map(|rec| rec.map(|r| r.iter().map(|f| f.chars().collect()).collect())).collect()
}

/// Why the records of a file cannot be used.
pub enum CsvReadError {
    /// The csv crate could not read the text.
    Malformed(csv::Error),
    /// The first record has fewer than the two fields that hold no feature.
    TooFewFields,
}

/// Record `k` has exactly `n` fields and none of them is blank.
pub open spec fn is_complete_spec(recs: Seq<Seq<Seq<char>>>, k: int, n: int) -> bool {
    recs[k].len() == n && !has_blank_spec(recs[k])
}

/// The positions, in order, among the first `m` records, of the records
/// with exactly `n` fields, none of them blank.
pub open spec fn complete_positions_spec(recs: Seq<Seq<Seq<char>>>, n: int, m: int) -> Seq<usize>
    decreases m,
{
    if m <= 0 {
        Seq::<usize>::empty()
    } else {
        let p = complete_positions_spec(recs, n, m - 1);
        if is_complete_spec(recs, m - 1, n) {
            p.push((m - 1) as usize)
        } else {
            p
        }
    }
}

/// The positions, in order, among the first `m` records, of the records
/// without a blank field.
pub open spec fn unblank_positions_spec(recs: Seq<Seq<Seq<char>>>, m: int) -> Seq<usize>
    decreases m,
{
    if m <= 0 {
        Seq::<usize>::empty()
    } else {
        let p = unblank_positions_spec(recs, m - 1);
        if !has_blank_spec(recs[m - 1]) {
            p.push((m - 1) as usize)
        } else {
            p
        }
    }
}

/// The number of features of a regression file: two fields fewer than the
/// first record has, where that record has no blank field; 0 otherwise.
pub open spec fn feature_count_spec(recs: Seq<Seq<Seq<char>>>) -> int {
    if recs.len() > 0 && !has_blank_spec(recs[0]) {
        recs[0].len() - 2
    } else {
        0
    }
}

/// Of a regression file whose first record has no blank field, every field
/// but the last two is a feature: the feature count is that record's field
/// count less two. Otherwise no feature is counted.
pub proof fn lemma_feature_count_leaves_two_fields(recs: Seq<Seq<Seq<char>>>)
    ensures
        recs.len() > 0 && !has_blank_spec(recs[0]) ==> feature_count_spec(recs) + 2 == recs[0].len(),
        !(recs.len() > 0 && !has_blank_spec(recs[0])) ==> feature_count_spec(recs) == 0,
{
}

proof fn lemma_complete_prefix(recs: Seq<Seq<Seq<char>>>, n: int, m: int)
    requires
        0 <= m <= recs.len(),
    ensures
        complete_positions_spec(recs, n, m) == positions(m).filter(
            |k: int| recs[k].len() == n && !has_blank_spec(recs[k]),
        ).map_values(|k: int| k as usize),
    decreases m,
{
    broadcast use Seq::lemma_filter_push;

    if m > 0 {
        lemma_complete_prefix(recs, n, m - 1);
        assert(positions(m) == positions(m - 1).push(m - 1));
        let f = positions(m - 1).filter(|k: int| recs[k].len() == n && !has_blank_spec(recs[k]));
        assert(f.push(m - 1).map_values(|k: int| k as usize) =~= f.map_values(|k: int| k as usize).push(
            (m - 1) as usize,
        ));
    }
}

/// The positions kept are exactly those of the records with `n` fields and
/// no blank field, in order: every such record is kept, no other is.
pub proof fn lemma_complete_positions_are_complete_records(recs: Seq<Seq<Seq<char>>>, n: int)
    ensures
        complete_positions_spec(recs, n, recs.len() as int) == positions(recs.len() as int).filter(
            |k: int| recs[k].len() == n && !has_blank_spec(recs[k]),
        ).map_values(|k: int| k as usize),
{
    lemma_complete_prefix(recs, n, recs.len() as int);
}

proof fn lemma_unblank_prefix(recs: Seq<Seq<Seq<char>>>, m: int)
    requires
        0 <= m <= recs.len(),
    ensures
        unblank_positions_spec(recs, m) == positions(m).filter(|k: int| !has_blank_spec(recs[k])).map_values(
            |k: int| k as usize,
        ),
    decreases m,
{
    broadcast use Seq::lemma_filter_push;

    if m > 0 {
        lemma_unblank_prefix(recs, m - 1);
        assert(positions(m) == positions(m - 1).push(m - 1));
        let f = positions(m - 1).filter(|k: int| !has_blank_spec(recs[k]));
        assert(f.push(m - 1).map_values(|k: int| k as usize) =~= f.map_values(|k: int| k as usize).push(
            (m - 1) as usize,
        ));
    }
}

/// The positions kept are exactly those of the records without a blank
/// field, in order.
pub proof fn lemma_unblank_positions_are_unblank_records(recs: Seq<Seq<Seq<char>>>)
    ensures
        unblank_positions_spec(recs, recs.len() as int) == positions(recs.len() as int).filter(
            |k: int| !has_blank_spec(recs[k]),
        ).map_values(|k: int| k as usize),
{
    lemma_unblank_prefix(recs, recs.len() as int);
}

/// The positions of the records that have exactly `n` fields, none blank.
pub fn complete_record_positions(recs: &Vec<Vec<Vec<char>>>, n: usize) -> (r: Vec<usize>)
    ensures
        r@ == complete_positions_spec(record_views(recs@), n as int, recs@.len() as int),
        r@ == positions(recs@.len() as int).filter(
            |k: int| record_views(recs@)[k].len() == n && !has_blank_spec(record_views(recs@)[k]),
        ).map_values(|k: int| k as usize),
{
    let ghost rv = record_views(recs@);
    let m: usize = recs.len();
    let mut r: Vec<usize> = Vec::new();
    let mut k: usize = 0;
    while k < m
        invariant
            k <= m,
            m == recs@.len(),
            rv == record_views(recs@),
            r@ == complete_positions_spec(rv, n as int, k as int),
        decreases m - k,
    {
        assert(rv[k as int] == views(recs@[k as int]@));
        if crate::table::is_complete_record(&recs[k], n) {
            r.push(k);
        }
        k = k + 1;
    }
    proof {
        lemma_complete_positions_are_complete_records(rv, n as int);
    }
    r
}

/// The feature count of a regression file (see `feature_count_spec`) and
/// the positions of its records without a blank field. A first record that
/// has no blank field has at least two fields.
pub fn regression_rows(recs: &Vec<Vec<Vec<char>>>) -> (r: (usize, Vec<usize>))
    requires
        recs@.len() > 0 && !has_blank_spec(record_views(recs@)[0]) ==> recs@[0]@.len() >= 2,
    ensures
        r.0 == feature_count_spec(record_views(recs@)),
        recs@.len() > 0 && !has_blank_spec(record_views(recs@)[0]) ==> r.0 + 2 == recs@[0]@.len(),
        !(recs@.len() > 0 && !has_blank_spec(record_views(recs@)[0])) ==> r.0 == 0,
        r.1@ == unblank_positions_spec(record_views(recs@), recs@.len() as int),
        r.1@ == positions(recs@.len() as int).filter(|k: int| !has_blank_spec(record_views(recs@)[k])).map_values(
            |k: int| k as usize,
        ),
{
    let ghost rv = record_views(recs@);
    let m: usize = recs.len();
    let mut r: Vec<usize> = Vec::new();
    let mut features: usize = 0;
    let mut k: usize = 0;
    while k < m
        invariant
            k <= m,
            m == recs@.len(),
            rv == record_views(recs@),
            m > 0 && !has_blank_spec(rv[0]) ==> recs@[0]@.len() >= 2,
            r@ == unblank_positions_spec(rv, k as int),
            features == (if k > 0 {
                feature_count_spec(rv)
            } else {
                0
            }),
        decreases m - k,
    {
        assert(rv[k as int] == views(recs@[k as int]@));
        if !crate::table::has_blank_field(&recs[k]) {
            if k == 0 {
                features = recs[0].len() - 2;
            }
            r.push(k);
        }
        k = k + 1;
    }
    proof {
        lemma_unblank_positions_are_unblank_records(rv);
        lemma_feature_count_leaves_two_fields(rv);
    }
    (features, r)
}

/// The records that csv reads from `text` (header line first) and the
/// positions of those with exactly `n` fields, none blank.
pub fn read_complete_records(text: &String, n: usize) -> (r: Result<
    (Vec<Vec<Vec<char>>>, Vec<usize>),
    CsvReadError,
>)
    ensures
        match r {
            Ok((recs, pos)) => csv_records(text@) == Some(record_views(recs@)) && pos@
                == complete_positions_spec(record_views(recs@), n as int, recs@.len() as int),
            Err(e) => csv_records(text@) is None && e is Malformed,
        },
{
    match read_csv_records(text) {
        Ok(recs) => {
            let pos = complete_record_positions(&recs, n);
            Ok((recs, pos))
        },
        Err(e) => Err(CsvReadError::Malformed(e)),
    }
}

/// The records that csv reads from a regression file (header line first),
/// its feature count and the positions of its records without a blank
/// field. Fails where csv does, or where the first record has no blank field
/// but fewer than two fields.
pub fn read_regression_records(text: &String) -> (r: Result<
    (Vec<Vec<Vec<char>>>, usize, Vec<usize>),
    CsvReadError,
>)
    ensures
        match r {
            Ok((recs, features, pos)) => {
                &&& csv_records(text@) == Some(record_views(recs@))
                &&& features == feature_count_spec(record_views(recs@))
                &&& recs@.len() > 0 && !has_blank_spec(record_views(recs@)[0]) ==> features + 2
                    == recs@[0]@.len()
                &&& pos@ == unblank_positions_spec(record_views(recs@), recs@.len() as int)
            },
            Err(CsvReadError::Malformed(_)) => csv_records(text@) is None,
            Err(CsvReadError::TooFewFields) => csv_records(text@) matches Some(recs) && recs.len()
                > 0 && !has_blank_spec(recs[0]) && recs[0].len() < 2,
        },
{
    match read_csv_records(text) {
        Ok(recs) => {
            if recs.len() > 0 && recs[0].len() < 2 && !crate::table::has_blank_field(&recs[0]) {
                return Err(CsvReadError::TooFewFields);
            }
            let (features, pos) = regression_rows(&recs);
            Ok((recs, features, pos))
        },
        Err(e) => Err(CsvReadError::Malformed(e)),
    }
}

} // verus!
