//! Majority voting over the predictions of an ensemble.

use std::collections::HashMap;
use vstd::prelude::*;
use crate::metrics::positions;

verus! {

broadcast use vstd::std_specs::hash::group_hash_axioms, vstd::seq_lib::group_to_multiset_ensures;

/// How many times `x` occurs in `s`.
pub open spec fn votes_for(s: Seq<usize>, x: usize) -> nat {
    s.to_multiset().count(x)
}

/// `x` is one of the values in `s` and no value occurs in `s` more often.
pub open spec fn is_majority(s: Seq<usize>, x: usize) -> bool {
    &&& s.contains(x)
    &&& forall|y: usize| #[trigger] votes_for(s, y) <= votes_for(s, x)
}

/// The value that occurs most often among `predictions`. Where several
/// values share the highest count, any one of them is a correct answer; this
/// one returns the first of them in `predictions`.
pub fn majority_vote(predictions: &Vec<usize>) -> (winner: usize)
    requires
        predictions@.len() > 0,
    ensures
        is_majority(predictions@, winner),
{
    let n: usize = predictions.len();
    let mut counts: HashMap<usize, usize> = HashMap::new();
    let mut i: usize = 0;
    while i < n
        invariant
            i <= n,
            n == predictions@.len(),
            forall|x: usize| #[trigger]
                counts@.contains_key(x) <==> predictions@.take(i as int).contains(x),
            forall|x: usize| #[trigger]
                counts@.contains_key(x) ==> counts@[x] == votes_for(
                    predictions@.take(i as int),
                    x,
                ) && counts@[x] <= i,
        decreases n - i,
    {
        let p: usize = predictions[i];
        let c: usize = match counts.get(&p) {
            Some(v) => *v,
            None => 0,
        };
        proof {
            assert(predictions@.take(i + 1) == predictions@.take(i as int).push(p));
            if !counts@.contains_key(p) {
                assert(votes_for(predictions@.take(i as int), p) == 0);
            }
        }
        counts.insert(p, c + 1);
        proof {
            let pre = predictions@.take(i as int);
            assert forall|x: usize| pre.push(p).contains(x) <==> pre.contains(x) || x == p by {
                if pre.push(p).contains(x) && x != p {
                    let k = choose|k: int| 0 <= k < pre.len() + 1 && pre.push(p)[k] == x;
                    assert(pre[k] == x);
                }
                if pre.contains(x) {
                    let k = choose|k: int| 0 <= k < pre.len() && pre[k] == x;
                    assert(pre.push(p)[k] == x);
                }
                if x == p {
                    assert(pre.push(p)[pre.len() as int] == x);
                }
            }
        }
        i = i + 1;
    }
    assert(predictions@.take(n as int) == predictions@);
    let mut best: usize = predictions[0];
    let mut best_count: usize = match counts.get(&best) {
        Some(v) => *v,
        None => 0,
    };
    assert(predictions@.contains(best));
    let mut j: usize = 1;
    while j < n
        invariant
            1 <= j <= n,
            n == predictions@.len(),
            forall|x: usize| #[trigger]
                counts@.contains_key(x) <==> predictions@.contains(x),
            forall|x: usize| #[trigger]
                counts@.contains_key(x) ==> counts@[x] == votes_for(predictions@, x),
            predictions@.contains(best),
            best_count == votes_for(predictions@, best),
            forall|k: int| 0 <= k < j ==> votes_for(predictions@, #[trigger] predictions@[k]) <= best_count,
        decreases n - j,
    {
        let p: usize = predictions[j];
        assert(predictions@.contains(p));
        let c: usize = match counts.get(&p) {
            Some(v) => *v,
            None => 0,
        };
        if c > best_count {
            best = p;
            best_count = c;
        }
        j = j + 1;
    }
    assert forall|y: usize| #[trigger] votes_for(predictions@, y) <= votes_for(predictions@, best) by {
        if votes_for(predictions@, y) > 0 {
            assert(predictions@.contains(y));
            let k = choose|k: int| 0 <= k < predictions@.len() && predictions@[k] == y;
            assert(votes_for(predictions@, predictions@[k]) <= best_count);
        }
    }
    best
}

/// The predictions that the first `t` models of an ensemble made for row
/// `j`, in the order of the models; a model whose predictions stop before
/// row `j` gives none.
pub open spec fn row_votes(per_model: Seq<Vec<usize>>, j: int, t: int) -> Seq<usize>
    decreases t,
{
    if t <= 0 {
        Seq::<usize>::empty()
    } else {
        let r = row_votes(per_model, j, t - 1);
        if j < per_model[t - 1]@.len() {
            r.push(per_model[t - 1]@[j])
        } else {
            r
        }
    }
}

/// What each model that predicts row `j` predicted for it, one vote per
/// such model, in the order of the models.
pub open spec fn model_votes(per_model: Seq<Vec<usize>>, j: int) -> Seq<usize> {
    positions(per_model.len() as int).filter(|t: int| j < per_model[t]@.len()).map_values(
        |t: int| per_model[t]@[j],
    )
}

proof fn lemma_row_votes_prefix(per_model: Seq<Vec<usize>>, j: int, m: int)
    requires
        0 <= m <= per_model.len(),
    ensures
        row_votes(per_model, j, m) == positions(m).filter(|t: int| j < per_model[t]@.len()).map_values(
            |t: int| per_model[t]@[j],
        ),
    decreases m,
{
    broadcast use Seq::lemma_filter_push;

    if m > 0 {
        lemma_row_votes_prefix(per_model, j, m - 1);
        assert(positions(m) == positions(m - 1).push(m - 1));
        let f = positions(m - 1).filter(|t: int| j < per_model[t]@.len());
        assert(f.push(m - 1).map_values(|t: int| per_model[t]@[j]) =~= f.map_values(
            |t: int| per_model[t]@[j],
        ).push(per_model[m - 1]@[j]));
    }
}

/// The votes counted for row `j` are exactly one per model that predicts
/// row `j`: that model's prediction for the row, models in order.
pub proof fn lemma_row_votes_one_per_model(per_model: Seq<Vec<usize>>, j: int)
    ensures
        row_votes(per_model, j, per_model.len() as int) == model_votes(per_model, j),
{
    lemma_row_votes_prefix(per_model, j, per_model.len() as int);
}

/// Some model made a prediction for row `j`.
pub open spec fn row_has_vote(per_model: Seq<Vec<usize>>, j: int) -> bool {
    exists|t: int| 0 <= t < per_model.len() && j < (#[trigger] per_model[t])@.len()
}

proof fn lemma_row_votes_nonempty(per_model: Seq<Vec<usize>>, j: int, t: int, u: int)
    requires
        0 <= u < t <= per_model.len(),
        j < per_model[u]@.len(),
    ensures
        row_votes(per_model, j, t).len() > 0,
    decreases t,
{
    if u < t - 1 {
        lemma_row_votes_nonempty(per_model, j, t - 1, u);
    }
}

/// The ensemble's prediction for each of `n_rows` rows: the majority vote
/// over what the models predicted for that row. `per_model[t][j]` is what
/// model `t` predicted for row `j`; no model predicts past the last row, and
/// every row has a prediction from some model.
pub fn ensemble_predictions(per_model: &Vec<Vec<usize>>, n_rows: usize) -> (preds: Vec<usize>)
    requires
        forall|t: int| 0 <= t < per_model@.len() ==> (#[trigger] per_model@[t])@.len() <= n_rows,
        forall|j: int| 0 <= j < n_rows ==> row_has_vote(per_model@, j),
    ensures
        preds@.len() == n_rows,
        forall|j: int|
            0 <= j < n_rows ==> is_majority(
                row_votes(per_model@, j, per_model@.len() as int),
                #[trigger] preds@[j],
            ),
        forall|j: int|
            0 <= j < n_rows ==> is_majority(model_votes(per_model@, j), #[trigger] preds@[j]),
{
    let m: usize = per_model.len();
    let mut preds: Vec<usize> = Vec::new();
    let mut j: usize = 0;
    while j < n_rows
        invariant
            j <= n_rows,
            m == per_model@.len(),
            forall|j: int| 0 <= j < n_rows ==> row_has_vote(per_model@, j),
            preds@.len() == j,
            forall|k: int|
                0 <= k < j ==> is_majority(row_votes(per_model@, k, m as int), #[trigger] preds@[k]),
        decreases n_rows - j,
    {
        let mut votes: Vec<usize> = Vec::new();
        let mut t: usize = 0;
        while t < m
            invariant
                t <= m,
                m == per_model@.len(),
                votes@ == row_votes(per_model@, j as int, t as int),
            decreases m - t,
        {
            if j < per_model[t].len() {
                let v: usize = per_model[t][j];
                votes.push(v);
            }
            t = t + 1;
        }
        proof {
            assert(row_has_vote(per_model@, j as int));
            let u = choose|u: int| 0 <= u < per_model@.len() && j < (#[trigger] per_model@[u])@.len();
            lemma_row_votes_nonempty(per_model@, j as int, m as int, u);
        }
        let w: usize = majority_vote(&votes);
        preds.push(w);
        j = j + 1;
    }
    proof {
        assert forall|j: int| 0 <= j < n_rows implies is_majority(
            model_votes(per_model@, j),
            #[trigger] preds@[j],
        ) by {
            lemma_row_votes_one_per_model(per_model@, j);
        }
    }
    preds
}

} // verus!
