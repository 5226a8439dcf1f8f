use tfg_ml::metrics::count_correct;
use tfg_ml::vote::{ensemble_predictions, majority_vote};

#[test]
fn majority_vote_picks_the_most_frequent() {
    assert_eq!(majority_vote(&vec![1, 2, 2, 3]), 2);
    assert_eq!(majority_vote(&vec![7, 7, 0, 0, 0]), 0);
}

#[test]
fn majority_vote_of_one_prediction() {
    assert_eq!(majority_vote(&vec![5]), 5);
}

#[test]
fn majority_vote_on_a_tie_picks_one_of_the_tied() {
    let w = majority_vote(&vec![1, 2, 2, 1, 3]);
    assert!(w == 1 || w == 2);
}

#[test]
fn ensemble_predictions_vote_per_row() {
    let per_model = vec![vec![0, 1, 1], vec![0, 0, 1], vec![1, 0, 1]];
    assert_eq!(ensemble_predictions(&per_model, 3), vec![0, 0, 1]);
}

#[test]
fn ensemble_of_no_rows_is_empty() {
    let per_model: Vec<Vec<usize>> = vec![vec![], vec![]];
    assert!(ensemble_predictions(&per_model, 0).is_empty());
}

#[test]
fn count_correct_counts_equal_positions() {
    assert_eq!(count_correct(&vec![1, 2, 3], &vec![1, 0, 3]), 2);
}

#[test]
fn count_correct_stops_at_the_shorter() {
    assert_eq!(count_correct(&vec![1, 2, 3], &vec![1, 2, 3, 4, 5]), 3);
    assert_eq!(count_correct(&vec![], &vec![1]), 0);
}

#[test]
fn ensemble_with_models_that_stop_early() {
    let per_model = vec![vec![1, 2], vec![3], vec![3, 2]];
    assert_eq!(ensemble_predictions(&per_model, 2), vec![3, 2]);
}

