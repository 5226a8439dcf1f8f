use tfg_ml::classes::{binary_classes, to_classes, to_signs};
use tfg_ml::sampling::{bootstrap_sample, gather, indices_upto, shuffled_order};

#[test]
fn binary_classes_finds_the_two_classes() {
    assert_eq!(binary_classes(&vec![3, 1, 1, 3]), Some((1, 3)));
}

#[test]
fn binary_classes_rejects_other_counts() {
    assert_eq!(binary_classes(&vec![2, 2]), None);
    assert_eq!(binary_classes(&vec![1, 2, 3]), None);
    assert_eq!(binary_classes(&vec![]), None);
}

#[test]
fn signs_and_back() {
    let ys = vec![4, 9, 9, 4];
    let s = to_signs(&ys, 4);
    assert_eq!(s, vec![-1, 1, 1, -1]);
    assert_eq!(to_classes(&s, 4, 9), ys);
    assert_eq!(to_classes(&vec![0, -3, 2], 4, 9), vec![9, 4, 9]);
}

fn is_permutation(v: &[usize], n: usize) -> bool {
    let mut seen = vec![false; n];
    v.len() == n && v.iter().all(|&i| i < n && !std::mem::replace(&mut seen[i], true))
}

#[test]
fn shuffled_order_is_a_permutation() {
    let mut rng = rand::thread_rng();
    assert!(is_permutation(&shuffled_order(50, &mut rng), 50));
    assert!(shuffled_order(0, &mut rng).is_empty());
}

#[test]
fn bootstrap_sample_is_a_permutation() {
    let mut rng = rand::thread_rng();
    assert!(is_permutation(&bootstrap_sample(33, &mut rng), 33));
}

#[test]
fn indices_upto_counts_up() {
    assert_eq!(indices_upto(4), vec![0, 1, 2, 3]);
}

#[test]
fn gather_picks_positions() {
    assert_eq!(gather(&vec![10, 20, 30], &vec![2, 0, 2]), vec![30, 10, 30]);
}

#[test]
fn shuffled_order_actually_reorders() {
    let mut rng = rand::thread_rng();
    let order = shuffled_order(1000, &mut rng);
    assert_ne!(order, indices_upto(1000));
}

#[test]
fn bootstrap_sample_actually_reorders() {
    let mut rng = rand::thread_rng();
    let sample = bootstrap_sample(1000, &mut rng);
    assert_ne!(sample, indices_upto(1000));
}

#[test]
fn sign_round_trip_gives_labels_back() {
    let ys = vec![0, 1, 1, 0, 1];
    assert_eq!(to_classes(&to_signs(&ys, 0), 0, 1), ys);
}
