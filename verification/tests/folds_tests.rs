use tfg_ml::folds::{fold_bounds, split_by_fold};

#[test]
fn fold_bounds_cut_into_equal_folds_with_remainder_last() {
    assert_eq!(fold_bounds(103, 10, 0), (0, 10));
    assert_eq!(fold_bounds(103, 10, 4), (40, 50));
    assert_eq!(fold_bounds(103, 10, 9), (90, 103));
}

#[test]
fn fold_bounds_with_fewer_samples_than_folds() {
    assert_eq!(fold_bounds(5, 10, 3), (0, 0));
    assert_eq!(fold_bounds(5, 10, 9), (0, 5));
}

#[test]
fn folds_cover_every_sample_once() {
    let n = 47;
    let k = 10;
    let mut seen = vec![0usize; n];
    for i in 0..k {
        let (s, e) = fold_bounds(n, k, i);
        for idx in s..e {
            seen[idx] += 1;
        }
    }
    assert!(seen.iter().all(|&c| c == 1));
}

#[test]
fn split_by_fold_separates_test_range() {
    let items: Vec<usize> = (0..10).collect();
    let (train, test) = split_by_fold(&items, 3, 6);
    assert_eq!(test, vec![3, 4, 5]);
    assert_eq!(train, vec![0, 1, 2, 6, 7, 8, 9]);
}

#[test]
fn split_by_fold_with_range_past_the_end() {
    let items = vec![10u32, 20, 30];
    let (train, test) = split_by_fold(&items, 2, 9);
    assert_eq!(test, vec![30]);
    assert_eq!(train, vec![10, 20]);
    let (train, test) = split_by_fold(&items, 5, 2);
    assert!(test.is_empty());
    assert_eq!(train, items);
}

#[test]
fn train_and_test_parts_hold_every_item_once() {
    let items: Vec<usize> = (0..23).collect();
    for (s, e) in [(0, 0), (4, 9), (9, 4), (20, 40), (23, 23)] {
        let (mut train, test) = split_by_fold(&items, s, e);
        train.extend(test);
        train.sort();
        assert_eq!(train, items);
    }
}
