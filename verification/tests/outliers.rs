use pmg::{
    apply_outliers_mask, count_non_outliers, find_four_dimensional_outliers, find_one_dimensional_outliers,
    find_outliers,
};

#[test]
fn count_non_outliers_counts_false_entries() {
    assert_eq!(count_non_outliers(&vec![false, true, false, false]), 3);
    assert_eq!(count_non_outliers(&vec![]), 0);
    assert_eq!(count_non_outliers(&vec![true, true]), 0);
}

#[test]
fn apply_mask_of_same_length_copies_it() {
    let mut outliers = vec![false, true, false];
    let mask = vec![true, false, false];
    apply_outliers_mask(&mut outliers, &mask);
    assert_eq!(outliers, mask);
}

#[test]
fn apply_shorter_mask_keeps_the_rest() {
    let mut outliers = vec![false, true, true];
    apply_outliers_mask(&mut outliers, &vec![true]);
    assert_eq!(outliers, vec![true, true, true]);
    let mut outliers = vec![false, false];
    apply_outliers_mask(&mut outliers, &vec![true, true, true]);
    assert_eq!(outliers, vec![true, true]);
}

#[test]
fn one_dimensional_marks_in_turn() {
    // Object 0 is large in discrepancy 0, object 2 in discrepancy 1.
    // Object 1 is already an outlier and is never reported.
    let mut outliers = vec![false, true, false, false];
    let rel = vec![[50, 1, 1, 1], [90, 90, 90, 90], [1, 60, 1, 1], [1, 1, 1, 1]];
    let found = find_one_dimensional_outliers(&mut outliers, &rel, 10, 20, 3);
    assert_eq!(found.vec, vec![(0, 0, 50), (1, 2, 60)]);
    assert_eq!(found.kappa, 10);
    assert_eq!(found.k_005, 20);
    assert_eq!(outliers, vec![true, true, true, false]);
}

#[test]
fn one_dimensional_later_rounds_skip_earlier_outliers() {
    // Object 0 is large in every discrepancy but is reported once only.
    let mut outliers = vec![false, false];
    let rel = vec![[50, 50, 50, 50], [1, 1, 1, 1]];
    let found = find_one_dimensional_outliers(&mut outliers, &rel, 10, 20, 3);
    assert_eq!(found.vec, vec![(0, 0, 50)]);
    assert_eq!(outliers, vec![true, false]);
}

#[test]
fn one_dimensional_spares_small_ones() {
    let mut outliers = vec![false, false, false];
    let rel = vec![[15, 1, 1, 1], [16, 1, 1, 1], [1, 1, 1, 1]];
    let found = find_one_dimensional_outliers(&mut outliers, &rel, 10, 20, 3);
    assert!(found.vec.is_empty());
    assert_eq!(outliers, vec![false, false, false]);
}

#[test]
fn four_dimensional_marks_large_sums() {
    let mut outliers = vec![false, false, true, false];
    let summed = vec![100, 3, 500, 16];
    let found = find_four_dimensional_outliers(&mut outliers, &summed, 15, 20, 3);
    // Above 15: (0, 100), (3, 16); sorted: 16, 100; 16 is spared.
    assert_eq!(found.vec, vec![(0, 100)]);
    assert_eq!(outliers, vec![true, false, true, false]);
}

#[test]
fn find_outliers_runs_both_algorithms() {
    let mut outliers = vec![false, false, false];
    let rel = vec![[50, 1, 1, 1], [1, 1, 1, 1], [1, 1, 1, 1]];
    let summed = vec![1000, 1, 900];
    let (one, four) = find_outliers(&mut outliers, &rel, &summed, 10, 20, 30, 40, 3);
    assert_eq!(one.vec, vec![(0, 0, 50)]);
    // Object 0 is already an outlier when the four-dimensional check runs.
    assert_eq!(four.vec, vec![(2, 900)]);
    assert_eq!((four.kappa, four.k_005), (30, 40));
    assert_eq!(outliers, vec![true, false, true]);
}

#[test]
fn find_outliers_progress_law() {
    // Law: a check that finds no outliers leaves the mask as it was;
    // one that finds some leaves fewer non-outliers.
    let rel = vec![[50, 1, 1, 1], [1, 1, 1, 1], [12, 1, 1, 1]];
    let summed = vec![1, 1, 1];
    let mut outliers = vec![false, false, false];
    let before = count_non_outliers(&outliers);
    let (one, four) = find_outliers(&mut outliers, &rel, &summed, 10, 20, 30, 40, 3);
    assert!(!one.vec.is_empty() || !four.vec.is_empty());
    assert!(count_non_outliers(&outliers) < before);
    let snapshot = outliers.clone();
    let (one, four) = find_outliers(&mut outliers, &rel, &summed, 10, 20, 30, 40, 3);
    assert!(one.vec.is_empty() && four.vec.is_empty());
    assert_eq!(outliers, snapshot);
}

#[test]
fn find_outliers_handles_unequal_lengths() {
    let mut outliers = vec![false, false, false];
    let rel = vec![[50, 1, 1, 1]];
    let summed: Vec<u64> = vec![];
    let (one, four) = find_outliers(&mut outliers, &rel, &summed, 10, 20, 30, 40, 3);
    assert_eq!(one.vec, vec![(0, 0, 50)]);
    assert!(four.vec.is_empty());
    assert_eq!(outliers, vec![true, false, false]);
}
