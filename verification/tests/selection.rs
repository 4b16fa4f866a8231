use pmg::{keep_above, select_outliers, sort_by_key, Candidate};

#[test]
fn sort_orders_by_ascending_key() {
    let v: Vec<Candidate> = vec![(0, 7), (1, 2), (2, 9), (3, 4)];
    assert_eq!(sort_by_key(&v), vec![(1, 2), (3, 4), (0, 7), (2, 9)]);
}

#[test]
fn sort_keeps_order_of_equal_keys() {
    let v: Vec<Candidate> = vec![(0, 5), (1, 3), (2, 5), (3, 3), (4, 1)];
    assert_eq!(sort_by_key(&v), vec![(4, 1), (1, 3), (3, 3), (0, 5), (2, 5)]);
}

#[test]
fn sort_of_empty_is_empty() {
    let v: Vec<Candidate> = Vec::new();
    assert!(sort_by_key(&v).is_empty());
}

#[test]
fn keep_above_is_strict() {
    let v: Vec<Candidate> = vec![(0, 3), (1, 4), (2, 5), (3, 4)];
    assert_eq!(keep_above(&v, 4), vec![(2, 5)]);
    assert_eq!(keep_above(&v, 2), v);
}

#[test]
fn select_spares_small_ones_within_limit() {
    // Above kappa = 10: keys 11, 12, 30, 40; sorted: 11, 12, 30, 40.
    // With L' = 3 and k_005 = 20, the entries 11 and 12 are spared.
    let v: Vec<Candidate> = vec![(0, 30), (1, 11), (2, 5), (3, 40), (4, 12)];
    let out = select_outliers(&v, 10, 20, 3);
    // After removing position 1 (12) the last (40) takes its place,
    // after removing position 0 (11) the last (30) takes its place.
    assert_eq!(out, vec![(0, 30), (3, 40)]);
}

#[test]
fn select_respects_the_limit() {
    // Three small ones above kappa, but only L' = 1 may be spared.
    let v: Vec<Candidate> = vec![(0, 11), (1, 12), (2, 13), (3, 50)];
    let out = select_outliers(&v, 10, 20, 1);
    assert_eq!(out, vec![(3, 50), (1, 12), (2, 13)]);
}

#[test]
fn select_rotates_kept_entries_once_per_spared_one() {
    // Sorted: 11, 12, 30, 40, 50; the two smallest are spared.
    let v: Vec<Candidate> = vec![(0, 11), (1, 12), (2, 30), (3, 40), (4, 50)];
    let out = select_outliers(&v, 10, 20, 3);
    assert_eq!(out, vec![(3, 40), (4, 50), (2, 30)]);
}

#[test]
fn select_nothing_above_kappa() {
    let v: Vec<Candidate> = vec![(0, 1), (1, 2)];
    assert!(select_outliers(&v, 10, 20, 3).is_empty());
}

#[test]
fn select_all_spared() {
    let v: Vec<Candidate> = vec![(0, 11), (1, 15)];
    assert!(select_outliers(&v, 10, 20, 3).is_empty());
}

#[test]
fn select_with_zero_limit_keeps_everything_above_kappa() {
    let v: Vec<Candidate> = vec![(0, 11), (1, 15), (2, 3)];
    assert_eq!(select_outliers(&v, 10, 20, 0), vec![(0, 11), (1, 15)]);
}

#[test]
fn select_large_candidates_always_kept() {
    // Law: a candidate above both thresholds is always selected.
    let v: Vec<Candidate> = vec![(0, 100), (1, 11), (2, 12), (3, 200)];
    for limit in 0..6 {
        let out = select_outliers(&v, 10, 20, limit);
        assert!(out.contains(&(0, 100)));
        assert!(out.contains(&(3, 200)));
        // Law: at most `limit` candidates above kappa are spared.
        assert!(out.len() + limit >= 4);
        assert!(out.len() <= 4);
        for c in &out {
            assert!(c.1 > 10);
        }
    }
}
