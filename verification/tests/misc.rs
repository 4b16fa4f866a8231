use core::ops::Range;
use pmg::{
    check_discrepancies, first_minimum_below, frozen_param_index, has_several_minima, insert_sigmas,
    local_minimum_brackets, median_positions, remove_frozen_param, select_discrepancy_outliers,
    split_range_bounds, Bounds, FitSchedule, FitStep, Goal, ProfilePoint, ProfileType, RotationCurvePoint,
    SteepestDescent, Triple,
};

#[test]
fn goals_are_distinct() {
    assert_ne!(Goal::Objects, Goal::Fit);
    let g = Goal::Fit;
    let h = g;
    assert_eq!(g, h);
}

#[test]
fn bounds_to_array_keeps_field_order() {
    let bounds = Bounds {
        r_0: 7.0..9.0,
        omega_0: 20.0..40.0,
        a: 10.0..20.0,
        u_sun_standard: 0.0..20.0,
        v_sun_standard: 5.0..25.0,
        w_sun_standard: 0.0..15.0,
        sigma_r: 1.0..20.0,
        sigma_theta: 1.0..10.0,
        sigma_z: 1.0..5.0,
    };
    let array: [Range<f64>; 9] = bounds.to_array();
    assert_eq!(array[0], 7.0..9.0);
    assert_eq!(array[1], 20.0..40.0);
    assert_eq!(array[2], 10.0..20.0);
    assert_eq!(array[3], 0.0..20.0);
    assert_eq!(array[4], 5.0..25.0);
    assert_eq!(array[5], 0.0..15.0);
    assert_eq!(array[6], 1.0..20.0);
    assert_eq!(array[7], 1.0..10.0);
    assert_eq!(array[8], 1.0..5.0);
}

#[test]
fn steepest_descent_keeps_its_parts() {
    let solver = SteepestDescent::new("backtracking", 1e-10_f64);
    assert_eq!(solver.into_parts(), ("backtracking", 1e-10_f64));
}

#[test]
fn triple_and_points_hold_their_values() {
    let t = Triple { observed: 1.5_f64, model: 1.0, error: 0.25 };
    assert_eq!((t.observed - t.model).abs() / t.error, 2.0);
    let p = ProfilePoint { param: 8.15_f64, cost: 3.0 };
    assert_eq!((p.param, p.cost), (8.15, 3.0));
    let r = RotationCurvePoint { r_g: 8.0_f64, theta: 230.0, sigma: 1.0 };
    assert_eq!((r.r_g, r.theta, r.sigma), (8.0, 230.0, 1.0));
}

#[test]
fn brackets_of_local_minima() {
    // Falling, rising, falling, rising: two minima.
    let signs = vec![-1, 1, 1, -1, 0, 1, -1, 1];
    assert_eq!(local_minimum_brackets(&signs), vec![0, 6]);
    assert!(has_several_minima(&signs));
}

#[test]
fn brackets_need_a_strict_change() {
    // A zero (or unknown) sign between falling and rising is no bracket.
    let signs = vec![-1, 0, 1];
    assert!(local_minimum_brackets(&signs).is_empty());
    assert!(!has_several_minima(&signs));
    assert!(local_minimum_brackets(&vec![]).is_empty());
    assert!(local_minimum_brackets(&vec![-1]).is_empty());
    let one = vec![1, -1, 1];
    assert_eq!(local_minimum_brackets(&one), vec![1]);
    assert!(!has_several_minima(&one));
}

#[test]
fn first_minimum_below_the_bound() {
    assert_eq!(first_minimum_below(&vec![5, 3, 7, 3], 100), Some(1));
    assert_eq!(first_minimum_below(&vec![100, 100], 100), None);
    assert_eq!(first_minimum_below(&vec![100, 99], 100), Some(1));
    assert_eq!(first_minimum_below(&vec![], 100), None);
}

#[test]
fn discrepancy_selection_spares_one() {
    // Above 10: (0, 30), (1, 12), (3, 15); the smallest, 12, is spared by
    // swapping it with the last.
    let v = vec![(0, 30), (1, 12), (2, 5), (3, 15)];
    assert_eq!(select_discrepancy_outliers(&v, 10, 20, u64::MAX), vec![(0, 30), (3, 15)]);
    // When the smallest is above k_005 nothing is spared.
    assert_eq!(select_discrepancy_outliers(&v, 10, 11, u64::MAX), vec![(0, 30), (1, 12), (3, 15)]);
    // Keys at or above the bound never count as the smallest.
    assert_eq!(select_discrepancy_outliers(&v, 10, 20, 12), vec![(0, 30), (1, 12), (3, 15)]);
}

#[test]
fn discrepancy_check_marks_objects() {
    let mut outliers = vec![false, false, false];
    let rel = vec![[50, 1, 1, 1], [12, 1, 1, 60], [1, 1, 1, 1]];
    let found = check_discrepancies(&mut outliers, &rel, 10, 20, u64::MAX);
    // Round 0: 50 and 12 above 10; 12 is the smallest and is spared.
    // Round 3: object 1 has 60.
    assert_eq!(found.vec, vec![(0, 0, 50), (3, 1, 60)]);
    assert_eq!(outliers, vec![true, true, false]);
}

#[test]
fn frozen_index_skips_the_sigmas() {
    assert_eq!(frozen_param_index(3, 7), 7);
    assert_eq!(frozen_param_index(1, 5), 5);
    assert_eq!(frozen_param_index(1, 9), 6);
    let mut p = vec![0, 1, 2, 3, 4, 5, 9, 10];
    assert_eq!(remove_frozen_param(&mut p, 1, 10), 10);
    assert_eq!(p, vec![0, 1, 2, 3, 4, 5, 9]);
}

#[test]
fn sigmas_go_back_in_place() {
    let mut p = vec![0.0, 1.0, 2.0, 3.0, 4.0, 5.0, 9.0, 10.0];
    insert_sigmas(&mut p, 6.0, 7.0, 8.0);
    assert_eq!(p, vec![0.0, 1.0, 2.0, 3.0, 4.0, 5.0, 6.0, 7.0, 8.0, 9.0, 10.0]);
    // Law: the parameter at full position 9 sits at position 6 of the
    // vector without the sigmas.
    let short = vec![0.0, 1.0, 2.0, 3.0, 4.0, 5.0, 9.0, 10.0];
    assert_eq!(p[9], short[frozen_param_index(1, 9)]);
    let mut q = vec![0, 1, 2, 3, 4, 5];
    insert_sigmas(&mut q, 6, 7, 8);
    assert_eq!(q, vec![0, 1, 2, 3, 4, 5, 6, 7, 8]);
}

#[test]
fn profile_names() {
    assert_eq!(ProfileType::Conditional.description_prefix(), "Conditional");
    assert_eq!(ProfileType::Frozen.description_prefix(), "Frozen");
    assert_eq!(ProfileType::Conditional.file_prefix(), "conditional");
    assert_eq!(ProfileType::Frozen.file_name("R_0"), "frozen_profile_R_0");
    assert_eq!(ProfileType::Conditional.file_name("theta_sun"), "conditional_profile_theta_sun");
}

#[test]
fn median_positions_of_odd_and_even() {
    assert_eq!(median_positions(1), (0, 0));
    assert_eq!(median_positions(5), (2, 2));
    assert_eq!(median_positions(2), (0, 1));
    assert_eq!(median_positions(6), (2, 3));
}

#[test]
fn range_bounds_split() {
    assert_eq!(split_range_bounds("1..2"), Some(("1".to_string(), "2".to_string())));
    assert_eq!(split_range_bounds("-1.5..2.5"), Some(("-1.5".to_string(), "2.5".to_string())));
    assert_eq!(split_range_bounds("1...2"), Some(("1".to_string(), ".2".to_string())));
    assert_eq!(split_range_bounds("..2"), Some(("".to_string(), "2".to_string())));
    assert_eq!(split_range_bounds("1..2..3"), None);
    assert_eq!(split_range_bounds("1....2"), None);
    assert_eq!(split_range_bounds("12"), None);
    assert_eq!(split_range_bounds(""), None);
}

#[test]
fn schedule_runs_three_then_one() {
    let mut schedule = FitSchedule::new();
    assert_eq!(schedule.current(), FitStep::Fit { l_stroke: 3, sample_iteration: 0 });
    assert_eq!(schedule.outliers_checked(true), FitStep::Fit { l_stroke: 3, sample_iteration: 1 });
    assert_eq!(schedule.outliers_checked(false), FitStep::Finish { l_stroke: 3 });
    // Events that do not fit the step leave the schedule as it is.
    assert_eq!(schedule.outliers_checked(true), FitStep::Finish { l_stroke: 3 });
    assert_eq!(schedule.finished(), FitStep::Fit { l_stroke: 1, sample_iteration: 1 });
    assert_eq!(schedule.finished(), FitStep::Fit { l_stroke: 1, sample_iteration: 1 });
    assert_eq!(schedule.outliers_checked(true), FitStep::Fit { l_stroke: 1, sample_iteration: 2 });
    assert_eq!(schedule.outliers_checked(false), FitStep::Finish { l_stroke: 1 });
    assert_eq!(schedule.finished(), FitStep::Done);
    assert_eq!(schedule.outliers_checked(false), FitStep::Done);
    assert_eq!(schedule.finished(), FitStep::Done);
}
