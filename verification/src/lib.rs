//! Verified core of a program that infers the parameters of the Galaxy
//! by optimising over its parametric model: the decisions that do not
//! depend on floating-point arithmetic, over plain integer values.
//!
//! Values that the program computes in floating point (discrepancies,
//! costs) reach this library as order keys: unsigned integers ordered as
//! the values they stand for.

pub mod bounds;
pub mod cli;
pub mod discrepancies;
pub mod goal;
pub mod inner;
pub mod ordering;
pub mod outliers;
pub mod parallaxes;
pub mod params;
pub mod profiles;
pub mod rotcurve;
pub mod schedule;
pub mod selection;
pub mod steepest_descent;

pub use bounds::Bounds;
pub use cli::split_range_bounds;
pub use discrepancies::{check_discrepancies, first_minimum_below, select_discrepancy_outliers};
pub use goal::Goal;
pub use inner::{has_several_minima, local_minimum_brackets, Triple};
pub use ordering::{keep_above, sort_by_key, Candidate};
pub use outliers::{
    apply_outliers_mask, count_non_outliers, find_four_dimensional_outliers, find_one_dimensional_outliers,
    find_outliers, FourDimensionalOutliers, OneDimensionalOutliers,
};
pub use parallaxes::median_positions;
pub use params::{frozen_param_index, insert_sigmas, remove_frozen_param, SIGMAS_N, SIGMA_POSITION};
pub use profiles::{ProfilePoint, ProfileType};
pub use rotcurve::RotationCurvePoint;
pub use schedule::{FitSchedule, FitStep};
pub use selection::select_outliers;
pub use steepest_descent::SteepestDescent;
