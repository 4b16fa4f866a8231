use vstd::prelude::*;

verus! {

/// A point on the rotation curve
#[derive(Debug)]
pub struct RotationCurvePoint<F> {
    /// Galactocentric distance [kpc]
    pub r_g: F,
    /// Azimuthal velocity [km/s]
    pub theta: F,
    /// Confidence interval error
    pub sigma: F,
}

} // verus!
