use core::ops::Range;
use vstd::prelude::*;

verus! {

/// Bounds of the initial parameters
pub struct Bounds<F> {
    /// Bounds of the Galactocentric distance to the Sun (kpc)
    pub r_0: Range<F>,
    /// Bounds of the Circular velocity of the Sun at R = R_0 (km/s/kpc)
    pub omega_0: Range<F>,
    /// Bounds of the Oort's A constant (km/s/kpc)
    pub a: Range<F>,
    /// Bounds of the Standard Solar Motion toward GC (km/s)
    pub u_sun_standard: Range<F>,
    /// Bounds of the Standard Solar Motion toward l = 90 degrees (km/s)
    pub v_sun_standard: Range<F>,
    /// Bounds of the Standard Solar Motion toward NGP (km/s)
    pub w_sun_standard: Range<F>,
    /// Bounds of the radial component of the ellipsoid of natural standard deviations (km/s)
    pub sigma_r: Range<F>,
    /// Bounds of the azimuthal component of the ellipsoid of natural standard deviations (km/s)
    pub sigma_theta: Range<F>,
    /// Bounds of the vertical component of the ellipsoid of natural standard deviations (km/s)
    pub sigma_z: Range<F>,
}

/// A copy of the range.
fn copy_range<F: Copy>(r: &Range<F>) -> (c: Range<F>)
    ensures
        c == *r,
{
    Range { start: r.start, end: r.end }
}

impl<F: Copy> Bounds<F> {
    /// Convert the bounds struct to an array, in the order of the fields
    pub fn to_array(&self) -> (array: [Range<F>; 9])
        ensures
            array@ == seq![
                self.r_0,
                self.omega_0,
                self.a,
                self.u_sun_standard,
                self.v_sun_standard,
                self.w_sun_standard,
                self.sigma_r,
                self.sigma_theta,
                self.sigma_z,
            ],
    {
        let array = [
            copy_range(&self.r_0),
            copy_range(&self.omega_0),
            copy_range(&self.a),
            copy_range(&self.u_sun_standard),
            copy_range(&self.v_sun_standard),
            copy_range(&self.w_sun_standard),
            copy_range(&self.sigma_r),
            copy_range(&self.sigma_theta),
            copy_range(&self.sigma_z),
        ];
        assert(array@ =~= seq![
            self.r_0,
            self.omega_0,
            self.a,
            self.u_sun_standard,
            self.v_sun_standard,
            self.w_sun_standard,
            self.sigma_r,
            self.sigma_theta,
            self.sigma_z,
        ]);
        array
    }
}

} // verus!
