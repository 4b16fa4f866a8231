use vstd::prelude::*;

verus! {

/// Computation goal
#[derive(Clone, Copy, Debug, PartialEq, Eq, Structural)]
pub enum Goal {
    /// Perform per-object computations
    Objects,
    /// Fit the model of the Galaxy to the data
    Fit,
}

} // verus!
