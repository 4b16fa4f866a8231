use vstd::prelude::*;

verus! {

/// Steepest descent with a custom termination condition: it stops when
/// the cost changes by less than `tol_cost` from one iteration to the next

pub struct SteepestDescent<L, F> {
    /// Line search
    linesearch: L,
    /// Tolerance
    tol_cost: F,
}

impl<L, F> SteepestDescent<L, F> {
    /// The line search
    pub closed spec fn linesearch_spec(&self) -> L {
        self.linesearch
    }

    /// The tolerance of the change in the cost
    pub closed spec fn tol_cost_spec(&self) -> F {
        self.tol_cost
    }

    /// Initialize the struct
    pub fn new(linesearch: L, tol_cost: F) -> (solver: Self)
        ensures
            solver.linesearch_spec() == linesearch,
            solver.tol_cost_spec() == tol_cost,
    {
        SteepestDescent { linesearch, tol_cost }
    }

    /// The line search and the tolerance the solver was made with
    pub fn into_parts(self) -> (parts: (L, F))
        ensures
            parts == (self.linesearch_spec(), self.tol_cost_spec()),
    {
        (self.linesearch, self.tol_cost)
    }
}

} // verus!
