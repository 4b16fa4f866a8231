use vstd::prelude::*;

verus! {

/// What the fit does next
#[derive(Clone, Copy, Debug, PartialEq, Eq, Structural)]
pub enum FitStep {
    /// Fit every model with this `L'`, then check the best one for outliers
    Fit {
        /// The `L'` of the run
        l_stroke: usize,
        /// The number of the sample: how many checks found outliers before
        sample_iteration: usize,
    },
    /// No outliers are left for this `L'`: run the work that follows the fit
    Finish {
        /// The `L'` of the run
        l_stroke: usize,
    },
    /// The runs for every `L'` are done
    Done,
}

/// The `L'` of the runs, in order: 3 first, then 1.
pub open spec fn l_stroke_of_stage(stage: nat) -> usize {
    if stage == 0 {
        3
    } else {
        1
    }
}

/// The schedule of the fit: for `L'` = 3 and then `L'` = 1, the models
/// are fitted again and again, one sample after another, until the best
/// model shows no outliers; then the post-fit work for that `L'` runs.
/// The numbering of the samples goes on across the runs.
pub struct FitSchedule {
    /// 0 for the run with `L'` = 3, 1 for the run with `L'` = 1, 2 when done
    stage: usize,
    /// The number of the current sample
    sample_iteration: usize,
    /// Is the post-fit work of the current run due?
    finishing: bool,
}

impl FitSchedule {
    /// The stage of the schedule: the index of the current run, or 2 when done.
    pub closed spec fn stage_spec(&self) -> nat {
        self.stage as nat
    }

    /// The number of the current sample.
    pub closed spec fn sample_iteration_spec(&self) -> usize {
        self.sample_iteration
    }

    /// The step that the schedule stands at.
    pub closed spec fn step_spec(&self) -> FitStep {
        if self.stage >= 2 {
            FitStep::Done
        } else if self.finishing {
            FitStep::Finish { l_stroke: l_stroke_of_stage(self.stage as nat) }
        } else {
            FitStep::Fit {
                l_stroke: l_stroke_of_stage(self.stage as nat),
                sample_iteration: self.sample_iteration,
            }
        }
    }

    /// A new schedule: the first sample of the run with `L'` = 3.
    pub fn new() -> (schedule: Self)
        ensures
            schedule.step_spec() == (FitStep::Fit { l_stroke: 3, sample_iteration: 0 }),
            schedule.stage_spec() == 0,
            schedule.sample_iteration_spec() == 0,
    {
        FitSchedule { stage: 0, sample_iteration: 0, finishing: false }
    }

    /// The step that the schedule stands at.
    pub fn current(&self) -> (step: FitStep)
        ensures
            step == self.step_spec(),
    {
        if self.stage >= 2 {
            FitStep::Done
        } else if self.finishing {
            FitStep::Finish { l_stroke: if self.stage == 0 { 3 } else { 1 } }
        } else {
            FitStep::Fit {
                l_stroke: if self.stage == 0 { 3 } else { 1 },
                sample_iteration: self.sample_iteration,
            }
        }
    }

    /// Records the outcome of the check for outliers that ends a fit:
    /// when outliers were found, the next sample of the same run is due;
    /// otherwise the post-fit work of the run. At any other step the
    /// schedule stays as it is.
    pub fn outliers_checked(&mut self, found: bool) -> (step: FitStep)
        requires
            found ==> old(self).sample_iteration_spec() < usize::MAX,
        ensures
            step == final(self).step_spec(),
            final(self).stage_spec() == old(self).stage_spec(),
            old(self).step_spec() matches FitStep::Fit { l_stroke, sample_iteration } ==> {
                if found {
                    &&& step == (FitStep::Fit { l_stroke, sample_iteration: (sample_iteration + 1) as usize })
                    &&& final(self).sample_iteration_spec() == old(self).sample_iteration_spec() + 1
                } else {
                    &&& step == (FitStep::Finish { l_stroke })
                    &&& final(self).sample_iteration_spec() == old(self).sample_iteration_spec()
                }
            },
            !(old(self).step_spec() is Fit) ==> *final(self) == *old(self),
    {
        if self.stage < 2 && !self.finishing {
            if found {
                self.sample_iteration = self.sample_iteration + 1;
            } else {
                self.finishing = true;
            }
        }
        self.current()
    }

    /// Records that the post-fit work of the run is done: the first sample
    /// of the run with `L'` = 1 follows the run with `L'` = 3, and the
    /// schedule ends after it. At any other step the schedule stays as it is.
    pub fn finished(&mut self) -> (step: FitStep)
        ensures
            step == final(self).step_spec(),
            final(self).sample_iteration_spec() == old(self).sample_iteration_spec(),
            old(self).step_spec() matches FitStep::Finish { l_stroke } ==> {
                &&& final(self).stage_spec() == old(self).stage_spec() + 1
                &&& l_stroke == 3 ==> step == (FitStep::Fit {
                    l_stroke: 1,
                    sample_iteration: old(self).sample_iteration_spec(),
                })
                &&& l_stroke == 1 ==> step == FitStep::Done
            },
            !(old(self).step_spec() is Finish) ==> *final(self) == *old(self),
    {
        if self.stage < 2 && self.finishing {
            self.stage = self.stage + 1;
            self.finishing = false;
        }
        self.current()
    }
}

} // verus!
