use crate::attr::Attrs;
use crate::error::Failure;
use crate::number::Number;
use crate::params::Params;
use vstd::prelude::*;

verus! {

/// Which way an objective is to be improved.
#[derive(Clone, Copy, Debug, PartialEq, Eq, Structural)]
pub enum Direction {
    Minimize,
    Maximize,
}

/// The study and the trial that a sample is drawn for.
#[derive(Debug)]
pub struct Context {
    pub study_id: u32,
    pub trial_id: u32,
    pub directions: Vec<Direction>,
}

/// The state of a trial, with its objective values once it is complete.
#[derive(Debug)]
pub enum TrialStateValues {
    Running,
    Waiting,
    Complete(Vec<Number>),
    Pruned,
    Fail,
}

/// The constraint values of a trial, and the sum of those among them that are positive.
///
/// [`positive_constraints`](crate::dominance::positive_constraints) lists the terms of the sum.
#[derive(Debug)]
pub struct Constraints {
    pub values: Vec<Number>,
    pub violation: Number,
}

/// A trial as the storage knows it.
#[derive(Debug)]
pub struct PersistedTrial {
    pub id: u32,
    pub study_id: u32,
    pub number: u32,
    pub state_values: TrialStateValues,
    pub attrs: Attrs,
    /// The constraints, or why they cannot be read.
    pub constraints: Result<Constraints, Failure>,
    pub internal_params: Params,
}

/// The trial with the given number, unless it is out of range or was discarded.
pub open spec fn trial_at(trials: Seq<Option<PersistedTrial>>, number: u32) -> Option<
    PersistedTrial,
> {
    if number < trials.len() {
        trials[number as int]
    } else {
        None
    }
}

/// Looks a trial up by its number.
pub fn find_trial(trials: &[Option<PersistedTrial>], number: u32) -> (found: Option<
    &PersistedTrial,
>)
    ensures
        found is Some <==> trial_at(trials@, number) is Some,
        found matches Some(trial) ==> Some(*trial) == trial_at(trials@, number),
{
    if (number as usize) < trials.len() {
        match &trials[number as usize] {
            Some(trial) => Some(trial),
            None => None,
        }
    } else {
        None
    }
}

/// Trials are found by their number, which is their place in the list.
pub proof fn law_trials_are_found_by_their_place(trials: Seq<Option<PersistedTrial>>, number: u32)
    ensures
        number < trials.len() ==> trial_at(trials, number) == trials[number as int],
        number >= trials.len() ==> trial_at(trials, number) is None,
{
}

} // verus!
