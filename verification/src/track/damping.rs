//! The control of a damped least-squares solve: which steps are accepted, when
//! the damping changes and when the solve is over.
//!
//! The linear algebra works outside. Costs are given as sort keys, so that a
//! smaller key is a smaller cost.

use vstd::prelude::*;

verus! {

/// What came of trying one step.
#[derive(Debug, Clone, Copy, PartialEq, Eq, Structural)]
pub enum Trial {
    /// The damped system has no solution.
    Unsolvable,
    /// There is a candidate of the given cost. `usable` says whether enough
    /// measurements support it, `settles` whether its decrease of the cost is
    /// below the tolerance.
    Candidate { usable: bool, cost: u64, settles: bool },
}

/// What is done with the damping after a trial.
#[derive(Debug, Clone, Copy, PartialEq, Eq, Structural)]
pub enum Damping {
    /// The step was taken: damp less.
    Shrink,
    /// The step was not taken: damp more.
    Grow,
}

/// A damped solve.
#[derive(Debug)]
pub struct DampedSolve {
    /// Most accepted steps.
    max_iterations: usize,
    /// Most trials in a row without an accepted step.
    max_trials: usize,
    /// Trials since the last accepted step.
    trials: usize,
    /// The cost before the first step and after each accepted one.
    history: Vec<u64>,
    /// Whether the solve ended before the iteration cap.
    converged: bool,
}

/// The state of a damped solve.
pub struct SolveState {
    pub max_iterations: nat,
    pub max_trials: nat,
    pub trials: nat,
    pub history: Seq<u64>,
    pub converged: bool,
}

impl View for DampedSolve {
    type V = SolveState;

    closed spec fn view(&self) -> SolveState {
        SolveState {
            max_iterations: self.max_iterations as nat,
            max_trials: self.max_trials as nat,
            trials: self.trials as nat,
            history: self.history@,
            converged: self.converged,
        }
    }
}

impl SolveState {
    /// Accepted steps.
    pub open spec fn accepted(self) -> int {
        self.history.len() - 1
    }

    /// The cost at the current solution.
    pub open spec fn cost(self) -> u64 {
        self.history.last()
    }

    /// Whether another trial is due.
    pub open spec fn is_running(self) -> bool {
        !self.converged && self.accepted() < self.max_iterations
    }

    /// The history starts with the initial cost, and every accepted step lowered
    /// the cost.
    pub open spec fn wf(self) -> bool {
        &&& self.history.len() >= 1
        &&& self.accepted() <= self.max_iterations
        &&& self.max_trials >= 1
        &&& self.trials < self.max_trials || self.converged
        &&& forall|i: int, j: int|
            #![trigger self.history[i], self.history[j]]
            0 <= i < j < self.history.len() ==> self.history[j] < self.history[i]
    }
}

/// Whether a trial gives a step that is taken.
pub open spec fn is_accepted(state: SolveState, trial: Trial) -> bool {
    trial matches Trial::Candidate { usable, cost, .. } && usable && cost < state.cost()
}

/// The state once `trial` has been made.
pub open spec fn after_trial(state: SolveState, trial: Trial) -> SolveState {
    match trial {
        Trial::Candidate { usable, cost, settles } if usable && cost < state.cost() => SolveState {
            trials: 0,
            history: state.history.push(cost),
            converged: settles,
            ..state
        },
        _ => SolveState {
            trials: state.trials + 1,
            converged: state.trials + 1 >= state.max_trials,
            ..state
        },
    }
}

impl DampedSolve {
    /// Start from a solution of the given cost.
    pub fn start(cost: u64, max_iterations: usize, max_trials: usize) -> (solve: DampedSolve)
        requires
            1 <= max_trials,
        ensures
            solve@.wf(),
            solve@ == (SolveState {
                max_iterations: max_iterations as nat,
                max_trials: max_trials as nat,
                trials: 0,
                history: seq![cost],
                converged: false,
            }),
    {
        let mut history: Vec<u64> = Vec::new();
        history.push(cost);
        assert(history@ =~= seq![cost]);
        DampedSolve { max_iterations, max_trials, trials: 0, history, converged: false }
    }

    /// Whether another trial is due.
    pub fn is_running(&self) -> (running: bool)
        requires
            self@.wf(),
        ensures
            running == self@.is_running(),
    {
        !self.converged && self.history.len() - 1 < self.max_iterations
    }

    /// Take note of a trial and say how to change the damping.
    pub fn record(&mut self, trial: Trial) -> (damping: Damping)
        requires
            old(self)@.wf(),
            old(self)@.is_running(),
        ensures
            final(self)@.wf(),
            final(self)@ == after_trial(old(self)@, trial),
            damping == (if is_accepted(old(self)@, trial) {
                Damping::Shrink
            } else {
                Damping::Grow
            }),
    {
        let last: u64 = self.history[self.history.len() - 1];
        let ghost before = self@;
        let taken: Option<(u64, bool)> = match trial {
            Trial::Unsolvable => None,
            Trial::Candidate { usable, cost, settles } => {
                if usable && cost < last {
                    Some((cost, settles))
                } else {
                    None
                }
            },
        };
        match taken {
            Some(step) => {
                self.history.push(step.0);
                self.trials = 0;
                self.converged = step.1;
                proof {
                    assert forall|i: int, j: int|
                        #![trigger self@.history[i], self@.history[j]]
                        0 <= i < j < self@.history.len() implies self@.history[j]
                        < self@.history[i] by {
                        let n = before.history.len() as int;
                        if j == n && i < n - 1 {
                            assert(before.history[n - 1] < before.history[i]);
                        } else if j < n {
                            assert(before.history[j] < before.history[i]);
                        }
                    }
                }
                Damping::Shrink
            },
            None => {
                self.trials = self.trials + 1;
                if self.trials >= self.max_trials {
                    self.converged = true;
                }
                Damping::Grow
            },
        }
    }

    /// Accepted steps.
    pub fn accepted(&self) -> (n: usize)
        requires
            self@.wf(),
        ensures
            n == self@.accepted(),
    {
        self.history.len() - 1
    }

    /// Whether the solve ended before the iteration cap.
    pub fn converged(&self) -> (converged: bool)
        ensures
            converged == self@.converged,
    {
        self.converged
    }

    /// The cost before the first step and after each accepted one.
    pub fn history(&self) -> (history: &[u64])
        ensures
            history@ == self@.history,
    {
        self.history.as_slice()
    }
}

/// The cost never increases: at every moment it is at most what it was at the
/// start and after any earlier step.
pub proof fn law_cost_never_increases(state: SolveState, i: int)
    requires
        state.wf(),
        0 <= i < state.history.len(),
    ensures
        state.cost() <= state.history[i],
{
    if i < state.history.len() - 1 {
        assert(state.history[state.history.len() - 1] < state.history[i]);
    }
}

/// What is still to be spent: accepted steps and, within each, trials.
pub open spec fn trials_left(state: SolveState) -> int {
    if state.is_running() {
        (state.max_iterations - state.accepted()) * state.max_trials - state.trials
    } else {
        0
    }
}

/// A solve ends: every trial brings it nearer to its end.
pub proof fn law_solve_ends(state: SolveState, trial: Trial)
    requires
        state.wf(),
        state.is_running(),
    ensures
        0 <= trials_left(after_trial(state, trial)) < trials_left(state),
{
    let left = state.max_iterations - state.accepted();
    let m = state.max_trials as int;
    assert(left >= 1);
    assert(left * m >= m) by (nonlinear_arith)
        requires
            left >= 1,
            m >= 1,
    ;
    assert((left - 1) * m == left * m - m) by (nonlinear_arith);
    let next = after_trial(state, trial);
    if is_accepted(state, trial) {
        assert(next.accepted() == state.accepted() + 1);
        if next.is_running() {
            assert((left - 1) * m >= m) by (nonlinear_arith)
                requires
                    left - 1 >= 1,
                    m >= 1,
            ;
        }
    }
}

/// A step is taken exactly when enough measurements support it and it lowers the cost.
/// It then is one more step, the trials start anew, and the solve is over if it
/// settles. Any other trial leaves the solution, and the solve is over when there have
/// been too many of them in a row.
pub proof fn law_only_improvements_are_taken(state: SolveState, trial: Trial)
    requires
        state.wf(),
        state.is_running(),
    ensures
        ({
            let next = after_trial(state, trial);
            let good = trial matches Trial::Candidate { usable, cost, .. } && usable && cost
                < state.history.last();
            &&& is_accepted(state, trial) == good
            &&& good ==> next.history == state.history.push(trial->cost) && next.trials == 0
                && next.converged == trial->settles
            &&& !good ==> next.history == state.history && next.trials == state.trials + 1
                && next.converged == (state.trials + 1 == state.max_trials)
            &&& next.max_iterations == state.max_iterations && next.max_trials == state.max_trials
        }),
{
}

/// A solve goes on until it has converged or has taken as many steps as it may.
pub proof fn law_solve_goes_on_until_it_is_done(state: SolveState)
    ensures
        state.is_running() <==> !state.converged && state.history.len() <= state.max_iterations,
        state.accepted() == state.history.len() - 1,
        state.history.len() > 0 ==> state.cost() == state.history[state.history.len() - 1],
{
}

} // verus!
