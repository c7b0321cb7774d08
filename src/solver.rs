use vstd::prelude::*;
use crate::construct::{greedy_done, greedy_run};
use crate::problem::{mask_of, Problem};
use crate::random_search::seeded_rng;
use crate::random_search::is_move_chain;
use crate::search::{is_best_swap_chain, swapped};
use crate::state::SolutionState;

verus! {

/// How the constructed selection is refined.
#[derive(Clone, Copy, Debug, PartialEq, Eq, Structural)]
pub enum Strategy {
    /// Best-improvement search over one-for-one trades, to a local optimum.
    BestSwap,
    /// Randomized first-improvement search over adds, removes and trades.
    Randomized,
}

/// Effort bounds of the randomized search.
#[derive(Clone, Copy, Debug, PartialEq, Eq, Structural)]
pub struct Hyperparameters {
    pub max_iterations: usize,
    pub num_trials_per_iteration: usize,
}

impl Default for Hyperparameters {
    fn default() -> (r: Hyperparameters)
        ensures
            r.max_iterations == 100,
            r.num_trials_per_iteration == 500,
    {
        Hyperparameters { max_iterations: 100, num_trials_per_iteration: 500 }
    }
}

impl Hyperparameters {
    pub open spec fn is_positive(&self) -> bool {
        self.max_iterations > 0 && self.num_trials_per_iteration > 0
    }
}

#[derive(Clone, Copy, Debug, PartialEq, Eq, Structural)]
pub enum SolveError {
    /// The instance's lengths disagree, its matrix is not square, or it is
    /// too large.
    InvalidProblem,
    /// An iteration or trial count is zero.
    InvalidHyperparameters,
}

/// No trade of one selected item for one unselected item that keeps the
/// selection within the budget raises its total value.
pub open spec fn swap_optimal(p: &Problem, m: Seq<bool>) -> bool {
    forall|i: int, o: int|
        0 <= i < p.n() && 0 <= o < p.n() && m[i] && !m[o] && p.total_weight(m) - p.weights@[i]
            + p.weights@[o] <= p.max_weight ==> #[trigger] p.total_value(swapped(m, i, o))
            <= p.total_value(m)
}

/// No unselected item can be added: it either exceeds the remaining budget,
/// or weighs nothing and would not raise the value.
pub open spec fn saturated(p: &Problem, m: Seq<bool>) -> bool {
    forall|k: int|
        0 <= k < p.n() && !#[trigger] m[k] ==> p.total_weight(m) + p.weights@[k] > p.max_weight || (
        p.weights@[k] == 0 && p.values@[k] + p.gain(k, m) <= 0)
}

/// The number of rounds the randomized search may make.
pub open spec fn rounds_of(h: Option<Hyperparameters>) -> int {
    match h {
        Some(h) => h.max_iterations as int,
        None => 100,
    }
}

/// `m` is what the greedy construction makes: the selection of a finished
/// greedy run.
pub open spec fn is_greedy_result(p: &Problem, m: Seq<bool>) -> bool {
    exists|picks: Seq<usize>|
        greedy_run(p, picks) && greedy_done(p, picks) && #[trigger] mask_of(p.n(), picks) == m
}

/// Solves one instance: greedy construction, then the chosen refinement.
/// Returns the selected item indices in increasing order; their weights sum
/// to at most the budget.
pub fn solve_challenge(
    problem: &Problem,
    strategy: Strategy,
    seed: [u8; 32],
    hyperparameters: Option<Hyperparameters>,
) -> (r: Result<Vec<usize>, SolveError>)
    ensures
        !problem.wf() ==> r == Err::<Vec<usize>, SolveError>(SolveError::InvalidProblem),
        problem.wf() && (hyperparameters matches Some(h) && !h.is_positive()) ==> r == Err::<
            Vec<usize>,
            SolveError,
        >(SolveError::InvalidHyperparameters),
        problem.wf() && !(hyperparameters matches Some(h) && !h.is_positive()) ==> r is Ok,
        r matches Ok(items) ==> {
            &&& forall|a: int, b: int| 0 <= a < b < items@.len() ==> items@[a] < items@[b]
            &&& forall|x: int| 0 <= x < items@.len() ==> (items@[x] as int) < problem.n()
            &&& problem.feasible(mask_of(problem.n(), items@))
            &&& exists|picks: Seq<usize>|
                {
                    &&& greedy_run(problem, picks)
                    &&& greedy_done(problem, picks)
                    &&& problem.feasible(mask_of(problem.n(), picks))
                    &&& saturated(problem, mask_of(problem.n(), picks))
                    &&& problem.total_value(mask_of(problem.n(), items@)) >= #[trigger] problem.total_value(
                        mask_of(problem.n(), picks),
                    )
                    &&& (problem.total_value(mask_of(problem.n(), items@)) > problem.total_value(
                        mask_of(problem.n(), picks),
                    ) || mask_of(problem.n(), items@) == mask_of(problem.n(), picks))
                }
            &&& strategy == Strategy::BestSwap ==> swap_optimal(
                problem,
                mask_of(problem.n(), items@),
            )
            &&& strategy == Strategy::BestSwap ==> exists|path: Seq<Seq<bool>>|
                {
                    &&& is_best_swap_chain(problem, path)
                    &&& is_greedy_result(problem, path[0])
                    &&& #[trigger] path.last() == mask_of(problem.n(), items@)
                }
            &&& strategy == Strategy::Randomized ==> exists|path: Seq<Seq<bool>>|
                {
                    &&& is_move_chain(problem, path)
                    &&& path.len() <= rounds_of(hyperparameters) + 1
                    &&& is_greedy_result(problem, path[0])
                    &&& #[trigger] path.last() == mask_of(problem.n(), items@)
                }
        },
{
    if !problem.is_valid() {
        return Err(SolveError::InvalidProblem);
    }
    let hp = match hyperparameters {
        Some(h) => {
            if h.max_iterations == 0 || h.num_trials_per_iteration == 0 {
                return Err(SolveError::InvalidHyperparameters);
            }
            h
        },
        None => Hyperparameters::default(),
    };
    let mut state = SolutionState::construct(problem);
    let ghost m0 = state.selected@;
    proof {
        assert forall|k: int| 0 <= k < problem.n() && !#[trigger] m0[k] implies problem.total_weight(m0)
            + problem.weights@[k] > problem.max_weight || (problem.weights@[k] == 0
            && problem.values@[k] + problem.gain(k, m0) <= 0) by {
            assert(!state.selected@[k]);
        }
    }
    match strategy {
        Strategy::BestSwap => {
            state.swap_search(problem);
        },
        Strategy::Randomized => {
            let mut rng = seeded_rng(seed);
            state.random_search(problem, &mut rng, hp.max_iterations, hp.num_trials_per_iteration);
        },
    }
    let items = state.selection();
    proof {
        let m = mask_of(problem.n(), items@);
        assert(m =~= state.selected@) by {
            assert forall|i: int| 0 <= i < problem.n() implies m[i] == state.selected@[i] by {
                if items@.contains(i as usize) {
                    let x = choose|x: int| 0 <= x < items@.len() && items@[x] == i as usize;
                    assert(state.selected@[items@[x] as int]);
                }
            }
        }
        let picks = choose|picks: Seq<usize>|
            greedy_run(problem, picks) && greedy_done(problem, picks) && #[trigger] mask_of(
                problem.n(),
                picks,
            ) == m0;
        assert(problem.total_value(m) >= problem.total_value(mask_of(problem.n(), picks)));
        assert(is_greedy_result(problem, m0));
        if strategy == Strategy::BestSwap {
            assert forall|i: int, o: int|
                0 <= i < problem.n() && 0 <= o < problem.n() && m[i] && !m[o] && problem.total_weight(m)
                    - problem.weights@[i] + problem.weights@[o] <= problem.max_weight implies #[trigger] problem.total_value(
                swapped(m, i, o),
            ) <= problem.total_value(m) by {
                assert(state.swap_fits(problem, i, o));
            }
        }
    }
    Ok(items)
}

} // verus!
