use rand::rngs::SmallRng;
use rand::SeedableRng;
use qkp_solver::problem::Problem;
use qkp_solver::solver::{solve_challenge, Hyperparameters, SolveError, Strategy};
use qkp_solver::state::SolutionState;

fn problem(values: Vec<u32>, weights: Vec<u32>, interactions: Vec<Vec<i32>>, max_weight: u32) -> Problem {
    Problem { values, weights, interactions, max_weight }
}

fn zeros(n: usize) -> Vec<Vec<i32>> {
    vec![vec![0; n]; n]
}

fn value_of(p: &Problem, items: &[usize]) -> i64 {
    let mut total: i64 = 0;
    for (a, &i) in items.iter().enumerate() {
        total += p.values[i] as i64;
        for &j in &items[a + 1..] {
            total += p.interactions[i][j] as i64;
        }
    }
    total
}

fn weight_of(p: &Problem, items: &[usize]) -> u64 {
    items.iter().map(|&i| p.weights[i] as u64).sum()
}

fn mixed_instance() -> Problem {
    let n = 12;
    let mut inter = zeros(n);
    let mut x: i64 = 7;
    for i in 0..n {
        for j in (i + 1)..n {
            x = (x * 1103515245 + 12345) % 2147483647;
            let v = (x % 41) as i32 - 20;
            inter[i][j] = v;
            inter[j][i] = v;
        }
    }
    let values = vec![12, 3, 25, 7, 9, 30, 1, 14, 22, 5, 18, 11];
    let weights = vec![4, 2, 9, 3, 0, 11, 1, 6, 8, 2, 7, 5];
    problem(values, weights, inter, 25)
}

#[test]
fn scenario_single_item_fits() {
    let p = problem(vec![10], vec![5], zeros(1), 5);
    for s in [Strategy::BestSwap, Strategy::Randomized] {
        assert_eq!(solve_challenge(&p, s, [0u8; 32], None), Ok(vec![0]));
    }
}

#[test]
fn scenario_nothing_fits() {
    let p = problem(vec![10, 10], vec![6, 6], vec![vec![0, 3], vec![3, 0]], 5);
    for s in [Strategy::BestSwap, Strategy::Randomized] {
        assert_eq!(solve_challenge(&p, s, [1u8; 32], None), Ok(vec![]));
    }
    let st = SolutionState::construct(&p);
    assert_eq!(st.value, 0);
}

#[test]
fn scenario_penalty_pair_is_broken() {
    let mut inter = zeros(3);
    inter[0][1] = -100;
    inter[1][0] = -100;
    let p = problem(vec![5, 5, 5], vec![1, 1, 1], inter, 3);
    let built = SolutionState::construct(&p);
    assert_eq!(built.selection(), vec![0, 1, 2]);
    assert_eq!(built.value, -85);
    let items = solve_challenge(&p, Strategy::Randomized, [3u8; 32], None).unwrap();
    assert!(items.contains(&2));
    assert_eq!(items.len(), 2);
    assert!(items.contains(&0) != items.contains(&1));
    assert_eq!(value_of(&p, &items), 10);
}

#[test]
fn scenario_weightless_item_is_taken() {
    let p = problem(vec![1, 100, 3], vec![0, 10, 10], zeros(3), 10);
    let built = SolutionState::construct(&p);
    assert!(built.selected[0]);
    for s in [Strategy::BestSwap, Strategy::Randomized] {
        let items = solve_challenge(&p, s, [9u8; 32], None).unwrap();
        assert!(items.contains(&0));
        assert!(items.contains(&1));
    }
}

#[test]
fn weightless_item_without_gain_is_left_out() {
    let p = problem(vec![0, 4], vec![0, 1], zeros(2), 1);
    let built = SolutionState::construct(&p);
    assert_eq!(built.selection(), vec![1]);
}

#[test]
fn results_fit_the_budget() {
    let p = mixed_instance();
    for seed in 0..5u8 {
        for s in [Strategy::BestSwap, Strategy::Randomized] {
            let items = solve_challenge(&p, s, [seed; 32], None).unwrap();
            assert!(weight_of(&p, &items) <= p.max_weight as u64);
            let mut sorted = items.clone();
            sorted.sort();
            sorted.dedup();
            assert_eq!(sorted, items);
        }
    }
}

#[test]
fn state_value_matches_recomputation() {
    let p = mixed_instance();
    let mut st = SolutionState::construct(&p);
    assert_eq!(st.value as i64, value_of(&p, &st.selection()));
    assert_eq!(st.weight, weight_of(&p, &st.selection()));
    st.swap_search(&p);
    assert_eq!(st.value as i64, value_of(&p, &st.selection()));
    let chosen = st.selection();
    for k in 0..p.values.len() {
        let g: i64 = chosen.iter().map(|&j| p.interactions[k][j] as i64).sum();
        assert_eq!(st.gains[k] as i64, g);
    }
}

#[test]
fn search_never_lowers_value() {
    let p = mixed_instance();
    let mut a = SolutionState::construct(&p);
    let before = a.value;
    a.swap_search(&p);
    assert!(a.value >= before);
    let mut b = SolutionState::construct(&p);
    let before = b.value;
    let others = b.unselected();
    if let Some(&o) = others.first() {
        let accepted = b.try_add(&p, o);
        if accepted {
            assert!(b.value > before);
        } else {
            assert_eq!(b.value, before);
        }
    }
}

#[test]
fn swap_search_ends_at_local_optimum() {
    let p = mixed_instance();
    let items = solve_challenge(&p, Strategy::BestSwap, [0u8; 32], None).unwrap();
    let base = value_of(&p, &items);
    let w = weight_of(&p, &items);
    for &i in &items {
        for o in 0..p.values.len() {
            if items.contains(&o) {
                continue;
            }
            if w - p.weights[i] as u64 + p.weights[o] as u64 > p.max_weight as u64 {
                continue;
            }
            let mut other: Vec<usize> = items.iter().cloned().filter(|&x| x != i).collect();
            other.push(o);
            assert!(value_of(&p, &other) <= base);
        }
    }
}

#[test]
fn same_seed_same_result() {
    let p = mixed_instance();
    for seed in 0..4u8 {
        let a = solve_challenge(&p, Strategy::Randomized, [seed; 32], None);
        let b = solve_challenge(&p, Strategy::Randomized, [seed; 32], None);
        assert_eq!(a, b);
    }
}

#[test]
fn zero_counts_are_rejected() {
    let p = problem(vec![10], vec![5], zeros(1), 5);
    let bad = Hyperparameters { max_iterations: 0, num_trials_per_iteration: 5 };
    assert_eq!(
        solve_challenge(&p, Strategy::Randomized, [0u8; 32], Some(bad)),
        Err(SolveError::InvalidHyperparameters)
    );
    let bad = Hyperparameters { max_iterations: 5, num_trials_per_iteration: 0 };
    assert_eq!(
        solve_challenge(&p, Strategy::BestSwap, [0u8; 32], Some(bad)),
        Err(SolveError::InvalidHyperparameters)
    );
    let good = Hyperparameters { max_iterations: 1, num_trials_per_iteration: 1 };
    assert_eq!(solve_challenge(&p, Strategy::Randomized, [0u8; 32], Some(good)), Ok(vec![0]));
}

#[test]
fn default_hyperparameters() {
    let h = Hyperparameters::default();
    assert_eq!(h.max_iterations, 100);
    assert_eq!(h.num_trials_per_iteration, 500);
}

#[test]
fn malformed_problems_are_rejected() {
    let short = problem(vec![1, 1], vec![1], zeros(2), 5);
    assert_eq!(solve_challenge(&short, Strategy::BestSwap, [0u8; 32], None), Err(SolveError::InvalidProblem));
    let ragged = problem(vec![1, 1], vec![1, 1], vec![vec![0, 0], vec![0]], 5);
    assert!(!ragged.is_valid());
    assert!(problem(vec![], vec![], vec![], 0).is_valid());
}

#[test]
fn empty_instance_gives_empty_selection() {
    let p = problem(vec![], vec![], vec![], 7);
    assert_eq!(solve_challenge(&p, Strategy::Randomized, [0u8; 32], None), Ok(vec![]));
    assert_eq!(solve_challenge(&p, Strategy::BestSwap, [0u8; 32], None), Ok(vec![]));
}

#[test]
fn best_candidate_prefers_ratio_then_index() {
    let p = problem(vec![6, 9, 3, 4], vec![2, 3, 1, 2], zeros(4), 10);
    let st = SolutionState::empty(&p);
    assert_eq!(st.best_candidate(&p), Some(0));
    let q = problem(vec![6, 1], vec![2, 0], zeros(2), 10);
    let st = SolutionState::empty(&q);
    assert_eq!(st.best_candidate(&q), Some(1));
}

#[test]
fn best_swap_takes_largest_delta() {
    let p = problem(vec![1, 5, 8], vec![1, 1, 1], zeros(3), 1);
    let mut st = SolutionState::empty(&p);
    st.add_item(&p, 0);
    assert_eq!(st.best_swap(&p), Some((0, 2)));
    st.apply_swap(&p, 0, 2);
    assert_eq!(st.value, 8);
    assert_eq!(st.best_swap(&p), None);
}

#[test]
fn moves_update_totals_and_cache() {
    let mut inter = zeros(3);
    inter[0][2] = 7;
    inter[2][0] = 7;
    inter[1][2] = -4;
    inter[2][1] = -4;
    let p = problem(vec![2, 3, 5], vec![1, 2, 3], inter, 6);
    let mut st = SolutionState::empty(&p);
    st.add_item(&p, 2);
    assert_eq!(st.gains, vec![7, -4, 0]);
    assert!(st.try_add(&p, 0));
    assert_eq!(st.value, 14);
    assert_eq!(st.weight, 4);
    assert!(!st.try_add(&p, 1));
    assert_eq!(st.value, 14);
    assert!(!st.try_remove(&p, 0));
    st.add_item(&p, 1);
    assert_eq!(st.value, 13);
    assert!(st.try_remove(&p, 1));
    assert_eq!(st.value, 14);
    assert_eq!(st.selection(), vec![0, 2]);
    assert_eq!(st.unselected(), vec![1]);
}

#[test]
fn scenario_penalty_pair_seeds() {
    let mut inter = zeros(3);
    inter[0][1] = -100;
    inter[1][0] = -100;
    let p = problem(vec![5, 5, 5], vec![1, 1, 1], inter, 3);
    for seed in 0..8u8 {
        let items = solve_challenge(&p, Strategy::Randomized, [seed; 32], None).unwrap();
        assert_eq!(value_of(&p, &items), 10);
    }
}

#[test]
fn penalty_pair_stays_without_remove_moves() {
    let mut inter = zeros(3);
    inter[0][1] = -100;
    inter[1][0] = -100;
    let p = problem(vec![5, 5, 5], vec![1, 1, 1], inter, 3);
    let items = solve_challenge(&p, Strategy::BestSwap, [0u8; 32], None).unwrap();
    assert_eq!(items, vec![0, 1, 2]);
    assert_eq!(value_of(&p, &items), -85);
}

#[test]
fn trial_move_follows_drawn_action() {
    let mut inter = zeros(3);
    inter[0][1] = -50;
    inter[1][0] = -50;
    let p = problem(vec![4, 6, 9], vec![2, 2, 3], inter, 5);
    let mut st = SolutionState::empty(&p);
    st.add_item(&p, 0);
    st.add_item(&p, 1);
    assert_eq!(st.value, -40);
    let chosen = st.selection();
    let others = st.unselected();
    assert_eq!(chosen, vec![0, 1]);
    assert_eq!(others, vec![2]);
    let before = st.value;
    // adding item 2 would exceed the budget
    assert!(!st.trial_move(&p, &chosen, &others, 0, 0, 0));
    assert_eq!(st.value, before);
    // removing item 1 lifts the value to 4
    assert!(st.trial_move(&p, &chosen, &others, 1, 1, 0));
    assert_eq!(st.selection(), vec![0]);
    assert_eq!(st.value, 4);
    let chosen = st.selection();
    let others = st.unselected();
    // trading item 0 for item 2 gives 9
    assert!(st.trial_move(&p, &chosen, &others, 2, 0, 1));
    assert_eq!(st.selection(), vec![2]);
    assert_eq!(st.value, 9);
}

#[test]
fn trial_move_without_items_makes_no_move() {
    let p = problem(vec![3], vec![1], zeros(1), 5);
    let mut st = SolutionState::empty(&p);
    let chosen: Vec<usize> = vec![];
    let others = st.unselected();
    assert!(!st.trial_move(&p, &chosen, &others, 1, 0, 0));
    assert!(!st.trial_move(&p, &chosen, &others, 2, 0, 0));
    assert_eq!(st.value, 0);
    assert!(st.trial_move(&p, &chosen, &others, 0, 0, 0));
    assert_eq!(st.value, 3);
}

#[test]
fn single_trial_search_keeps_or_improves() {
    let mut inter = zeros(3);
    inter[0][1] = -100;
    inter[1][0] = -100;
    let p = problem(vec![5, 5, 5], vec![1, 1, 1], inter, 3);
    let one = Hyperparameters { max_iterations: 1, num_trials_per_iteration: 1 };
    let items = solve_challenge(&p, Strategy::Randomized, [0u8; 32], Some(one)).unwrap();
    let v = value_of(&p, &items);
    assert!(v == -85 || v == 10);
}

#[test]
fn asymmetric_matrix_reads_lower_triangle() {
    let p = problem(vec![1, 1], vec![1, 1], vec![vec![0, -50], vec![3, 0]], 5);
    assert!(p.is_valid());
    assert_eq!(p.pair(0, 1), 3);
    assert_eq!(p.pair(1, 0), 3);
    for s in [Strategy::BestSwap, Strategy::Randomized] {
        assert_eq!(solve_challenge(&p, s, [0u8; 32], None), Ok(vec![0, 1]));
    }
    let mut st = SolutionState::construct(&p);
    assert_eq!(st.value, 5);
    st.swap_search(&p);
    assert_eq!(st.value, 5);
}

#[test]
fn first_trial_improves_when_every_move_does() {
    let mut inter = zeros(3);
    inter[0][2] = -100;
    inter[2][0] = -100;
    let p = problem(vec![10, 1000, 10], vec![1, 0, 1], inter, 5);
    for seed in 0..6u8 {
        let mut st = SolutionState::empty(&p);
        st.add_item(&p, 0);
        st.add_item(&p, 2);
        assert_eq!(st.value, -80);
        let mut rng = SmallRng::from_seed([seed; 32]);
        st.random_search(&p, &mut rng, 1, 1);
        assert!(st.value > -80);
        assert_eq!(st.value as i64, value_of(&p, &st.selection()));
    }
}

#[test]
fn zero_rounds_change_nothing() {
    let mut inter = zeros(3);
    inter[0][2] = -100;
    inter[2][0] = -100;
    let p = problem(vec![10, 1000, 10], vec![1, 0, 1], inter, 5);
    let mut st = SolutionState::empty(&p);
    st.add_item(&p, 0);
    let mut rng = SmallRng::from_seed([5; 32]);
    st.random_search(&p, &mut rng, 0, 10);
    assert_eq!(st.selection(), vec![0]);
    st.random_search(&p, &mut rng, 10, 0);
    assert_eq!(st.selection(), vec![0]);
}
