use std::collections::HashMap;

use mdp_solver::bases::mdp::{Agent, EnviormentModel, Policy, SolveError, Transition};
use mdp_solver::bases::policy_iteration::{
    action_value, best_action, greedy_policy, improve, initial_values, iterate_sweeps,
    policy_evaluation, policy_improvement, policy_iteration, state_value, sweep, value_iteration,
};
use mdp_solver::bases::mdp::pair_key;
use mdp_solver::bases::tabular::{TableAction, TableModel, TableState};
use mdp_solver::utils::fixed::ONE;
use rand::rngs::StdRng;
use rand::SeedableRng;

const A: TableState = TableState { index: 0 };
const B: TableState = TableState { index: 1 };
const X: TableAction = TableAction { index: 0 };
const Y: TableAction = TableAction { index: 1 };

fn outcome(next: u64, reward: i32, probability: i64) -> Transition<TableState> {
    Transition { next_state: TableState { index: next }, reward, probability }
}

/// State A moves to the terminal state B, for reward 1 under X and reward 0
/// under Y. B offers one action that leads nowhere.
fn boundary() -> TableModel {
    TableModel {
        outcomes: vec![
            vec![vec![outcome(1, 1, ONE)], vec![outcome(1, 0, ONE)]],
            vec![vec![]],
        ],
        terminal: vec![false, true],
    }
}

/// Three states in a row. From the first, X pays 2 and stays with
/// probability one half, else moves on; Y moves on for reward 1. From the
/// second both actions move to the terminal third state, X for 3, Y for 4.
fn chain() -> TableModel {
    TableModel {
        outcomes: vec![
            vec![
                vec![outcome(0, 2, ONE / 2), outcome(1, 2, ONE / 2)],
                vec![outcome(1, 1, ONE)],
            ],
            vec![vec![outcome(2, 3, ONE)], vec![outcome(2, 4, ONE)]],
            vec![vec![]],
        ],
        terminal: vec![false, false, true],
    }
}

fn table(entries: &[(u64, i64)]) -> HashMap<u64, i64> {
    entries.iter().copied().collect()
}

fn states_of(model: &TableModel) -> Vec<TableState> {
    EnviormentModel::get_states(model)
}

#[test]
fn tables_are_checked() {
    assert!(boundary().check());
    assert!(chain().check());
    let mut heavy = boundary();
    heavy.outcomes[0][0].push(outcome(0, 0, 1));
    assert!(!heavy.check());
    let mut negative = boundary();
    negative.outcomes[0][0][0].probability = -1;
    assert!(!negative.check());
    let mut short = boundary();
    short.terminal.pop();
    assert!(!short.check());
    let mut light = boundary();
    light.outcomes[0][0][0].probability = ONE - 1;
    assert!(!light.check());
    light.outcomes[0][0].push(outcome(0, 0, 1));
    assert!(light.check());
}

#[test]
fn table_model_lists_states_actions_and_outcomes() {
    let model = boundary();
    assert_eq!(states_of(&model), vec![A, B]);
    assert_eq!(EnviormentModel::posible_actions(&model, &A), vec![X, Y]);
    assert_eq!(EnviormentModel::posible_actions(&model, &B), vec![X]);
    assert_eq!(EnviormentModel::posible_actions(&model, &TableState { index: 9 }), vec![]);
    assert!(!EnviormentModel::is_terminal(&model, &A));
    assert!(EnviormentModel::is_terminal(&model, &B));
    let listed = model.dynamics(&A, &X);
    assert_eq!(listed.len(), 1);
    assert_eq!(listed[0].next_state, B);
    assert_eq!(listed[0].reward, 1);
    assert_eq!(listed[0].probability, ONE);
    assert!(model.dynamics(&A, &TableAction { index: 7 }).is_empty());
    assert!(model.dynamics(&TableState { index: 7 }, &X).is_empty());
}

#[test]
fn lookahead_of_one_certain_outcome() {
    let model = boundary();
    let values = table(&[(0, 0), (1, 250_000)]);
    assert_eq!(action_value(&model, &A, &X, &values, ONE), Some(1_250_000));
    assert_eq!(action_value(&model, &A, &Y, &values, ONE), Some(250_000));
    assert_eq!(action_value(&model, &A, &Y, &values, ONE / 2), Some(125_000));
    assert_eq!(action_value(&model, &B, &X, &values, ONE), Some(0));
}

#[test]
fn lookahead_weighs_outcomes_and_rounds_down_once() {
    let model = chain();
    let values = table(&[(0, 1), (1, 2), (2, 0)]);
    // 0.5 * (2 + 0.9 * 0.000001) + 0.5 * (2 + 0.9 * 0.000002) = 2.00000135
    assert_eq!(action_value(&model, &A, &X, &values, 900_000), Some(2_000_001));
    let below = table(&[(0, -1), (1, -2), (2, 0)]);
    // 1.99999865 rounds down to 1.999998
    assert_eq!(action_value(&model, &A, &X, &below, 900_000), Some(1_999_998));
}

#[test]
fn lookahead_saturates() {
    let model = TableModel {
        outcomes: vec![vec![vec![outcome(0, i32::MAX, ONE)], vec![outcome(0, i32::MIN, ONE)]]],
        terminal: vec![false],
    };
    assert_eq!(action_value(&model, &A, &X, &table(&[(0, i64::MAX)]), ONE), Some(i64::MAX));
    assert_eq!(action_value(&model, &A, &Y, &table(&[(0, i64::MIN)]), ONE), Some(i64::MIN));
}

#[test]
fn lookahead_needs_the_value_of_every_successor() {
    let model = boundary();
    let values = table(&[(0, 0)]);
    assert_eq!(action_value(&model, &A, &X, &values, ONE), None);
    assert_eq!(action_value(&model, &B, &X, &values, ONE), Some(0));
}

#[test]
fn best_action_is_the_first_of_the_largest() {
    let model = chain();
    let values = table(&[(0, 0), (1, 0), (2, 0)]);
    assert_eq!(best_action(&model, &A, &values, ONE), Ok(Some((X, 2 * ONE))));
    assert_eq!(best_action(&model, &B, &values, ONE), Ok(Some((Y, 4 * ONE))));
    // a tie goes to the first action
    let tie = table(&[(0, 0), (1, ONE), (2, 0)]);
    assert_eq!(action_value(&model, &A, &X, &tie, ONE), Some(2_500_000));
    let level = table(&[(0, -2 * ONE), (1, 0), (2, 0)]);
    assert_eq!(action_value(&model, &A, &X, &level, ONE), Some(ONE));
    assert_eq!(action_value(&model, &A, &Y, &level, ONE), Some(ONE));
    assert_eq!(best_action(&model, &A, &level, ONE), Ok(Some((X, ONE))));
    let nothing = TableModel { outcomes: vec![vec![]], terminal: vec![false] };
    assert_eq!(best_action(&nothing, &A, &values, ONE), Ok(None));
    assert_eq!(best_action(&model, &A, &table(&[(0, 0)]), ONE), Err(SolveError::MalformedInput));
}

#[test]
fn state_value_follows_the_rule() {
    let model = chain();
    let values = table(&[(0, 0), (1, 0), (2, 0)]);
    assert_eq!(state_value(&model, None, &A, &values, ONE), Some(2 * ONE));
    let fixed = Policy::Deterministic([(0, Y), (1, X), (2, X)].into_iter().collect());
    assert_eq!(state_value(&model, Some(&fixed), &A, &values, ONE), Some(ONE));
    assert_eq!(state_value(&model, Some(&fixed), &B, &values, ONE), Some(3 * ONE));
    let mixed = Policy::Stochastic(
        [(pair_key(0, 0), 250_000), (pair_key(0, 1), 750_000)].into_iter().collect(),
    );
    // 0.25 * 2 + 0.75 * 1
    assert_eq!(state_value(&model, Some(&mixed), &A, &values, ONE), Some(1_250_000));
    // the policy says nothing of the second state
    assert_eq!(state_value(&model, Some(&mixed), &B, &values, ONE), None);
}

#[test]
fn stochastic_policy_must_be_a_subdistribution() {
    let model = chain();
    let values = table(&[(0, 0), (1, 0), (2, 0)]);
    let heavy = Policy::Stochastic(
        [(pair_key(0, 0), 500_000), (pair_key(0, 1), 500_001)].into_iter().collect(),
    );
    assert_eq!(state_value(&model, Some(&heavy), &A, &values, ONE), None);
    let negative = Policy::Stochastic(
        [(pair_key(0, 0), -1), (pair_key(0, 1), 500_000)].into_iter().collect(),
    );
    assert_eq!(state_value(&model, Some(&negative), &A, &values, ONE), None);
    let light = Policy::Stochastic(
        [(pair_key(0, 0), 0), (pair_key(0, 1), 500_000)].into_iter().collect(),
    );
    assert_eq!(state_value(&model, Some(&light), &A, &values, ONE), Some(500_000));
}

#[test]
fn sweep_updates_in_place_and_reports_the_largest_change() {
    let model = chain();
    let states = states_of(&model);
    let mut values = table(&[(0, 0), (1, 0), (2, 5)]);
    let fixed = Policy::Deterministic([(0, Y), (1, X), (2, X)].into_iter().collect());
    let change = sweep(&model, Some(&fixed), &states, &mut values, ONE);
    // the first state sees the old value of the second: 1 + 0; the second
    // sees the old value of the third: 3 + 0.000005
    assert_eq!(values, table(&[(0, ONE), (1, 3 * ONE + 5), (2, 0)]));
    assert_eq!(change, Some((3 * ONE + 5) as i128));
    let change = sweep(&model, Some(&fixed), &states, &mut values, ONE);
    assert_eq!(values, table(&[(0, 4 * ONE + 5), (1, 3 * ONE), (2, 0)]));
    assert_eq!(change, Some((3 * ONE + 5) as i128));
    let mut unknown = table(&[(0, 0), (1, 0)]);
    assert_eq!(sweep(&model, Some(&fixed), &states, &mut unknown, ONE), None);
}

#[test]
fn boundary_reward_value_iteration() {
    let model = boundary();
    let mut rng = StdRng::seed_from_u64(1);
    let states = states_of(&model);
    let values = value_iteration(&model, &states, None, ONE, 1_000, 100, &mut rng).unwrap();
    assert_eq!(values, table(&[(0, ONE), (1, 0)]));
    let policy = greedy_policy(&model, &states, &values, ONE).unwrap();
    assert_eq!(policy[&0], X);
    assert_eq!(policy.len(), 2);
}

#[test]
fn value_iteration_from_given_values() {
    let model = chain();
    let mut rng = StdRng::seed_from_u64(1);
    let states = states_of(&model);
    let first = table(&[(0, 0), (1, 0), (2, 0)]);
    let values =
        value_iteration(&model, &states, Some(first), ONE / 2, 10, 1_000, &mut rng).unwrap();
    // V(B) = 4, V(A) solves V = max(2 + 0.25 V + 0.25 * 4, 1 + 0.5 * 4) = max(3 + V / 4, 3) = 4
    assert_eq!(values[&1], 4 * ONE);
    assert_eq!(values[&2], 0);
    assert!((values[&0] - 4 * ONE).abs() < 10);
}

#[test]
fn values_satisfy_the_optimality_equation_within_tolerance() {
    let model = chain();
    let mut rng = StdRng::seed_from_u64(5);
    let states = states_of(&model);
    let tolerance = 50;
    let values =
        value_iteration(&model, &states, None, 900_000, tolerance, 1_000, &mut rng).unwrap();
    for state in &states {
        let backup = state_value(&model, None, state, &values, 900_000).unwrap();
        assert!((values[&state.index] - backup).abs() < tolerance);
    }
}

#[test]
fn evaluation_of_a_deterministic_policy() {
    let model = boundary();
    let states = states_of(&model);
    let agent = Agent { policy: Policy::Deterministic([(0, Y), (1, X)].into_iter().collect()) };
    let values = table(&[(0, 700_000), (1, 300_000)]);
    let found = policy_evaluation(&agent, &model, &states, values, ONE, 1_000, 10).unwrap();
    assert_eq!(found, table(&[(0, 0), (1, 0)]));
}

#[test]
fn evaluated_values_satisfy_the_expectation_equation_within_tolerance() {
    let model = chain();
    let states = states_of(&model);
    let tolerance = 20;
    let policies = vec![
        Policy::Deterministic([(0, X), (1, Y), (2, X)].into_iter().collect()),
        Policy::Stochastic(
            [
                (pair_key(0, 0), 300_000),
                (pair_key(0, 1), 700_000),
                (pair_key(1, 0), 500_000),
                (pair_key(1, 1), 500_000),
                (pair_key(2, 0), ONE),
            ]
            .into_iter()
            .collect(),
        ),
    ];
    for policy in policies {
        let agent = Agent { policy };
        let first = table(&[(0, 123_456), (1, -9 * ONE), (2, 77)]);
        let found =
            policy_evaluation(&agent, &model, &states, first, 950_000, tolerance, 10_000).unwrap();
        for state in &states {
            let backup = state_value(&model, Some(&agent.policy), state, &found, 950_000).unwrap();
            assert!((found[&state.index] - backup).abs() < tolerance);
        }
    }
}

#[test]
fn evaluation_reports_missing_entries_and_exhausted_sweeps() {
    let model = boundary();
    let states = states_of(&model);
    let agent = Agent { policy: Policy::Deterministic([(0, Y)].into_iter().collect()) };
    let values = table(&[(0, 700_000), (1, 300_000)]);
    assert_eq!(
        policy_evaluation(&agent, &model, &states, values.clone(), ONE, 1_000, 10),
        Err(SolveError::MalformedInput)
    );
    assert_eq!(
        policy_evaluation(&agent, &model, &states, values.clone(), ONE, 1_000, 0),
        Err(SolveError::NotConverged)
    );
    let whole = Agent { policy: Policy::Deterministic([(0, Y), (1, X)].into_iter().collect()) };
    assert_eq!(
        policy_evaluation(&whole, &model, &states, table(&[(0, 1)]), ONE, 1_000, 10),
        Err(SolveError::MalformedInput)
    );
    // the values settle in the second sweep; the third sees no change
    assert_eq!(
        policy_evaluation(&whole, &model, &states, values.clone(), ONE, 1_000, 2),
        Err(SolveError::NotConverged)
    );
    assert_eq!(
        policy_evaluation(&whole, &model, &states, values.clone(), ONE, 1_000, 3),
        Ok(table(&[(0, 0), (1, 0)]))
    );
    // a tolerance of zero is never met
    assert_eq!(
        policy_evaluation(&whole, &model, &states, values, ONE, 0, 50),
        Err(SolveError::NotConverged)
    );
}

#[test]
fn iteration_stops_at_the_first_sweep_below_the_tolerance() {
    let model = chain();
    let states = states_of(&model);
    let fixed = Policy::Deterministic([(0, Y), (1, X), (2, X)].into_iter().collect());
    let first = table(&[(0, 0), (1, 0), (2, 5)]);
    // the sweeps change values by 3.000005, 3.000005 and 0
    assert_eq!(
        iterate_sweeps(&model, Some(&fixed), &states, first.clone(), ONE, 3_000_006, 5),
        Ok(table(&[(0, ONE), (1, 3 * ONE + 5), (2, 0)]))
    );
    assert_eq!(
        iterate_sweeps(&model, Some(&fixed), &states, first.clone(), ONE, 3_000_005, 5),
        Ok(table(&[(0, 4 * ONE), (1, 3 * ONE), (2, 0)]))
    );
    assert_eq!(
        iterate_sweeps(&model, Some(&fixed), &states, first, ONE, 3_000_005, 2),
        Err(SolveError::NotConverged)
    );
}

#[test]
fn greedy_policy_takes_the_first_best_action_of_each_state() {
    let model = chain();
    let states = states_of(&model);
    let values = table(&[(0, 0), (1, 0), (2, 0)]);
    let policy = greedy_policy(&model, &states, &values, ONE).unwrap();
    let expected: HashMap<u64, TableAction> = [(0, X), (1, Y), (2, X)].into_iter().collect();
    assert_eq!(policy, expected);
    for state in &states {
        let chosen = action_value(&model, state, &policy[&state.index], &values, ONE).unwrap();
        for action in EnviormentModel::posible_actions(&model, state) {
            assert!(action_value(&model, state, &action, &values, ONE).unwrap() <= chosen);
        }
    }
}

#[test]
fn greedy_policy_is_the_same_every_time() {
    let model = chain();
    let states = states_of(&model);
    let values = table(&[(0, -2 * ONE), (1, 0), (2, 0)]);
    let first = greedy_policy(&model, &states, &values, ONE).unwrap();
    let second = greedy_policy(&model, &states, &values, ONE).unwrap();
    assert_eq!(first, second);
    assert_eq!(first[&0], X);
}

#[test]
fn greedy_policy_needs_an_action_and_every_value() {
    let model = chain();
    let states = states_of(&model);
    assert_eq!(
        greedy_policy(&model, &states, &table(&[(0, 0), (1, 0)]), ONE),
        Err(SolveError::MalformedInput)
    );
    let nothing = TableModel { outcomes: vec![vec![]], terminal: vec![false] };
    assert_eq!(
        greedy_policy(&nothing, &vec![A], &table(&[(0, 0)]), ONE),
        Err(SolveError::MalformedInput)
    );
    let none: Vec<TableState> = vec![];
    assert_eq!(greedy_policy(&model, &none, &table(&[]), ONE), Ok(HashMap::new()));
}

#[test]
fn improvement_pass_reports_changes() {
    let model = chain();
    let states = states_of(&model);
    let values = table(&[(0, 0), (1, 0), (2, 0)]);
    let mut choice: HashMap<u64, TableAction> = [(0, Y), (1, Y), (2, X)].into_iter().collect();
    assert_eq!(improve(&model, &mut choice, &states, &values, ONE), Some(true));
    let expected: HashMap<u64, TableAction> = [(0, X), (1, Y), (2, X)].into_iter().collect();
    assert_eq!(choice, expected);
    assert_eq!(improve(&model, &mut choice, &states, &values, ONE), Some(false));
    assert_eq!(choice, expected);
    let mut partial: HashMap<u64, TableAction> = [(0, Y)].into_iter().collect();
    assert_eq!(improve(&model, &mut partial, &states, &values, ONE), None);
}

#[test]
fn improvement_keeps_the_action_of_a_state_without_actions() {
    let model = TableModel { outcomes: vec![vec![]], terminal: vec![false] };
    let mut choice: HashMap<u64, TableAction> = [(0, Y)].into_iter().collect();
    assert_eq!(improve(&model, &mut choice, &vec![A], &table(&[(0, 0)]), ONE), Some(false));
    assert_eq!(choice[&0], Y);
}

#[test]
fn policy_improvement_ends_with_a_stable_policy() {
    let model = chain();
    let states = states_of(&model);
    let mut agent =
        Agent { policy: Policy::Deterministic([(0, Y), (1, X), (2, X)].into_iter().collect()) };
    let first = table(&[(0, 0), (1, 0), (2, 0)]);
    let values =
        policy_improvement(&mut agent, &model, &states, ONE / 2, 10, first, 1_000, 100).unwrap();
    match &agent.policy {
        Policy::Deterministic(choice) => {
            assert_eq!(choice[&1], Y);
            assert_eq!(greedy_policy(&model, &states, &values, ONE / 2).as_ref(), Ok(choice));
        }
        Policy::Stochastic(_) => panic!("the policy changed its kind"),
    }
    assert_eq!(values[&1], 4 * ONE);
}

#[test]
fn policy_improvement_rejects_a_stochastic_policy() {
    let model = boundary();
    let states = states_of(&model);
    let probabilities: HashMap<u128, i64> = [(pair_key(0, 0), ONE)].into_iter().collect();
    let mut agent = Agent { policy: Policy::Stochastic(probabilities.clone()) };
    let values = table(&[(0, 0), (1, 0)]);
    assert_eq!(
        policy_improvement(&mut agent, &model, &states, ONE, 10, values, 10, 10),
        Err(SolveError::UnsupportedPolicy)
    );
    match agent.policy {
        Policy::Stochastic(left) => assert_eq!(left, probabilities),
        Policy::Deterministic(_) => panic!("the policy changed its kind"),
    }
}

#[test]
fn policy_improvement_reports_exhausted_rounds_and_missing_entries() {
    let model = chain();
    let states = states_of(&model);
    let first = table(&[(0, 0), (1, 0), (2, 0)]);
    let mut agent =
        Agent { policy: Policy::Deterministic([(0, Y), (1, X), (2, X)].into_iter().collect()) };
    assert_eq!(
        policy_improvement(&mut agent, &model, &states, ONE / 2, 10, first.clone(), 1_000, 0),
        Err(SolveError::NotConverged)
    );
    let mut partial = Agent { policy: Policy::Deterministic([(0, Y)].into_iter().collect()) };
    assert_eq!(
        policy_improvement(&mut partial, &model, &states, ONE / 2, 10, first, 1_000, 10),
        Err(SolveError::MalformedInput)
    );
}

#[test]
fn boundary_reward_policy_iteration() {
    let model = boundary();
    let mut rng = StdRng::seed_from_u64(9);
    let mut agent = Agent { policy: Policy::Deterministic([(0, Y), (1, X)].into_iter().collect()) };
    let values = policy_iteration(&mut agent, &model, None, ONE, 1_000, 100, 100, &mut rng).unwrap();
    assert_eq!(values, table(&[(0, ONE), (1, 0)]));
    match agent.policy {
        Policy::Deterministic(choice) => assert_eq!(choice[&0], X),
        Policy::Stochastic(_) => panic!("the policy changed its kind"),
    }
}

#[test]
fn policy_iteration_and_value_iteration_agree() {
    let model = chain();
    let mut rng = StdRng::seed_from_u64(21);
    let states = states_of(&model);
    let tolerance = 10;
    let gamma = 900_000;
    let by_values =
        value_iteration(&model, &states, None, gamma, tolerance, 10_000, &mut rng).unwrap();
    let mut agent =
        Agent { policy: Policy::Deterministic([(0, Y), (1, X), (2, X)].into_iter().collect()) };
    let by_policies =
        policy_iteration(&mut agent, &model, None, gamma, tolerance, 10_000, 100, &mut rng)
            .unwrap();
    for state in &states {
        let apart = (by_values[&state.index] - by_policies[&state.index]).abs();
        assert!(apart <= 2 * tolerance);
        assert!(apart * (ONE - gamma) < 2 * tolerance * ONE);
    }
}

#[test]
fn policy_iteration_evaluates_before_it_rejects_a_stochastic_policy() {
    let model = boundary();
    let mut rng = StdRng::seed_from_u64(2);
    let whole: HashMap<u128, i64> =
        [(pair_key(0, 0), ONE / 2), (pair_key(0, 1), ONE / 2), (pair_key(1, 0), ONE)]
            .into_iter()
            .collect();
    let mut agent = Agent { policy: Policy::Stochastic(whole) };
    assert_eq!(
        policy_iteration(&mut agent, &model, None, ONE, 1_000, 100, 100, &mut rng),
        Err(SolveError::UnsupportedPolicy)
    );
    let mut partial = Agent { policy: Policy::Stochastic(HashMap::new()) };
    assert_eq!(
        policy_iteration(&mut partial, &model, None, ONE, 1_000, 100, 100, &mut rng),
        Err(SolveError::MalformedInput)
    );
}

#[test]
fn initial_values_fit_the_states() {
    let model = chain();
    let mut rng = StdRng::seed_from_u64(4);
    let values = initial_values(&model, 7, &mut rng);
    assert_eq!(values.len(), 3);
    assert_eq!(values[&2], 7);
    assert!((0..ONE).contains(&values[&0]));
    assert!((0..ONE).contains(&values[&1]));
}
