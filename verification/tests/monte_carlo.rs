use std::collections::HashMap;

use mdp_solver::bases::mdp::{
    choose_action, episode, pair_key, Enviorment, Policy, SolveError, Transition,
};
use mdp_solver::bases::monte_carlo_control::{
    anneal, can_update, decay, discount, first_visit_monte_carlo_control, first_visits,
    learn_from_episode, mean_of, record_visit, soften, update_policy, EPSILON_DECAY,
    MINIMUM_EPSILON,
};
use mdp_solver::bases::tabular::{TableAction, TableModel, TableState};
use mdp_solver::utils::fixed::ONE;
use rand::rngs::StdRng;
use rand::SeedableRng;

const A: TableState = TableState { index: 0 };
const B: TableState = TableState { index: 1 };
const C: TableState = TableState { index: 2 };
const X: TableAction = TableAction { index: 0 };
const Y: TableAction = TableAction { index: 1 };
const Z: TableAction = TableAction { index: 2 };

fn outcome(next: u64, reward: i32, probability: i64) -> Transition<TableState> {
    Transition { next_state: TableState { index: next }, reward, probability }
}

/// One decision: X ends the episode with reward 1, Y with reward -1.
fn decision() -> TableModel {
    TableModel {
        outcomes: vec![vec![vec![outcome(1, 1, ONE)], vec![outcome(1, -1, ONE)]], vec![]],
        terminal: vec![false, true],
    }
}

/// A walk: from the first state X stays for -1 and Y moves on for -2; from
/// the second every action ends the episode, for 3, 5 or 4.
fn walk() -> TableModel {
    TableModel {
        outcomes: vec![
            vec![vec![outcome(0, -1, ONE)], vec![outcome(1, -2, ONE)]],
            vec![vec![outcome(2, 3, ONE)], vec![outcome(2, 5, ONE)], vec![outcome(2, 4, ONE)]],
            vec![],
        ],
        terminal: vec![false, false, true],
    }
}

fn pairs(entries: &[(u64, u64, i64)]) -> HashMap<u128, i64> {
    entries.iter().map(|(s, a, v)| (pair_key(*s, *a), *v)).collect()
}

#[test]
fn pair_keys_hold_both_keys() {
    assert_eq!(pair_key(0, 0), 0);
    assert_eq!(pair_key(1, 2), (1u128 << 64) + 2);
    assert_eq!(pair_key(u64::MAX, u64::MAX), u128::MAX);
    assert_ne!(pair_key(1, 0), pair_key(0, 1));
}

const WHOLE: i64 = 1_000_000_000_000_000_000;

#[test]
fn exploration_rate_decays_from_the_first_rate_and_has_a_floor() {
    assert_eq!(EPSILON_DECAY, 999_000);
    assert_eq!(MINIMUM_EPSILON, 100);
    assert_eq!(anneal(200_000, WHOLE), 200_000);
    assert_eq!(decay(WHOLE), 999_000_000_000_000_000);
    assert_eq!(anneal(200_000, decay(WHOLE)), 199_800);
    // 0.999 * 0.999 = 0.998001
    assert_eq!(decay(decay(WHOLE)), 998_001_000_000_000_000);
    assert_eq!(anneal(200_000, decay(decay(WHOLE))), 199_600);
    assert_eq!(anneal(200_000, 0), MINIMUM_EPSILON);
    assert_eq!(anneal(50, WHOLE), MINIMUM_EPSILON);
    assert_eq!(anneal(ONE, WHOLE), ONE);
}

#[test]
fn decay_power_stays_close_to_the_true_power() {
    let mut power = WHOLE;
    for _ in 0..199 {
        power = decay(power);
    }
    // 0.999 to the power of 199 is 0.819468297776412117..., so the rate is
    // 0.163893; rounding has cost less than one unit for each episode
    assert_eq!(power, 819_468_297_776_412_028);
    assert!(819_468_297_776_412_117 - power < 199);
    assert_eq!(anneal(200_000, power), 163_893);
    for _ in 199..10_000 {
        power = decay(power);
    }
    // 0.999 to the power of 10000 is 0.000045173345977048...
    assert_eq!(power, 45_173_345_976_551);
    assert!(45_173_345_977_048 - power < 10_000);
    assert_eq!(anneal(200_000, power), MINIMUM_EPSILON);
    assert_eq!(decay(0), 0);
    assert_eq!(decay(1), 0);
}

#[test]
fn discounted_return_of_a_step() {
    assert_eq!(discount(ONE, 0, -1), -ONE);
    assert_eq!(discount(900_000, -ONE, -1), -1_900_000);
    assert_eq!(discount(333_333, 1, 0), 0);
    assert_eq!(discount(333_333, -1, 0), -1);
    assert_eq!(discount(ONE, i64::MAX, 1), i64::MAX);
    assert_eq!(discount(ONE, i64::MIN, -1), i64::MIN);
}

#[test]
fn mean_rounds_down() {
    assert_eq!(mean_of(&vec![4]), 4);
    assert_eq!(mean_of(&vec![1, 2]), 1);
    assert_eq!(mean_of(&vec![-1, -2]), -2);
    assert_eq!(mean_of(&vec![ONE, -ONE, ONE]), 333_333);
    assert_eq!(mean_of(&vec![i64::MAX, i64::MAX]), i64::MAX);
    assert_eq!(mean_of(&vec![i64::MIN, i64::MIN, i64::MIN]), i64::MIN);
}

#[test]
fn epsilon_greedy_update_of_two_actions() {
    let env = decision();
    let mut map = pairs(&[(0, 0, 500_000), (0, 1, 500_000), (9, 9, 7)]);
    let values = pairs(&[(0, 0, -3), (0, 1, 8)]);
    assert_eq!(update_policy(&env, &mut map, &values, &A, 200_000), Ok(()));
    assert_eq!(map, pairs(&[(0, 0, 100_000), (0, 1, 900_000), (9, 9, 7)]));
}

#[test]
fn epsilon_greedy_update_of_three_actions_sums_to_one() {
    let env = walk();
    let mut map = pairs(&[(1, 0, 0), (1, 1, 0), (1, 2, 0)]);
    let values = pairs(&[(1, 0, 5), (1, 1, 9), (1, 2, 7)]);
    assert_eq!(update_policy(&env, &mut map, &values, &B, 200_000), Ok(()));
    // a third of 0.2 is 0.066666 and two millionths are left: one goes to
    // the favourite, one to the first of the others
    assert_eq!(map, pairs(&[(1, 0, 66_667), (1, 1, 866_667), (1, 2, 66_666)]));
    assert_eq!(map.values().sum::<i64>(), ONE);
    assert!(map.values().all(|p| *p >= 0 && *p <= map[&pair_key(1, 1)]));
}

#[test]
fn epsilon_greedy_rows_weigh_one_for_every_rate_and_favourite() {
    for count in 1..=12u64 {
        let env = TableModel {
            outcomes: vec![(0..count).map(|_| vec![outcome(0, 0, ONE)]).collect()],
            terminal: vec![false],
        };
        let first: Vec<(u64, u64, i64)> = (0..count).map(|a| (0, a, 0)).collect();
        for favourite in 0..count {
            let values: Vec<(u64, u64, i64)> =
                (0..count).map(|a| (0, a, if a == favourite { 1 } else { 0 })).collect();
            for epsilon in [0, 1, 7, 100, 163_893, 200_000, 999_999, ONE] {
                let mut map = pairs(&first);
                assert_eq!(update_policy(&env, &mut map, &pairs(&values), &A, epsilon), Ok(()));
                assert_eq!(map.values().sum::<i64>(), ONE);
                let share = epsilon / count as i64;
                let best = map[&pair_key(0, favourite)];
                assert!((best - (ONE - epsilon + share)) >= 0 && best - (ONE - epsilon + share) <= 1);
                for action in 0..count {
                    let p = map[&pair_key(0, action)];
                    assert!(0 <= p && p <= best);
                    if action != favourite {
                        assert!(p == share || p == share + 1);
                    }
                }
            }
        }
    }
}

#[test]
fn epsilon_greedy_update_breaks_ties_by_the_first_action() {
    let env = walk();
    let mut map = pairs(&[(1, 0, 0), (1, 1, 0), (1, 2, 0)]);
    let values = pairs(&[(1, 0, 5), (1, 1, 9), (1, 2, 9)]);
    assert_eq!(update_policy(&env, &mut map, &values, &B, 300_000), Ok(()));
    assert_eq!(map, pairs(&[(1, 0, 100_000), (1, 1, 800_000), (1, 2, 100_000)]));
    let level = pairs(&[(1, 0, 9), (1, 1, 9), (1, 2, 9)]);
    assert_eq!(update_policy(&env, &mut map, &level, &B, 300_000), Ok(()));
    assert_eq!(map, pairs(&[(1, 0, 800_000), (1, 1, 100_000), (1, 2, 100_000)]));
}

#[test]
fn epsilon_greedy_update_at_the_ends_of_the_exploration_range() {
    let env = decision();
    let values = pairs(&[(0, 0, 1), (0, 1, 0)]);
    let mut map = pairs(&[(0, 0, 0), (0, 1, 0)]);
    assert_eq!(update_policy(&env, &mut map, &values, &A, 0), Ok(()));
    assert_eq!(map, pairs(&[(0, 0, ONE), (0, 1, 0)]));
    assert_eq!(update_policy(&env, &mut map, &values, &A, ONE), Ok(()));
    assert_eq!(map, pairs(&[(0, 0, ONE / 2), (0, 1, ONE / 2)]));
}

#[test]
fn epsilon_greedy_update_needs_every_entry() {
    let env = decision();
    let whole = pairs(&[(0, 0, 1), (0, 1, 2)]);
    let partial = pairs(&[(0, 0, 1)]);
    let mut map = whole.clone();
    assert_eq!(update_policy(&env, &mut map, &partial, &A, 200_000), Err(SolveError::MalformedInput));
    assert_eq!(map, whole);
    assert!(!can_update(&env, &map, &partial, &A));
    let mut short = partial.clone();
    assert_eq!(update_policy(&env, &mut short, &whole, &A, 200_000), Err(SolveError::MalformedInput));
    assert_eq!(short, partial);
    // the terminal state offers no action
    assert_eq!(update_policy(&env, &mut map, &whole, &B, 200_000), Err(SolveError::MalformedInput));
    assert!(can_update(&env, &map, &whole, &A));
}

#[test]
fn soften_favours_by_key() {
    let mut map: HashMap<u128, i64> = HashMap::new();
    soften(&mut map, 4, &vec![X, Y, Z], 2, 300_000);
    assert_eq!(map, pairs(&[(4, 0, 100_000), (4, 1, 100_000), (4, 2, 800_000)]));
}

#[test]
fn a_visit_records_the_return_and_updates_value_and_policy() {
    let env = decision();
    let mut map = pairs(&[(0, 0, 500_000), (0, 1, 500_000)]);
    let mut values = pairs(&[(0, 0, 0), (0, 1, 0)]);
    let mut history: HashMap<u128, Vec<i64>> = HashMap::new();
    assert_eq!(
        record_visit(&env, &mut map, &mut values, &mut history, &A, &Y, 3 * ONE, 200_000),
        Ok(())
    );
    assert_eq!(history[&pair_key(0, 1)], vec![3 * ONE]);
    assert_eq!(values, pairs(&[(0, 0, 0), (0, 1, 3 * ONE)]));
    assert_eq!(map, pairs(&[(0, 0, 100_000), (0, 1, 900_000)]));
    assert_eq!(
        record_visit(&env, &mut map, &mut values, &mut history, &A, &Y, -4 * ONE, 200_000),
        Ok(())
    );
    assert_eq!(history[&pair_key(0, 1)], vec![3 * ONE, -4 * ONE]);
    assert_eq!(values, pairs(&[(0, 0, 0), (0, 1, -500_000)]));
    assert_eq!(map, pairs(&[(0, 0, 900_000), (0, 1, 100_000)]));
}

#[test]
fn a_visit_of_an_unknown_pair_changes_nothing() {
    let env = decision();
    let mut map = pairs(&[(0, 0, 500_000), (0, 1, 500_000)]);
    let mut values = pairs(&[(0, 0, 0), (0, 1, 0)]);
    let mut history: HashMap<u128, Vec<i64>> = HashMap::new();
    assert_eq!(
        record_visit(&env, &mut map, &mut values, &mut history, &A, &Z, ONE, 200_000),
        Err(SolveError::MalformedInput)
    );
    assert_eq!(map, pairs(&[(0, 0, 500_000), (0, 1, 500_000)]));
    assert_eq!(values, pairs(&[(0, 0, 0), (0, 1, 0)]));
    assert!(history.is_empty());
}

#[test]
fn first_visits_are_the_first_steps_of_their_pairs() {
    let trajectory = vec![(A, X, 0), (A, Y, 0), (A, X, 0), (B, X, 0), (A, Y, 0), (B, Y, 0)];
    assert_eq!(first_visits(&trajectory), vec![true, true, false, true, false, true]);
    assert_eq!(first_visits(&Vec::<(TableState, TableAction, i32)>::new()), Vec::<bool>::new());
}

#[test]
fn replay_records_the_return_after_the_first_visit_of_each_pair() {
    let env = walk();
    let mut map = pairs(&[(0, 0, 0), (0, 1, 0), (1, 0, 0), (1, 1, 0), (1, 2, 0)]);
    let mut values = pairs(&[(0, 0, 0), (0, 1, 0), (1, 0, 0), (1, 1, 0), (1, 2, 0)]);
    let mut history: HashMap<u128, Vec<i64>> = HashMap::new();
    let trajectory = vec![(A, X, -1), (A, X, -1), (A, Y, -2), (B, Z, 4)];
    let loss = learn_from_episode(
        &env,
        &mut map,
        &mut values,
        &mut history,
        &trajectory,
        ONE / 2,
        200_000,
    );
    // returns from the back: 4, -2 + 2 = 0, -1 + 0 = -1, -1 - 0.5 = -1.5
    assert_eq!(loss, Ok(-1_500_000));
    // the pair (A, X) is visited first at the first step
    assert_eq!(history[&pair_key(0, 0)], vec![-1_500_000]);
    assert_eq!(history[&pair_key(0, 1)], vec![0]);
    assert_eq!(history[&pair_key(1, 2)], vec![4 * ONE]);
    assert_eq!(history.len(), 3);
    assert_eq!(
        values,
        pairs(&[(0, 0, -1_500_000), (0, 1, 0), (1, 0, 0), (1, 1, 0), (1, 2, 4 * ONE)])
    );
    assert_eq!(
        map,
        pairs(&[
            (0, 0, 100_000),
            (0, 1, 900_000),
            (1, 0, 66_667),
            (1, 1, 66_666),
            (1, 2, 866_667)
        ])
    );
}

#[test]
fn replay_of_one_pair_twice_takes_the_return_after_the_first_step() {
    let env = decision();
    let mut map = pairs(&[(0, 0, 500_000), (0, 1, 500_000)]);
    let mut values = pairs(&[(0, 0, 0), (0, 1, 0)]);
    let mut history: HashMap<u128, Vec<i64>> = HashMap::new();
    let trajectory = vec![(A, X, 3), (A, X, 5)];
    assert_eq!(
        learn_from_episode(&env, &mut map, &mut values, &mut history, &trajectory, ONE, 200_000),
        Ok(8 * ONE)
    );
    assert_eq!(history[&pair_key(0, 0)], vec![8 * ONE]);
    assert_eq!(values[&pair_key(0, 0)], 8 * ONE);
}

#[test]
fn replay_of_nothing_changes_nothing() {
    let env = walk();
    let mut map = pairs(&[(0, 0, 1)]);
    let mut values = pairs(&[(0, 0, 2)]);
    let mut history: HashMap<u128, Vec<i64>> = HashMap::new();
    assert_eq!(
        learn_from_episode(&env, &mut map, &mut values, &mut history, &vec![], ONE, 200_000),
        Ok(0)
    );
    assert_eq!(map, pairs(&[(0, 0, 1)]));
    assert_eq!(values, pairs(&[(0, 0, 2)]));
    assert!(history.is_empty());
}

#[test]
fn deterministic_policy_takes_its_action() {
    let env = walk();
    let policy = Policy::Deterministic([(0, Y)].into_iter().collect());
    assert_eq!(choose_action(&env, &policy, &A, 0), Some(Y));
    assert_eq!(choose_action(&env, &policy, &A, ONE - 1), Some(Y));
    assert_eq!(choose_action(&env, &policy, &B, 0), None);
}

#[test]
fn stochastic_policy_takes_the_action_that_the_cutoff_picks() {
    let env = walk();
    let policy = Policy::Stochastic(pairs(&[(1, 0, 200_000), (1, 1, 0), (1, 2, 800_000)]));
    assert_eq!(choose_action(&env, &policy, &B, 0), Some(X));
    assert_eq!(choose_action(&env, &policy, &B, 199_999), Some(X));
    assert_eq!(choose_action(&env, &policy, &B, 200_000), Some(Z));
    assert_eq!(choose_action(&env, &policy, &B, ONE - 1), Some(Z));
    // no row for the first state, no action in the last
    assert_eq!(choose_action(&env, &policy, &A, 0), None);
    assert_eq!(choose_action(&env, &policy, &C, 0), None);
}

#[test]
fn episode_under_a_deterministic_policy() {
    let env = walk();
    let mut rng = StdRng::seed_from_u64(1);
    let policy = Policy::Deterministic([(0, Y), (1, Y)].into_iter().collect());
    assert_eq!(episode(&env, &A, &policy, 10, &mut rng), Ok(vec![(A, Y, -2), (B, Y, 5)]));
    assert_eq!(episode(&env, &B, &policy, 10, &mut rng), Ok(vec![(B, Y, 5)]));
    assert_eq!(episode(&env, &C, &policy, 10, &mut rng), Ok(vec![]));
    assert_eq!(episode(&env, &C, &policy, 0, &mut rng), Ok(vec![]));
    assert_eq!(episode(&env, &A, &policy, 2, &mut rng), Ok(vec![(A, Y, -2), (B, Y, 5)]));
    assert_eq!(episode(&env, &A, &policy, 1, &mut rng), Err(SolveError::StepLimitReached));
    assert_eq!(episode(&env, &A, &policy, 0, &mut rng), Err(SolveError::StepLimitReached));
}

#[test]
fn episode_stops_where_the_policy_is_silent_or_never_ends() {
    let env = walk();
    let mut rng = StdRng::seed_from_u64(1);
    let silent = Policy::Deterministic([(0, Y)].into_iter().collect());
    assert_eq!(episode(&env, &A, &silent, 10, &mut rng), Err(SolveError::MalformedInput));
    let stuck = Policy::Deterministic([(0, X)].into_iter().collect());
    assert_eq!(episode(&env, &A, &stuck, 50, &mut rng), Err(SolveError::StepLimitReached));
}

#[test]
fn episode_under_a_stochastic_policy_is_a_walk_to_a_terminal_state() {
    let env = walk();
    let mut rng = StdRng::seed_from_u64(77);
    let policy = Policy::Stochastic(pairs(&[
        (0, 0, 500_000),
        (0, 1, 500_000),
        (1, 0, 0),
        (1, 1, 400_000),
        (1, 2, 600_000),
    ]));
    for _ in 0..50 {
        let trajectory = episode(&env, &A, &policy, 1_000, &mut rng).unwrap();
        let last = trajectory.len() - 1;
        for (i, (state, action, reward)) in trajectory.iter().enumerate() {
            if i < last {
                assert_eq!((*state, *action, *reward), (A, if i + 1 < last { X } else { Y }, if i + 1 < last { -1 } else { -2 }));
            } else {
                assert_eq!(*state, B);
                assert!((*action, *reward) == (Y, 5) || (*action, *reward) == (Z, 4));
            }
        }
    }
}

#[test]
fn table_model_steps_along_its_outcomes() {
    let env = TableModel {
        outcomes: vec![
            vec![vec![outcome(0, 1, 0), outcome(1, 2, ONE / 4), outcome(0, 3, 3 * (ONE / 4))]],
            vec![],
        ],
        terminal: vec![false, true],
    };
    let mut rng = StdRng::seed_from_u64(8);
    let mut seen = [0; 3];
    for _ in 0..400 {
        let step = env.response(&A, &X, &mut rng);
        if step == (B, 2) {
            seen[1] += 1;
        } else {
            assert_eq!(step, (A, 3));
            seen[2] += 1;
        }
    }
    assert!(seen[1] > 50 && seen[2] > 250);
    assert_eq!(env.response(&B, &X, &mut rng), (B, 0));
    assert_eq!(env.response(&A, &Y, &mut rng), (A, 0));
    assert_eq!(Enviorment::get_states(&env), vec![A, B]);
    assert_eq!(Enviorment::posible_actions(&env, &A), vec![X]);
    assert!(Enviorment::is_terminal(&env, &B));
}

#[test]
fn monte_carlo_control_learns_the_better_action() {
    let mut rng = StdRng::seed_from_u64(2024);
    let policy = Policy::Stochastic(pairs(&[(0, 0, 500_000), (0, 1, 500_000)]));
    let values = pairs(&[(0, 0, 0), (0, 1, 0)]);
    let (policy, values, losses) = first_visit_monte_carlo_control(
        policy,
        values,
        vec![A],
        200,
        decision(),
        200_000,
        ONE,
        10,
        &mut rng,
    )
    .unwrap();
    assert_eq!(losses.len(), 200);
    assert!(losses.iter().all(|g| *g == ONE || *g == -ONE));
    assert!(values[&pair_key(0, 0)] > values[&pair_key(0, 1)]);
    assert_eq!(values[&pair_key(0, 0)], ONE);
    let mut power = WHOLE;
    for _ in 0..199 {
        power = decay(power);
    }
    let last_rate = anneal(200_000, power);
    assert_eq!(last_rate, 163_893);
    match policy {
        Policy::Stochastic(map) => {
            assert!(map[&pair_key(0, 0)] >= ONE - last_rate + last_rate / 2);
            assert_eq!(map.values().sum::<i64>(), ONE);
        }
        Policy::Deterministic(_) => panic!("the policy changed its kind"),
    }
}

#[test]
fn monte_carlo_control_without_episodes_returns_what_it_got() {
    let mut rng = StdRng::seed_from_u64(1);
    let first = pairs(&[(0, 0, 500_000), (0, 1, 500_000)]);
    let values = pairs(&[(0, 0, 3), (0, 1, 4)]);
    let (policy, found, losses) = first_visit_monte_carlo_control(
        Policy::Stochastic(first.clone()),
        values.clone(),
        Vec::<TableState>::new(),
        0,
        decision(),
        200_000,
        ONE,
        10,
        &mut rng,
    )
    .unwrap();
    assert_eq!(found, values);
    assert!(losses.is_empty());
    match policy {
        Policy::Stochastic(map) => assert_eq!(map, first),
        Policy::Deterministic(_) => panic!("the policy changed its kind"),
    }
}

#[test]
fn monte_carlo_control_rejects_what_it_cannot_train_on() {
    let mut rng = StdRng::seed_from_u64(1);
    let first = pairs(&[(0, 0, 500_000), (0, 1, 500_000)]);
    let values = pairs(&[(0, 0, 0), (0, 1, 0)]);
    let fixed: Policy<TableAction> = Policy::Deterministic([(0, X)].into_iter().collect());
    let rejected =
        first_visit_monte_carlo_control(fixed, values.clone(), vec![A], 5, decision(), 200_000, ONE, 10, &mut rng);
    assert_eq!(rejected.err(), Some(SolveError::UnsupportedPolicy));
    let nowhere = first_visit_monte_carlo_control(
        Policy::Stochastic(first.clone()),
        values.clone(),
        Vec::<TableState>::new(),
        5,
        decision(),
        200_000,
        ONE,
        10,
        &mut rng,
    );
    assert_eq!(nowhere.err(), Some(SolveError::MalformedInput));
    let unknown = first_visit_monte_carlo_control(
        Policy::Stochastic(first.clone()),
        pairs(&[(0, 0, 0)]),
        vec![A],
        50,
        decision(),
        200_000,
        ONE,
        10,
        &mut rng,
    );
    assert_eq!(unknown.err(), Some(SolveError::MalformedInput));
    let endless = TableModel {
        outcomes: vec![vec![vec![outcome(0, -1, ONE)], vec![outcome(0, -1, ONE)]]],
        terminal: vec![false],
    };
    let stuck = first_visit_monte_carlo_control(
        Policy::Stochastic(first),
        values,
        vec![A],
        5,
        endless,
        200_000,
        ONE,
        10,
        &mut rng,
    );
    assert_eq!(stuck.err(), Some(SolveError::StepLimitReached));
}

#[test]
fn monte_carlo_control_keeps_every_row_whole_and_untouched_entries_as_they_were() {
    let mut rng = StdRng::seed_from_u64(99);
    // the third state of this walk is never come to, and an entry of a pair
    // that does not exist is never touched
    let env = TableModel {
        outcomes: vec![
            vec![vec![outcome(0, -1, ONE / 2), outcome(1, -1, ONE / 2)], vec![outcome(1, -2, ONE)]],
            vec![vec![outcome(3, 3, ONE)], vec![outcome(3, 5, ONE)], vec![outcome(3, 4, ONE)]],
            vec![vec![outcome(3, 0, ONE)], vec![outcome(3, 0, ONE)]],
            vec![],
        ],
        terminal: vec![false, false, false, true],
    };
    let first = pairs(&[
        (0, 0, 500_000),
        (0, 1, 500_000),
        (1, 0, 333_334),
        (1, 1, 333_333),
        (1, 2, 333_333),
        (2, 0, 123_456),
        (2, 1, 876_544),
        (7, 7, 42),
    ]);
    let values = pairs(&[
        (0, 0, 0),
        (0, 1, 0),
        (1, 0, 0),
        (1, 1, 0),
        (1, 2, 0),
        (2, 0, 11),
        (2, 1, 12),
        (7, 7, 13),
    ]);
    let (policy, found, losses) = first_visit_monte_carlo_control(
        Policy::Stochastic(first.clone()),
        values.clone(),
        vec![A],
        300,
        env,
        200_000,
        900_000,
        1_000,
        &mut rng,
    )
    .unwrap();
    assert_eq!(losses.len(), 300);
    let map = match policy {
        Policy::Stochastic(map) => map,
        Policy::Deterministic(_) => panic!("the policy changed its kind"),
    };
    assert_eq!(map.len(), first.len());
    assert_eq!(found.len(), values.len());
    for (state, count) in [(0, 2), (1, 3), (2, 2)] {
        let row: Vec<i64> = (0..count).map(|a| map[&pair_key(state, a)]).collect();
        assert_eq!(row.iter().sum::<i64>(), ONE);
        assert!(row.iter().all(|p| *p >= 0));
    }
    for (state, action) in [(2, 0), (2, 1), (7, 7)] {
        assert_eq!(map[&pair_key(state, action)], first[&pair_key(state, action)]);
        assert_eq!(found[&pair_key(state, action)], values[&pair_key(state, action)]);
    }
    // the second state ends the episode best by its second action
    assert_eq!(found[&pair_key(1, 1)], 5 * ONE);
    assert!(map[&pair_key(1, 1)] > map[&pair_key(1, 0)]);
}
