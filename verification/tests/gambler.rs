use mdp_solver::bases::mdp::{Action, EnviormentModel, State};
use mdp_solver::bases::policy_iteration::{action_value, state_value};
use mdp_solver::exercises::ex4_3::{
    random_policy, solution, Casino, GamblerAction, GamblerState, HEADS, TOLERANCE,
};
use mdp_solver::utils::fixed::ONE;
use rand::rngs::StdRng;
use rand::SeedableRng;

fn outcomes(casino: &Casino, capital: u8, stake: u8) -> Vec<(u8, i32, i64)> {
    casino
        .dynamics(&GamblerState { capital }, &GamblerAction { stake })
        .iter()
        .map(|t| (t.next_state.capital, t.reward, t.probability))
        .collect()
}

#[test]
fn gambler_keys_are_capital_and_stake() {
    assert_eq!(GamblerState { capital: 42 }.key(), 42);
    assert_eq!(GamblerAction { stake: 7 }.key(), 7);
}

#[test]
fn a_bet_is_lost_or_won() {
    let casino = Casino { probability_of_win: 400_000 };
    assert_eq!(outcomes(&casino, 30, 10), vec![(20, 0, 600_000), (40, 0, 400_000)]);
    assert_eq!(outcomes(&casino, 50, 50), vec![(0, 0, 600_000), (100, 1, 400_000)]);
    assert_eq!(outcomes(&casino, 99, 1), vec![(98, 0, 600_000), (100, 1, 400_000)]);
}

#[test]
fn a_stake_of_nothing_leaves_the_capital_either_way() {
    let casino = Casino { probability_of_win: 400_000 };
    assert_eq!(outcomes(&casino, 30, 0), vec![(30, 0, 600_000), (30, 0, 400_000)]);
}

#[test]
fn every_legal_bet_weighs_one() {
    for heads in [0, 1, 250_000, 400_000, ONE - 1, ONE] {
        let casino = Casino { probability_of_win: heads };
        for capital in 1..100u8 {
            for stake in 0..=capital.min(100 - capital) {
                let listed = outcomes(&casino, capital, stake);
                assert_eq!(listed.len(), 2);
                assert_eq!(listed.iter().map(|o| o.2).sum::<i64>(), ONE);
                assert_eq!(listed[0], (capital - stake, 0, ONE - heads));
                let reward = if capital + stake == 100 { 1 } else { 0 };
                assert_eq!(listed[1], (capital + stake, reward, heads));
            }
        }
    }
}

#[test]
fn terminal_capitals_have_no_outcome() {
    let casino = Casino { probability_of_win: 400_000 };
    assert_eq!(outcomes(&casino, 0, 0), vec![]);
    assert_eq!(outcomes(&casino, 100, 0), vec![]);
    assert!(GamblerState { capital: 0 }.is_terminal());
    assert!(GamblerState { capital: 100 }.is_terminal());
    assert!(!GamblerState { capital: 1 }.is_terminal());
    assert!(casino.is_terminal(&GamblerState { capital: 100 }));
    assert!(!casino.is_terminal(&GamblerState { capital: 99 }));
}

#[test]
fn nothing_follows_from_a_stake_beyond_the_rules() {
    let casino = Casino { probability_of_win: 400_000 };
    assert_eq!(outcomes(&casino, 60, 50), vec![]);
    assert_eq!(outcomes(&casino, 10, 20), vec![]);
    assert_eq!(outcomes(&casino, 10, 255), vec![]);
    assert_eq!(outcomes(&casino, 100, 1), vec![]);
    assert_eq!(outcomes(&casino, 255, 255), vec![]);
    assert_eq!(outcomes(&casino, 60, 40), vec![(20, 0, 600_000), (100, 1, 400_000)]);
}

#[test]
fn legal_stakes() {
    let casino = Casino { probability_of_win: 400_000 };
    let stakes = |capital: u8| -> Vec<u8> {
        casino.posible_actions(&GamblerState { capital }).iter().map(|a| a.stake).collect()
    };
    assert_eq!(stakes(0), vec![0]);
    assert_eq!(stakes(3), vec![0, 1, 2, 3]);
    assert_eq!(stakes(50).len(), 51);
    assert_eq!(stakes(98), vec![0, 1, 2]);
    assert_eq!(stakes(100), vec![0]);
    assert_eq!(stakes(101), Vec::<u8>::new());
}

#[test]
fn capitals_from_nothing_to_the_goal() {
    let casino = Casino { probability_of_win: 400_000 };
    let capitals: Vec<u8> = casino.get_states().iter().map(|s| s.capital).collect();
    assert_eq!(capitals, (0..=100).collect::<Vec<u8>>());
}

#[test]
fn lookahead_of_a_bet() {
    let casino = Casino { probability_of_win: 400_000 };
    let values = (0..=100u64).map(|c| (c, 0)).collect();
    let state = GamblerState { capital: 50 };
    assert_eq!(action_value(&casino, &state, &GamblerAction { stake: 50 }, &values, ONE), Some(400_000));
    assert_eq!(action_value(&casino, &state, &GamblerAction { stake: 49 }, &values, ONE), Some(0));
}

#[test]
fn random_policy_stakes_legally() {
    let casino = Casino { probability_of_win: HEADS };
    let mut rng = StdRng::seed_from_u64(3);
    let policy = random_policy(&casino, &mut rng);
    assert_eq!(policy.len(), 101);
    for capital in 0..=100u8 {
        assert!(policy[&(capital as u64)].stake <= capital.min(100 - capital));
    }
}

#[test]
fn gambler_solution_solves_the_optimality_equation_both_ways() {
    let casino = Casino { probability_of_win: HEADS };
    let mut rng = StdRng::seed_from_u64(12);
    let found = solution(10_000, 1_000, &mut rng).unwrap();
    let states = casino.get_states();
    for values in [&found.values, &found.iterated_values] {
        assert_eq!(values.len(), 101);
        for state in &states {
            let backup = state_value::<_, GamblerAction, _>(&casino, None, state, values, ONE).unwrap();
            assert!((values[&state.key()] - backup).abs() < TOLERANCE);
        }
        assert_eq!(values[&0], 0);
        assert_eq!(values[&100], 0);
    }
    assert_eq!(found.policy.len(), 101);
    assert_eq!(found.iterated_policy.len(), 101);
    for (capital, action) in &found.policy {
        assert!(action.stake as u64 <= *capital.min(&(100 - capital)));
    }
}
