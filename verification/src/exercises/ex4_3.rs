//! The gambler's problem.
//!
//! A gambler bets on coin flips. On heads he wins his stake, on tails he
//! loses it. The game ends when he reaches a capital of 100 or runs out of
//! money. The state is his capital, an action is a stake of at most his
//! capital and at most what he lacks to 100, and the only reward is 1 for
//! reaching 100: the value of a state is the probability of winning from it.
use std::collections::HashMap;

use rand::rngs::StdRng;
use vstd::prelude::*;

use crate::bases::bellman::residual;
use crate::bases::mdp::{
    mass, Action, Agent, EnviormentModel, Policy, PolicyModel, SolveError, State, Transition,
};
use crate::bases::policy_iteration::{
    greedy_choices, greedy_policy, initial_values, is_closed, is_initial, iterated,
    lemma_closed_improvement, lemma_closed_sweep_defined, lemma_iterated_domain,
    lemma_iterated_malformed, policy_iterated, policy_iteration, solution_matches,
    successors_known, value_iteration,
};
use crate::utils::fixed::ONE;
use crate::utils::random::choose_one;

verus! {

/// The gambler's capital.
#[derive(PartialEq, Eq, Clone, Copy, Hash, Debug)]
pub struct GamblerState {
    pub capital: u8,
}

/// The amount that the gambler stakes on the next flip.
#[derive(PartialEq, Eq, Clone, Copy, Hash, Debug)]
pub struct GamblerAction {
    pub stake: u8,
}

/// The coin: the probability of heads, as a fixed-point number.
pub struct Casino {
    pub probability_of_win: i64,
}

impl GamblerState {
    /// The game is over: the gambler is broke or has reached 100.
    pub open spec fn terminal(self) -> bool {
        self.capital == 0 || self.capital == 100
    }

    /// Says whether the game is over.
    pub fn is_terminal(&self) -> (terminal: bool)
        ensures
            terminal == self.terminal(),
    {
        self.capital == 0 || self.capital == 100
    }
}

impl State for GamblerState {
    open spec fn key_spec(self) -> u64 {
        self.capital as u64
    }

    fn key(&self) -> (k: u64) {
        self.capital as u64
    }
}

impl Action for GamblerAction {
    open spec fn key_spec(self) -> u64 {
        self.stake as u64
    }

    proof fn key_is_injective(first: Self, second: Self) {
    }

    fn key(&self) -> (k: u64) {
        self.stake as u64
    }
}

/// The largest stake with the given capital: the capital itself, or what is
/// lacking to 100 if that is less.
pub open spec fn largest_stake(capital: int) -> int {
    if capital <= 100 - capital {
        capital
    } else {
        100 - capital
    }
}

/// Whether the gambler may bet `stake` with the capital `capital`: he is
/// still in the game, can pay the stake and does not need less to reach 100.
pub open spec fn is_bet(capital: int, stake: int) -> bool {
    0 < capital < 100 && 0 <= stake <= largest_stake(capital)
}

/// Tails: the gambler loses the stake.
pub open spec fn losing(p: i64, capital: int, stake: int) -> Transition<GamblerState> {
    Transition {
        next_state: GamblerState { capital: (capital - stake) as u8 },
        reward: 0,
        probability: (ONE - p) as i64,
    }
}

/// Heads: the gambler wins the stake, for the reward 1 if that takes him to
/// 100.
pub open spec fn winning(p: i64, capital: int, stake: int) -> Transition<GamblerState> {
    Transition {
        next_state: GamblerState { capital: (capital + stake) as u8 },
        reward: if capital + stake == 100 {
            1i32
        } else {
            0i32
        },
        probability: p,
    }
}

impl EnviormentModel<GamblerState, GamblerAction> for Casino {
    /// The probability of heads lies between 0.0 and 1.0.
    open spec fn well_formed(&self) -> bool {
        0 <= self.probability_of_win <= ONE
    }

    /// A bet is lost or won: the outcome of tails, then the outcome of
    /// heads, also where nothing is staked and both leave the capital as it
    /// is. Outcomes of probability zero are listed like the others. Nothing
    /// follows from a terminal state or from a stake that is not a bet.
    open spec fn dynamics_model(&self, state: GamblerState, action: GamblerAction) -> Seq<
        Transition<GamblerState>,
    > {
        let p = self.probability_of_win;
        let capital = state.capital as int;
        let stake = action.stake as int;
        if is_bet(capital, stake) {
            seq![losing(p, capital, stake), winning(p, capital, stake)]
        } else {
            Seq::empty()
        }
    }

    /// The stakes from 0 to the largest stake, in rising order; none for a
    /// capital beyond 100.
    open spec fn actions_model(&self, state: GamblerState) -> Seq<GamblerAction> {
        if state.capital <= 100 {
            Seq::new(
                (largest_stake(state.capital as int) + 1) as nat,
                |i: int| GamblerAction { stake: i as u8 },
            )
        } else {
            Seq::empty()
        }
    }

    /// The capitals from 0 to 100, in rising order.
    open spec fn states_model(&self) -> Seq<GamblerState> {
        Seq::new(101, |i: int| GamblerState { capital: i as u8 })
    }

    open spec fn terminal_model(&self, state: GamblerState) -> bool {
        state.terminal()
    }

    proof fn states_are_distinct(&self) {
    }

    proof fn dynamics_is_distribution(&self, state: GamblerState, action: GamblerAction) {
        reveal_with_fuel(mass, 3);
    }

    fn dynamics(&self, state: &GamblerState, action: &GamblerAction) -> (outcomes: Vec<
        Transition<GamblerState>,
    >) {
        let p: i64 = self.probability_of_win;
        let capital: u8 = state.capital;
        let stake: u8 = action.stake;
        let mut outcomes: Vec<Transition<GamblerState>> = Vec::new();
        if 0 < capital && capital < 100 && stake <= capital && stake <= 100 - capital {
            outcomes.push(
                Transition {
                    next_state: GamblerState { capital: capital - stake },
                    reward: 0,
                    probability: ONE - p,
                },
            );
            outcomes.push(
                Transition {
                    next_state: GamblerState { capital: capital + stake },
                    reward: if capital + stake == 100 {
                        1
                    } else {
                        0
                    },
                    probability: p,
                },
            );
        }
        assert(outcomes@ =~= self.dynamics_model(*state, *action));
        outcomes
    }

    fn posible_actions(&self, state: &GamblerState) -> (actions: Vec<GamblerAction>) {
        let mut actions: Vec<GamblerAction> = Vec::new();
        if state.capital > 100 {
            assert(actions@ =~= self.actions_model(*state));
            return actions;
        }
        let largest: u8 = if state.capital <= 100 - state.capital {
            state.capital
        } else {
            100 - state.capital
        };
        let mut stake: u8 = 0;
        while stake <= largest
            invariant
                largest <= 100,
                stake <= largest + 1,
                actions.len() == stake,
                forall|j: int| 0 <= j < stake ==> actions[j] == (GamblerAction { stake: j as u8 }),
            decreases largest + 1 - stake,
        {
            actions.push(GamblerAction { stake });
            stake += 1;
        }
        assert(actions@ =~= self.actions_model(*state));
        actions
    }

    fn get_states(&self) -> (states: Vec<GamblerState>) {
        let mut states: Vec<GamblerState> = Vec::new();
        let mut capital: u8 = 0;
        while capital < 101
            invariant
                capital <= 101,
                states.len() == capital,
                forall|j: int|
                    0 <= j < capital ==> states[j] == (GamblerState { capital: j as u8 }),
            decreases 101 - capital,
        {
            states.push(GamblerState { capital });
            capital += 1;
        }
        assert(states@ =~= self.states_model());
        states
    }

    fn is_terminal(&self, state: &GamblerState) -> (terminal: bool) {
        state.is_terminal()
    }
}

/// A bet is lost or won: its two outcomes are listed, and their
/// probabilities add up to 1.0.
pub proof fn lemma_bets_weigh_one(casino: &Casino, state: GamblerState, action: GamblerAction)
    requires
        casino.well_formed(),
        is_bet(state.capital as int, action.stake as int),
    ensures
        casino.dynamics_model(state, action) == seq![
            losing(casino.probability_of_win, state.capital as int, action.stake as int),
            winning(casino.probability_of_win, state.capital as int, action.stake as int),
        ],
        mass(casino.dynamics_model(state, action), 2) == ONE,
{
    reveal_with_fuel(mass, 3);
}

/// The capitals are closed under betting: whatever is staked, the gambler
/// ends with a capital between 0 and 100.
pub proof fn lemma_capitals_are_closed(casino: &Casino, known: Set<u64>)
    requires
        forall|capital: u64| capital <= 100 ==> known.contains(capital),
    ensures
        is_closed(casino, casino.states_model(), known),
        forall|i: int|
            0 <= i < casino.states_model().len() ==> casino.actions_model(
                #[trigger] casino.states_model()[i],
            ).len() > 0,
{
    let states = casino.states_model();
    assert forall|i: int, action: GamblerAction| 0 <= i < states.len() implies {
        &&& known.contains((#[trigger] states[i]).key_spec())
        &&& #[trigger] successors_known(casino.dynamics_model(states[i], action), known)
    } by {
        let outcomes = casino.dynamics_model(states[i], action);
        assert forall|j: int| 0 <= j < outcomes.len() implies known.contains(
            (#[trigger] outcomes[j]).next_state.key_spec(),
        ) by {
            assert(outcomes[j].next_state.capital <= 100);
        }
    }
}

/// The probability of heads in the game that `solution` solves: 0.4.
pub const HEADS: i64 = 400_000;

/// The tolerance to which `solution` solves the game: 0.01.
pub const TOLERANCE: i64 = 10_000;

/// The casino of the game that `solution` solves.
pub open spec fn house() -> Casino {
    Casino { probability_of_win: HEADS }
}

/// What `solution` finds: the values and the greedy policy that value
/// iteration gives, and those that policy iteration gives.
pub struct GamblerSolution {
    pub values: HashMap<u64, i64>,
    pub policy: HashMap<u64, GamblerAction>,
    pub iterated_values: HashMap<u64, i64>,
    pub iterated_policy: HashMap<u64, GamblerAction>,
}

/// The policy is a policy for the casino: it holds a legal stake for every
/// capital.
pub open spec fn is_gambling_policy(casino: &Casino, policy: Map<u64, GamblerAction>) -> bool {
    forall|capital: u8|
        capital <= 100 ==> {
            &&& #[trigger] policy.contains_key(capital as u64)
            &&& policy[capital as u64].stake <= largest_stake(capital as int)
        }
}

/// A policy that stakes a random legal amount at every capital.
pub fn random_policy(casino: &Casino, rng: &mut StdRng) -> (policy: HashMap<u64, GamblerAction>)
    requires
        casino.well_formed(),
    ensures
        is_gambling_policy(casino, policy@),
{
    let states = casino.get_states();
    let mut policy: HashMap<u64, GamblerAction> = HashMap::new();
    let mut i: usize = 0;
    while i < states.len()
        invariant
            0 <= i <= states.len(),
            casino.well_formed(),
            states@ == casino.states_model(),
            forall|capital: u8|
                capital < i ==> {
                    &&& #[trigger] policy@.contains_key(capital as u64)
                    &&& policy@[capital as u64].stake <= largest_stake(capital as int)
                },
        decreases states.len() - i,
    {
        let actions = casino.posible_actions(&states[i]);
        match choose_one(&actions, rng) {
            Some(action) => {
                proof {
                    let index = choose|j: int| 0 <= j < actions@.len() && actions@[j] == *action;
                    assert(actions@[index] == *action);
                }
                policy.insert(states[i].key(), *action);
            },
            None => {},
        }
        i += 1;
    }
    policy
}

/// Policy iteration on the gambler's problem, from first values for its
/// capitals and a policy that stakes at every capital, fails only if the
/// sweeps or rounds allowed are used up, and where it succeeds every capital
/// has a value.
pub proof fn lemma_gambler_iterates(
    casino: &Casino,
    choice: Map<u64, GamblerAction>,
    sweeps: nat,
    rounds: nat,
)
    requires
        is_gambling_policy(casino, choice),
    ensures
        forall|first: Map<u64, i64>|
            is_initial(casino, first, ONE) ==> match #[trigger] policy_iterated(
                casino,
                PolicyModel::Deterministic(choice),
                first,
                ONE as int,
                TOLERANCE as int,
                sweeps,
                rounds,
            ) {
                Ok(solution) => forall|capital: u64|
                    capital <= 100 ==> solution.1.dom().contains(capital),
                Err(reason) => reason == SolveError::NotConverged,
            },
{
    let states = casino.states_model();
    let rule = Some(PolicyModel::Deterministic(choice));
    assert forall|first: Map<u64, i64>| is_initial(casino, first, ONE) implies match #[trigger] policy_iterated(
        casino,
        PolicyModel::Deterministic(choice),
        first,
        ONE as int,
        TOLERANCE as int,
        sweeps,
        rounds,
    ) {
        Ok(solution) => forall|capital: u64| capital <= 100 ==> solution.1.dom().contains(capital),
        Err(reason) => reason == SolveError::NotConverged,
    } by {
        assert forall|capital: u64| capital <= 100 implies first.dom().contains(capital) by {
            assert(states[capital as int].key_spec() == capital);
        }
        lemma_capitals_are_closed(casino, first.dom());
        assert forall|i: int| 0 <= i < states.len() implies choice.contains_key(
            (#[trigger] states[i]).key_spec(),
        ) by {
            assert(choice.contains_key((i as u8) as u64));
        }
        lemma_closed_sweep_defined(casino, rule, states, first.dom());
        lemma_iterated_malformed(casino, rule, states, first, ONE as int, TOLERANCE as int, sweeps);
        lemma_iterated_domain(casino, rule, states, first, ONE as int, TOLERANCE as int, sweeps);
        match iterated(casino, rule, states, first, ONE as int, TOLERANCE as int, sweeps) {
            Ok(found) => {
                lemma_closed_improvement(
                    casino,
                    states,
                    choice,
                    found,
                    ONE as int,
                    TOLERANCE as int,
                    sweeps,
                    rounds,
                );
            },
            Err(_) => {},
        }
    }
}

/// Value iteration on the gambler's problem does not converge within the
/// sweeps allowed from some first values.
pub open spec fn values_not_found(sweeps: nat) -> bool {
    exists|first: Map<u64, i64>|
        is_initial(&house(), first, 0) && #[trigger] iterated(
            &house(),
            None::<PolicyModel<GamblerAction>>,
            house().states_model(),
            first,
            ONE as int,
            TOLERANCE as int,
            sweeps,
        ) == Err::<Map<u64, i64>, SolveError>(SolveError::NotConverged)
}

/// Policy iteration on the gambler's problem does not end within the sweeps
/// and rounds allowed from some policy that stakes legally and some first
/// values.
pub open spec fn policy_not_found(sweeps: nat, rounds: nat) -> bool {
    exists|choice: Map<u64, GamblerAction>, first: Map<u64, i64>|
        is_gambling_policy(&house(), choice) && is_initial(&house(), first, ONE) && (
        #[trigger] policy_iterated(
            &house(),
            PolicyModel::Deterministic(choice),
            first,
            ONE as int,
            TOLERANCE as int,
            sweeps,
            rounds,
        )) == Err::<(Map<u64, GamblerAction>, Map<u64, i64>), SolveError>(
            SolveError::NotConverged,
        )
}

/// Solves the gambler's problem for a coin that shows heads with
/// probability 0.4, without discounting and to a tolerance of 0.01: once by
/// value iteration from random first values, and once by policy iteration
/// from a random policy. For both it also extracts the greedy policy.
///
/// It fails only if value iteration or policy iteration uses up the sweeps
/// or rounds allowed, from the values and the policy that were drawn. Where it
/// succeeds, both value functions satisfy the Bellman optimality equation
/// within the tolerance at every capital, and each policy returned is the
/// greedy policy of its values.
pub fn solution(max_sweeps: usize, max_rounds: usize, rng: &mut StdRng) -> (outcome: Result<
    GamblerSolution,
    SolveError,
>)
    ensures
        outcome matches Err(reason) ==> {
            &&& reason == SolveError::NotConverged
            &&& values_not_found(max_sweeps as nat) || policy_not_found(
                max_sweeps as nat,
                max_rounds as nat,
            )
        },
        outcome matches Ok(found) ==> {
            let states = house().states_model();
            &&& found.policy@ == greedy_choices(
                &house(),
                states,
                found.values@,
                ONE as int,
                states.len(),
            )
            &&& found.iterated_policy@ == greedy_choices(
                &house(),
                states,
                found.iterated_values@,
                ONE as int,
                states.len(),
            )
            &&& forall|i: int|
                0 <= i < states.len() ==> {
                    &&& residual(
                        &house(),
                        None::<PolicyModel<GamblerAction>>,
                        #[trigger] states[i],
                        found.values@,
                        ONE as int,
                    ) < TOLERANCE
                    &&& residual(
                        &house(),
                        None::<PolicyModel<GamblerAction>>,
                        states[i],
                        found.iterated_values@,
                        ONE as int,
                    ) < TOLERANCE
                }
        },
{
    let casino = Casino { probability_of_win: HEADS };
    proof {
        casino.states_are_distinct();
    }
    let states = casino.get_states();
    let mapping = random_policy(&casino, rng);
    let mut gambler = Agent { policy: Policy::Deterministic(mapping) };
    let ghost choice = mapping@;
    let first = initial_values(&casino, 0, rng);
    proof {
        assert forall|capital: u64| capital <= 100 implies first@.dom().contains(capital) by {
            assert(states@[capital as int].key_spec() == capital);
        }
        lemma_capitals_are_closed(&casino, first@.dom());
        lemma_closed_sweep_defined(
            &casino,
            None::<PolicyModel<GamblerAction>>,
            states@,
            first@.dom(),
        );
    }
    let ghost drawn = first@;
    let values = match value_iteration(
        &casino,
        &states,
        Some(first),
        ONE,
        TOLERANCE,
        max_sweeps,
        rng,
    ) {
        Ok(values) => values,
        Err(e) => {
            proof {
                assert(iterated(
                    &house(),
                    None::<PolicyModel<GamblerAction>>,
                    house().states_model(),
                    drawn,
                    ONE as int,
                    TOLERANCE as int,
                    max_sweeps as nat,
                ) == Err::<Map<u64, i64>, SolveError>(SolveError::NotConverged));
                assert(values_not_found(max_sweeps as nat));
            }
            return Err(e);
        },
    };
    proof {
        lemma_capitals_are_closed(&casino, values@.dom());
        lemma_closed_sweep_defined(
            &casino,
            None::<PolicyModel<GamblerAction>>,
            states@,
            values@.dom(),
        );
    }
    let policy = match greedy_policy(&casino, &states, &values, ONE) {
        Ok(policy) => policy,
        Err(e) => {
            return Err(e);
        },
    };
    let iterated_values = match policy_iteration(
        &mut gambler,
        &casino,
        None,
        ONE,
        TOLERANCE,
        max_sweeps,
        max_rounds,
        rng,
    ) {
        Ok(values) => {
            proof {
                lemma_gambler_iterates(&casino, choice, max_sweeps as nat, max_rounds as nat);
            }
            values
        },
        Err(e) => {
            proof {
                lemma_gambler_iterates(&casino, choice, max_sweeps as nat, max_rounds as nat);
                let first = choose|first: Map<u64, i64>|
                    is_initial(&casino, first, ONE) && solution_matches(
                        gambler.policy@,
                        Err::<HashMap<u64, i64>, SolveError>(e),
                        #[trigger] policy_iterated(
                            &casino,
                            PolicyModel::Deterministic(choice),
                            first,
                            ONE as int,
                            TOLERANCE as int,
                            max_sweeps as nat,
                            max_rounds as nat,
                        ),
                    );
                assert(policy_iterated(
                    &house(),
                    PolicyModel::Deterministic(choice),
                    first,
                    ONE as int,
                    TOLERANCE as int,
                    max_sweeps as nat,
                    max_rounds as nat,
                ) == Err::<(Map<u64, GamblerAction>, Map<u64, i64>), SolveError>(
                    SolveError::NotConverged,
                ));
                assert(policy_not_found(max_sweeps as nat, max_rounds as nat));
            }
            return Err(e);
        },
    };
    proof {
        lemma_capitals_are_closed(&casino, iterated_values@.dom());
        lemma_closed_sweep_defined(
            &casino,
            None::<PolicyModel<GamblerAction>>,
            states@,
            iterated_values@.dom(),
        );
    }
    let iterated_policy = match greedy_policy(&casino, &states, &iterated_values, ONE) {
        Ok(policy) => policy,
        Err(e) => {
            return Err(e);
        },
    };
    proof {
        assert forall|i: int| 0 <= i < states@.len() implies residual(
            &casino,
            None::<PolicyModel<GamblerAction>>,
            #[trigger] states@[i],
            iterated_values@,
            ONE as int,
        ) < TOLERANCE by {
            assert(casino.actions_model(states@[i]).len() > 0);
        }
    }
    Ok(GamblerSolution { values, policy, iterated_values, iterated_policy })
}

} // verus!
