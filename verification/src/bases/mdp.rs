//! The domain contracts: states, actions, policies and the two kinds of
//! environment.
use std::collections::HashMap;

use rand::rngs::StdRng;
use vstd::prelude::*;

use crate::utils::fixed::ONE;
use crate::utils::random::random_below;
use crate::utils::stats::{is_picked, pick};

verus! {

/// A configuration of the environment.
///
/// A state is identified by its key: two states of one environment must not
/// share a key, and every table of the solvers is indexed by it.
pub trait State: Copy {
    /// The key that identifies the state.
    spec fn key_spec(self) -> u64;

    /// Computes the key.
    fn key(&self) -> (k: u64)
        ensures
            k == self.key_spec(),
    ;
}

/// A choice available in some state.
///
/// An action is identified by its key: actions are equal exactly when their
/// keys are.
pub trait Action: Copy {
    /// The key that identifies the action.
    spec fn key_spec(self) -> u64;

    /// Actions with the same key are the same action.
    proof fn key_is_injective(first: Self, second: Self)
        requires
            first.key_spec() == second.key_spec(),
        ensures
            first == second,
    ;

    /// Computes the key.
    fn key(&self) -> (k: u64)
        ensures
            k == self.key_spec(),
    ;
}

/// No two of the states share a key.
pub open spec fn distinct_keys<S: State>(states: Seq<S>) -> bool {
    forall|i: int, j: int|
        0 <= i < j < states.len() ==> (#[trigger] states[i]).key_spec() != (
        #[trigger] states[j]).key_spec()
}

/// The key of a state-action pair: the state's key in the upper half, the
/// action's in the lower.
pub open spec fn pair_key_spec(state: u64, action: u64) -> u128 {
    (state * 0x1_0000_0000_0000_0000 + action) as u128
}

/// Computes the key of a state-action pair.
pub fn pair_key(state: u64, action: u64) -> (k: u128)
    ensures
        k == pair_key_spec(state, action),
{
    (state as u128) * 0x1_0000_0000_0000_0000u128 + (action as u128)
}

/// Distinct pairs have distinct keys.
pub proof fn lemma_pair_key_injective(state1: u64, action1: u64, state2: u64, action2: u64)
    requires
        pair_key_spec(state1, action1) == pair_key_spec(state2, action2),
    ensures
        state1 == state2,
        action1 == action2,
{
}

/// One entry of a transition distribution: with this probability the
/// environment moves to `next_state` and pays `reward`.
pub struct Transition<S> {
    pub next_state: S,
    pub reward: i32,
    pub probability: i64,
}

/// The probability mass of the first `n` entries.
pub open spec fn mass<S>(outcomes: Seq<Transition<S>>, n: nat) -> int
    decreases n,
{
    if n == 0 {
        0
    } else {
        mass(outcomes, (n - 1) as nat) + outcomes[n - 1].probability
    }
}

/// No entry is negative and the entries together weigh at most 1.0.
pub open spec fn is_subdistribution<S>(outcomes: Seq<Transition<S>>) -> bool {
    &&& forall|i: int| 0 <= i < outcomes.len() ==> (#[trigger] outcomes[i]).probability >= 0
    &&& mass(outcomes, outcomes.len()) <= ONE
}

/// The entries are a probability distribution, or there is none: no entry
/// is negative, and if anything is listed the entries weigh exactly 1.0. A
/// pair from which nothing follows, such as a terminal state with an action,
/// lists nothing.
pub open spec fn is_distribution<S>(outcomes: Seq<Transition<S>>) -> bool {
    &&& is_subdistribution(outcomes)
    &&& outcomes.len() == 0 || mass(outcomes, outcomes.len()) == ONE
}

/// Why a solver gave up.
#[derive(Clone, Copy, Debug, PartialEq, Eq)]
pub enum SolveError {
    /// A table lacks an entry that the algorithm reads, a state offers no
    /// action where one is needed, or probabilities are negative or weigh
    /// more than 1.0.
    MalformedInput,
    /// The policy is of a variant that the algorithm does not handle.
    UnsupportedPolicy,
    /// The sweeps or improvement rounds that the caller allowed are used up.
    NotConverged,
    /// An episode did not reach a terminal state within the steps allowed.
    StepLimitReached,
}

/// A rule for choosing actions.
pub enum Policy<A> {
    /// One action for each state, by the state's key.
    Deterministic(HashMap<u64, A>),
    /// The probability of each action in each state, by the pair's key.
    Stochastic(HashMap<u128, i64>),
}

/// What a policy holds, as maps.
pub enum PolicyModel<A> {
    Deterministic(Map<u64, A>),
    Stochastic(Map<u128, i64>),
}

impl<A> View for Policy<A> {
    type V = PolicyModel<A>;

    open spec fn view(&self) -> PolicyModel<A> {
        match self {
            Policy::Deterministic(choice) => PolicyModel::Deterministic(choice@),
            Policy::Stochastic(probabilities) => PolicyModel::Stochastic(probabilities@),
        }
    }
}

/// The holder of the policy that the dynamic-programming solvers read and
/// improve.
pub struct Agent<A> {
    pub policy: Policy<A>,
}

/// An environment that exposes its transition probabilities.
pub trait EnviormentModel<S: State, A: Action> {
    /// What the environment's own data must satisfy for its methods to work.
    spec fn well_formed(&self) -> bool;

    /// The outcomes of taking `action` in `state`, each with its probability.
    /// Outcomes that are not listed have probability zero.
    spec fn dynamics_model(&self, state: S, action: A) -> Seq<Transition<S>>;

    /// The actions that are legal in `state`, in enumeration order.
    spec fn actions_model(&self, state: S) -> Seq<A>;

    /// All states, in enumeration order.
    spec fn states_model(&self) -> Seq<S>;

    /// Whether an episode ends in `state`.
    spec fn terminal_model(&self, state: S) -> bool;

    /// No two states of the environment share a key.
    proof fn states_are_distinct(&self)
        requires
            self.well_formed(),
        ensures
            distinct_keys(self.states_model()),
    ;

    /// The outcomes of every pair are a probability distribution, or
    /// nothing is listed for the pair.
    proof fn dynamics_is_distribution(&self, state: S, action: A)
        requires
            self.well_formed(),
        ensures
            is_distribution(self.dynamics_model(state, action)),
    ;

    /// Lists the outcomes of taking `action` in `state`.
    fn dynamics(&self, state: &S, action: &A) -> (outcomes: Vec<Transition<S>>)
        requires
            self.well_formed(),
        ensures
            outcomes@ == self.dynamics_model(*state, *action),
    ;

    /// Lists the actions that are legal in `state`.
    fn posible_actions(&self, state: &S) -> (actions: Vec<A>)
        requires
            self.well_formed(),
        ensures
            actions@ == self.actions_model(*state),
    ;

    /// Lists all states.
    fn get_states(&self) -> (states: Vec<S>)
        requires
            self.well_formed(),
        ensures
            states@ == self.states_model(),
    ;

    /// Says whether an episode ends in `state`.
    fn is_terminal(&self, state: &S) -> (terminal: bool)
        requires
            self.well_formed(),
        ensures
            terminal == self.terminal_model(*state),
    ;
}

/// An environment that can only be simulated, one step at a time.
pub trait Enviorment<S: State, A: Action> {
    /// What the environment's own data must satisfy for its methods to work.
    spec fn well_formed(&self) -> bool;

    /// Whether one step from `state` under `action` may end in `next_state`
    /// with `reward`. The step may draw on randomness, so several outcomes
    /// may be possible.
    spec fn may_respond(&self, state: S, action: A, next_state: S, reward: i32) -> bool;

    /// The actions that are legal in `state`, in enumeration order.
    spec fn actions_model(&self, state: S) -> Seq<A>;

    /// All states, in enumeration order.
    spec fn states_model(&self) -> Seq<S>;

    /// Whether an episode ends in `state`.
    spec fn terminal_model(&self, state: S) -> bool;

    /// Takes one step: the state that follows and the reward received.
    fn response(&self, state: &S, action: &A, rng: &mut StdRng) -> (step: (S, i32))
        requires
            self.well_formed(),
        ensures
            self.may_respond(*state, *action, step.0, step.1),
    ;

    /// Says whether an episode ends in `state`.
    fn is_terminal(&self, state: &S) -> (terminal: bool)
        requires
            self.well_formed(),
        ensures
            terminal == self.terminal_model(*state),
    ;

    /// Lists the actions that are legal in `state`.
    fn posible_actions(&self, state: &S) -> (actions: Vec<A>)
        requires
            self.well_formed(),
        ensures
            actions@ == self.actions_model(*state),
    ;

    /// Lists all states.
    fn get_states(&self) -> (states: Vec<S>)
        requires
            self.well_formed(),
        ensures
            states@ == self.states_model(),
    ;
}

/// The distribution from which a stochastic policy draws in `state`: the
/// legal actions, in enumeration order, each with its probability.
pub open spec fn policy_row<S: State, A: Action, E: Enviorment<S, A>>(
    env: &E,
    state: S,
    probabilities: Map<u128, i64>,
) -> Seq<(A, i64)> {
    let actions = env.actions_model(state);
    Seq::new(
        actions.len(),
        |i: int|
            (actions[i], probabilities[pair_key_spec(state.key_spec(), actions[i].key_spec())]),
    )
}

/// The policy says what to do in `state`: it holds an action for it, or a
/// probability for each of its legal actions, of which there is at least
/// one.
pub open spec fn can_select<S: State, A: Action, E: Enviorment<S, A>>(
    env: &E,
    policy: PolicyModel<A>,
    state: S,
) -> bool {
    match policy {
        PolicyModel::Deterministic(choice) => choice.contains_key(state.key_spec()),
        PolicyModel::Stochastic(probabilities) => {
            let actions = env.actions_model(state);
            &&& actions.len() > 0
            &&& forall|i: int|
                0 <= i < actions.len() ==> probabilities.contains_key(
                    pair_key_spec(state.key_spec(), (#[trigger] actions[i]).key_spec()),
                )
        },
    }
}

/// `action` is what the policy does in `state` when the draw is `cutoff`:
/// the action that a deterministic policy holds, or the legal action that
/// the cutoff picks from the row of a stochastic one.
pub open spec fn selects<S: State, A: Action, E: Enviorment<S, A>>(
    env: &E,
    policy: PolicyModel<A>,
    state: S,
    cutoff: int,
    action: A,
) -> bool {
    &&& can_select(env, policy, state)
    &&& match policy {
        PolicyModel::Deterministic(choice) => choice[state.key_spec()] == action,
        PolicyModel::Stochastic(probabilities) => exists|i: int|
            #[trigger] is_picked(policy_row(env, state, probabilities), cutoff, i)
                && env.actions_model(state)[i] == action,
    }
}

/// Some draw makes the policy take `action` in `state`.
pub open spec fn may_select<S: State, A: Action, E: Enviorment<S, A>>(
    env: &E,
    policy: PolicyModel<A>,
    state: S,
    action: A,
) -> bool {
    exists|cutoff: int| 0 <= cutoff < ONE && #[trigger] selects(env, policy, state, cutoff, action)
}

/// The steps lead from `start` to `end`: each step starts in a state that
/// is not terminal, takes an action that the policy may select there, and
/// ends where the next step starts, or in `end`, as the environment may
/// respond.
pub open spec fn is_walk<S: State, A: Action, E: Enviorment<S, A>>(
    env: &E,
    policy: PolicyModel<A>,
    start: S,
    steps: Seq<(S, A, i32)>,
    end: S,
) -> bool {
    &&& steps.len() == 0 ==> end == start
    &&& steps.len() > 0 ==> {
        &&& steps[0].0 == start
        &&& env.may_respond(steps.last().0, steps.last().1, end, steps.last().2)
    }
    &&& forall|i: int|
        0 <= i < steps.len() ==> {
            &&& !env.terminal_model((#[trigger] steps[i]).0)
            &&& may_select(env, policy, steps[i].0, steps[i].1)
        }
    &&& forall|i: int|
        0 <= i < steps.len() - 1 ==> env.may_respond(
            (#[trigger] steps[i]).0,
            steps[i].1,
            steps[i + 1].0,
            steps[i].2,
        )
}

/// What the policy does in `state` when the draw is `cutoff`; `None` if the
/// policy does not say.
pub fn choose_action<S: State, A: Action, E: Enviorment<S, A>>(
    env: &E,
    policy: &Policy<A>,
    state: &S,
    cutoff: i64,
) -> (action: Option<A>)
    requires
        env.well_formed(),
    ensures
        action is Some <==> can_select(env, policy@, *state),
        action matches Some(a) ==> selects(env, policy@, *state, cutoff as int, a),
{
    let state_key: u64 = state.key();
    match policy {
        Policy::Deterministic(choice) => match choice.get(&state_key) {
            Some(action) => Some(*action),
            None => None,
        },
        Policy::Stochastic(probabilities) => {
            let actions = env.posible_actions(state);
            let mut row: Vec<(A, i64)> = Vec::new();
            let mut i: usize = 0;
            while i < actions.len()
                invariant
                    0 <= i <= actions.len(),
                    actions@ == env.actions_model(*state),
                    state_key == state.key_spec(),
                    policy@ == PolicyModel::<A>::Stochastic(probabilities@),
                    row.len() == i,
                    forall|j: int|
                        0 <= j < i ==> probabilities@.contains_key(
                            pair_key_spec(state_key, (#[trigger] actions@[j]).key_spec()),
                        ),
                    forall|j: int|
                        0 <= j < i ==> row@[j] == policy_row(env, *state, probabilities@)[j],
                decreases actions.len() - i,
            {
                let key: u128 = pair_key(state_key, actions[i].key());
                match probabilities.get(&key) {
                    Some(p) => {
                        row.push((actions[i], *p));
                    },
                    None => {
                        return None;
                    },
                }
                i += 1;
            }
            if row.len() == 0 {
                return None;
            }
            assert(row@ =~= policy_row(env, *state, probabilities@));
            let index: usize = pick(&row, cutoff);
            assert(is_picked(
                policy_row(env, *state, probabilities@),
                cutoff as int,
                index as int,
            ));
            assert(can_select(env, policy@, *state));
            Some(actions[index])
        },
    }
}

/// Runs one episode from `init_state` under `pol`: takes the policy's
/// action and the environment's response until the state is terminal,
/// and returns the states left, the actions taken there and the rewards
/// received. It gives up if the policy does not say what to do in a
/// state that it comes to, or after `max_steps` steps.
pub fn episode<S: State, A: Action, E: Enviorment<S, A>>(
    env: &E,
    init_state: &S,
    pol: &Policy<A>,
    max_steps: usize,
    rng: &mut StdRng,
) -> (outcome: Result<Vec<(S, A, i32)>, SolveError>)
    requires
        env.well_formed(),
    ensures
        env.terminal_model(*init_state) ==> (outcome matches Ok(trajectory)
            && trajectory@.len() == 0),
        outcome matches Ok(trajectory) ==> {
            &&& trajectory@.len() <= max_steps
            &&& exists|end: S|
                #[trigger] is_walk(env, pol@, *init_state, trajectory@, end)
                    && env.terminal_model(end)
        },
        outcome matches Err(reason) ==> exists|steps: Seq<(S, A, i32)>, end: S|
            {
                &&& #[trigger] is_walk(env, pol@, *init_state, steps, end)
                &&& !env.terminal_model(end)
                &&& steps.len() <= max_steps
                &&& reason == SolveError::StepLimitReached ==> steps.len() == max_steps
                &&& reason == SolveError::MalformedInput ==> !can_select(env, pol@, end)
                &&& reason == SolveError::StepLimitReached || reason
                    == SolveError::MalformedInput
            },
{
    let mut state: S = *init_state;
    let mut trajectory: Vec<(S, A, i32)> = Vec::new();
    loop
        invariant
            env.well_formed(),
            trajectory@.len() <= max_steps,
            is_walk(env, pol@, *init_state, trajectory@, state),
            env.terminal_model(*init_state) ==> trajectory@.len() == 0 && state == *init_state,
        decreases max_steps - trajectory@.len(),
    {
        if env.is_terminal(&state) {
            return Ok(trajectory);
        }
        if trajectory.len() >= max_steps {
            return Err(SolveError::StepLimitReached);
        }
        let cutoff: i64 = match pol {
            Policy::Stochastic(_) => random_below(rng, ONE),
            Policy::Deterministic(_) => 0,
        };
        let action: A = match choose_action(env, pol, &state, cutoff) {
            Some(action) => action,
            None => {
                return Err(SolveError::MalformedInput);
            },
        };
        let (next_state, reward) = env.response(&state, &action, rng);
        let ghost before = trajectory@;
        trajectory.push((state, action, reward));
        proof {
            assert(selects(env, pol@, state, cutoff as int, action));
            assert(may_select(env, pol@, state, action));
            assert forall|i: int| 0 <= i < trajectory@.len() implies {
                &&& !env.terminal_model((#[trigger] trajectory@[i]).0)
                &&& may_select(env, pol@, trajectory@[i].0, trajectory@[i].1)
            } by {
                if i < before.len() {
                    assert(trajectory@[i] == before[i]);
                }
            }
            assert forall|i: int| 0 <= i < trajectory@.len() - 1 implies env.may_respond(
                (#[trigger] trajectory@[i]).0,
                trajectory@[i].1,
                trajectory@[i + 1].0,
                trajectory@[i].2,
            ) by {
                assert(trajectory@[i] == before[i]);
                if i < before.len() - 1 {
                    assert(trajectory@[i + 1] == before[i + 1]);
                }
            }
        }
        state = next_state;
    }
}

} // verus!
