//! Dynamic programming on an environment that exposes its dynamics: policy
//! evaluation, policy improvement, policy iteration, value iteration and
//! greedy-policy extraction.
//!
//! A value function is a map from state keys to fixed-point values. The
//! one-step lookahead of an action sums `p * (r + gamma * V(s'))` over the
//! listed outcomes only; the sum is taken exactly and rounded once.
use std::collections::HashMap;

use rand::rngs::StdRng;
use vstd::prelude::*;

use crate::bases::bellman::{
    is_evaluated, is_first_best, is_greedy_for, is_stable_solution,
    keys_tell_apart, lemma_greedy_action_is_first_best, lemma_iterated_residual,
    lemma_stable_policy_is_greedy, lemma_stable_policy_is_optimal, residual,
};
use crate::bases::mdp::{
    distinct_keys, is_subdistribution, mass, pair_key, pair_key_spec, Action, Agent, EnviormentModel, Policy,
    PolicyModel, SolveError, State, Transition,
};
use crate::utils::fixed::{
    distance, floor_div, gap, larger, lemma_product_bounded, saturate, saturated, ONE, ONE_CUBED,
    ONE_SQUARED,
};
use crate::utils::random::random_below;

verus! {

/// No outcome's return, scaled by `ONE_SQUARED`, is further from zero: the
/// largest reward times `ONE_SQUARED` plus the largest discount times the
/// largest value.
pub const RETURN_BOUND: i128 = 9_225_519_520_502_775_808_000_000;

/// The return of one outcome, scaled by `ONE_SQUARED`: its reward plus the
/// discounted value of its successor.
pub open spec fn outcome_return<S: State>(
    outcome: Transition<S>,
    values: Map<u64, i64>,
    gamma: int,
) -> int {
    outcome.reward * ONE_SQUARED + gamma * values[outcome.next_state.key_spec()]
}

/// The returns of the first `n` outcomes, each weighted by its probability.
pub open spec fn weighted_return<S: State>(
    outcomes: Seq<Transition<S>>,
    values: Map<u64, i64>,
    gamma: int,
    n: nat,
) -> int
    decreases n,
{
    if n == 0 {
        0
    } else {
        weighted_return(outcomes, values, gamma, (n - 1) as nat) + outcomes[n - 1].probability
            * outcome_return(outcomes[n - 1], values, gamma)
    }
}

/// Every successor has a value.
pub open spec fn successors_known<S: State>(outcomes: Seq<Transition<S>>, known: Set<u64>) -> bool {
    forall|i: int|
        0 <= i < outcomes.len() ==> known.contains((#[trigger] outcomes[i]).next_state.key_spec())
}

/// The one-step lookahead of `action` in `state`: the expected reward plus
/// the discounted expected value of the successor.
pub open spec fn lookahead<S: State, A: Action, E: EnviormentModel<S, A>>(
    env: &E,
    state: S,
    action: A,
    values: Map<u64, i64>,
    gamma: int,
) -> i64 {
    let outcomes = env.dynamics_model(state, action);
    saturated(weighted_return(outcomes, values, gamma, outcomes.len()) / (ONE_SQUARED as int))
}

/// The mass of a prefix is non-negative and no larger than that of a longer
/// prefix.
pub proof fn lemma_mass_monotone<S>(outcomes: Seq<Transition<S>>, n: nat, m: nat)
    requires
        n <= m <= outcomes.len(),
        forall|i: int| 0 <= i < outcomes.len() ==> (#[trigger] outcomes[i]).probability >= 0,
    ensures
        0 <= mass(outcomes, n) <= mass(outcomes, m),
    decreases m,
{
    if n < m {
        lemma_mass_monotone(outcomes, n, (m - 1) as nat);
    } else if n > 0 {
        lemma_mass_monotone(outcomes, (n - 1) as nat, (n - 1) as nat);
    }
}

/// The weighted returns of all outcomes of `action` in `state`, or `None`
/// if a successor has no value.
pub fn action_return<S: State, A: Action, E: EnviormentModel<S, A>>(
    env: &E,
    state: &S,
    action: &A,
    values: &HashMap<u64, i64>,
    gamma: i64,
) -> (total: Option<i128>)
    requires
        env.well_formed(),
        0 <= gamma <= ONE,
    ensures
        total is Some <==> successors_known(env.dynamics_model(*state, *action), values@.dom()),
        total matches Some(t) ==> {
            let outcomes = env.dynamics_model(*state, *action);
            &&& t == weighted_return(outcomes, values@, gamma as int, outcomes.len())
            &&& -(ONE * RETURN_BOUND) <= t <= ONE * RETURN_BOUND
        },
{
    let outcomes = env.dynamics(state, action);
    proof {
        env.dynamics_is_distribution(*state, *action);
    }
    let mut total: i128 = 0;
    let mut i: usize = 0;
    while i < outcomes.len()
        invariant
            0 <= i <= outcomes.len(),
            0 <= gamma <= ONE,
            outcomes@ == env.dynamics_model(*state, *action),
            is_subdistribution(outcomes@),
            forall|j: int|
                0 <= j < i ==> values@.dom().contains(
                    (#[trigger] outcomes@[j]).next_state.key_spec(),
                ),
            total == weighted_return(outcomes@, values@, gamma as int, i as nat),
            -(mass(outcomes@, i as nat) * RETURN_BOUND) <= total <= mass(outcomes@, i as nat)
                * RETURN_BOUND,
        decreases outcomes.len() - i,
    {
        let key: u64 = outcomes[i].next_state.key();
        let probability: i64 = outcomes[i].probability;
        let reward: i32 = outcomes[i].reward;
        match values.get(&key) {
            None => {
                return None;
            },
            Some(v) => {
                proof {
                    lemma_mass_monotone(outcomes@, i as nat, outcomes@.len());
                    lemma_mass_monotone(outcomes@, (i + 1) as nat, outcomes@.len());
                    lemma_product_bounded(
                        gamma as int,
                        *v as int,
                        ONE as int,
                        0x8000_0000_0000_0000,
                    );
                    let ret = outcome_return(outcomes@[i as int], values@, gamma as int);
                    lemma_product_bounded(probability as int, ret, ONE as int, RETURN_BOUND as int);
                    lemma_product_bounded(
                        probability as int,
                        ret,
                        probability as int,
                        RETURN_BOUND as int,
                    );
                }
                let ret: i128 = (reward as i128) * ONE_SQUARED + (gamma as i128) * (*v as i128);
                total = total + (probability as i128) * ret;
            },
        }
        i += 1;
    }
    proof {
        lemma_mass_monotone(outcomes@, outcomes@.len(), outcomes@.len());
    }
    Some(total)
}

/// The one-step lookahead of `action` in `state`, or `None` if a successor
/// has no value.
pub fn action_value<S: State, A: Action, E: EnviormentModel<S, A>>(
    env: &E,
    state: &S,
    action: &A,
    values: &HashMap<u64, i64>,
    gamma: i64,
) -> (value: Option<i64>)
    requires
        env.well_formed(),
        0 <= gamma <= ONE,
    ensures
        value is Some <==> successors_known(env.dynamics_model(*state, *action), values@.dom()),
        value matches Some(v) ==> v == lookahead(env, *state, *action, values@, gamma as int),
{
    match action_return(env, state, action, values, gamma) {
        Some(total) => Some(saturate(floor_div(total, ONE_SQUARED))),
        None => None,
    }
}

/// The position of the best of the first `n` actions: the one with the
/// largest lookahead, and among several of those the first.
pub open spec fn best_index<S: State, A: Action, E: EnviormentModel<S, A>>(
    env: &E,
    state: S,
    actions: Seq<A>,
    values: Map<u64, i64>,
    gamma: int,
    n: nat,
) -> int
    decreases n,
{
    if n <= 1 {
        0
    } else {
        let best = best_index(env, state, actions, values, gamma, (n - 1) as nat);
        if lookahead(env, state, actions[n - 1], values, gamma) > lookahead(
            env,
            state,
            actions[best],
            values,
            gamma,
        ) {
            n - 1
        } else {
            best
        }
    }
}

/// The greedy action in `state`: the first of its legal actions with the
/// largest lookahead.
pub open spec fn greedy_action<S: State, A: Action, E: EnviormentModel<S, A>>(
    env: &E,
    state: S,
    values: Map<u64, i64>,
    gamma: int,
) -> A {
    let actions = env.actions_model(state);
    actions[best_index(env, state, actions, values, gamma, actions.len())]
}

/// Every successor of every legal action in `state` has a value.
pub open spec fn actions_defined<S: State, A: Action, E: EnviormentModel<S, A>>(
    env: &E,
    state: S,
    known: Set<u64>,
) -> bool {
    let actions = env.actions_model(state);
    forall|i: int|
        0 <= i < actions.len() ==> successors_known(
            env.dynamics_model(state, #[trigger] actions[i]),
            known,
        )
}

/// The state has a greedy action: it offers at least one action, and the
/// lookahead of each can be computed.
pub open spec fn greedy_defined<S: State, A: Action, E: EnviormentModel<S, A>>(
    env: &E,
    state: S,
    known: Set<u64>,
) -> bool {
    env.actions_model(state).len() > 0 && actions_defined(env, state, known)
}

/// The greedy action in `state` with its lookahead; `Ok(None)` if the state
/// offers no action, an error if a successor of some action has no value.
pub fn best_action<S: State, A: Action, E: EnviormentModel<S, A>>(
    env: &E,
    state: &S,
    values: &HashMap<u64, i64>,
    gamma: i64,
) -> (best: Result<Option<(A, i64)>, SolveError>)
    requires
        env.well_formed(),
        0 <= gamma <= ONE,
    ensures
        best is Ok <==> actions_defined(env, *state, values@.dom()),
        best matches Err(e) ==> e == SolveError::MalformedInput,
        best matches Ok(choice) ==> {
            &&& choice is Some <==> env.actions_model(*state).len() > 0
            &&& choice matches Some((action, value)) ==> {
                &&& action == greedy_action(env, *state, values@, gamma as int)
                &&& value == lookahead(env, *state, action, values@, gamma as int)
            }
        },
{
    let actions = env.posible_actions(state);
    if actions.len() == 0 {
        return Ok(None);
    }
    let mut best: usize = 0;
    let mut best_value: i64 = match action_value(env, state, &actions[0], values, gamma) {
        Some(v) => v,
        None => {
            return Err(SolveError::MalformedInput);
        },
    };
    let mut i: usize = 1;
    while i < actions.len()
        invariant
            1 <= i <= actions.len(),
            env.well_formed(),
            0 <= gamma <= ONE,
            actions@ == env.actions_model(*state),
            0 <= best < i,
            best == best_index(env, *state, actions@, values@, gamma as int, i as nat),
            best_value == lookahead(env, *state, actions@[best as int], values@, gamma as int),
            forall|j: int|
                0 <= j < i ==> successors_known(
                    env.dynamics_model(*state, #[trigger] actions@[j]),
                    values@.dom(),
                ),
        decreases actions.len() - i,
    {
        match action_value(env, state, &actions[i], values, gamma) {
            None => {
                return Err(SolveError::MalformedInput);
            },
            Some(v) => {
                if best_value < v {
                    best = i;
                    best_value = v;
                }
            },
        }
        i += 1;
    }
    Ok(Some((actions[best], best_value)))
}

/// The probability that a stochastic policy gives to the first `n` of
/// `actions` in the state with key `state`, taken together.
pub open spec fn row_mass<A: Action>(
    state: u64,
    actions: Seq<A>,
    probabilities: Map<u128, i64>,
    n: nat,
) -> int
    decreases n,
{
    if n == 0 {
        0
    } else {
        row_mass(state, actions, probabilities, (n - 1) as nat) + probabilities[pair_key_spec(
            state,
            actions[n - 1].key_spec(),
        )]
    }
}

/// A stochastic policy gives each of `actions` a probability in the state
/// with key `state`: none is negative and together they weigh at most 1.0.
pub open spec fn row_defined<A: Action>(
    state: u64,
    actions: Seq<A>,
    probabilities: Map<u128, i64>,
) -> bool {
    &&& forall|i: int|
        0 <= i < actions.len() ==> {
            &&& probabilities.contains_key(
                pair_key_spec(state, (#[trigger] actions[i]).key_spec()),
            )
            &&& probabilities[pair_key_spec(state, actions[i].key_spec())] >= 0
        }
    &&& row_mass(state, actions, probabilities, actions.len()) <= ONE
}

/// The weighted returns of the first `n` of `actions`, each weighted again by
/// the probability that the policy gives the action.
pub open spec fn mixed_return<S: State, A: Action, E: EnviormentModel<S, A>>(
    env: &E,
    state: S,
    actions: Seq<A>,
    probabilities: Map<u128, i64>,
    values: Map<u64, i64>,
    gamma: int,
    n: nat,
) -> int
    decreases n,
{
    if n == 0 {
        0
    } else {
        let outcomes = env.dynamics_model(state, actions[n - 1]);
        mixed_return(env, state, actions, probabilities, values, gamma, (n - 1) as nat)
            + probabilities[pair_key_spec(state.key_spec(), actions[n - 1].key_spec())]
            * weighted_return(outcomes, values, gamma, outcomes.len())
    }
}

/// The value of `state` under `policy`, one step ahead: the lookahead of the
/// policy's action, or the lookaheads of the legal actions weighted by the
/// policy's probabilities.
pub open spec fn policy_value<S: State, A: Action, E: EnviormentModel<S, A>>(
    env: &E,
    policy: PolicyModel<A>,
    state: S,
    values: Map<u64, i64>,
    gamma: int,
) -> i64 {
    match policy {
        PolicyModel::Deterministic(choice) => lookahead(
            env,
            state,
            choice[state.key_spec()],
            values,
            gamma,
        ),
        PolicyModel::Stochastic(probabilities) => {
            let actions = env.actions_model(state);
            saturated(
                mixed_return(env, state, actions, probabilities, values, gamma, actions.len()) / (
                ONE_CUBED as int),
            )
        },
    }
}

/// The policy says what to do in `state`, and every value that
/// `policy_value` reads is there.
pub open spec fn policy_defined<S: State, A: Action, E: EnviormentModel<S, A>>(
    env: &E,
    policy: PolicyModel<A>,
    state: S,
    known: Set<u64>,
) -> bool {
    match policy {
        PolicyModel::Deterministic(choice) => {
            &&& choice.contains_key(state.key_spec())
            &&& successors_known(env.dynamics_model(state, choice[state.key_spec()]), known)
        },
        PolicyModel::Stochastic(probabilities) => {
            &&& row_defined(state.key_spec(), env.actions_model(state), probabilities)
            &&& actions_defined(env, state, known)
        },
    }
}

/// The rule by which a sweep backs a state up: under a policy, or by the
/// greedy action where there is none.
pub open spec fn rule_model<A>(rule: Option<&Policy<A>>) -> Option<PolicyModel<A>> {
    match rule {
        Some(policy) => Some(policy@),
        None => None,
    }
}

/// The new value of `state` in a sweep: its value under the policy, or the
/// lookahead of its greedy action.
pub open spec fn backup<S: State, A: Action, E: EnviormentModel<S, A>>(
    env: &E,
    rule: Option<PolicyModel<A>>,
    state: S,
    values: Map<u64, i64>,
    gamma: int,
) -> i64 {
    match rule {
        Some(policy) => policy_value(env, policy, state, values, gamma),
        None => lookahead(env, state, greedy_action(env, state, values, gamma), values, gamma),
    }
}

/// Everything that `backup` reads is there.
pub open spec fn backup_defined<S: State, A: Action, E: EnviormentModel<S, A>>(
    env: &E,
    rule: Option<PolicyModel<A>>,
    state: S,
    known: Set<u64>,
) -> bool {
    match rule {
        Some(policy) => policy_defined(env, policy, state, known),
        None => greedy_defined(env, state, known),
    }
}

/// The mass of a row's prefix is non-negative and no larger than that of a
/// longer prefix.
pub proof fn lemma_row_mass_monotone<A: Action>(
    state: u64,
    actions: Seq<A>,
    probabilities: Map<u128, i64>,
    n: nat,
    m: nat,
)
    requires
        n <= m <= actions.len(),
        forall|i: int|
            0 <= i < m ==> probabilities[pair_key_spec(state, (#[trigger] actions[i]).key_spec())]
                >= 0,
    ensures
        0 <= row_mass(state, actions, probabilities, n) <= row_mass(
            state,
            actions,
            probabilities,
            m,
        ),
    decreases m,
{
    if n < m {
        lemma_row_mass_monotone(state, actions, probabilities, n, (m - 1) as nat);
    } else if n > 0 {
        lemma_row_mass_monotone(state, actions, probabilities, (n - 1) as nat, (n - 1) as nat);
    }
}

/// The value of `state` under a stochastic policy, or `None` if the policy
/// or the values lack an entry, a probability is negative, or the
/// probabilities weigh more than 1.0.
fn mixed_value<S: State, A: Action, E: EnviormentModel<S, A>>(
    env: &E,
    probabilities: &HashMap<u128, i64>,
    state: &S,
    values: &HashMap<u64, i64>,
    gamma: i64,
) -> (value: Option<i64>)
    requires
        env.well_formed(),
        0 <= gamma <= ONE,
    ensures
        value is Some <==> policy_defined(
            env,
            PolicyModel::<A>::Stochastic(probabilities@),
            *state,
            values@.dom(),
        ),
        value matches Some(v) ==> v == policy_value(
            env,
            PolicyModel::<A>::Stochastic(probabilities@),
            *state,
            values@,
            gamma as int,
        ),
{
    let actions = env.posible_actions(state);
    let state_key: u64 = state.key();
    let mut total: i128 = 0;
    let mut weight: i64 = 0;
    let mut i: usize = 0;
    while i < actions.len()
        invariant
            0 <= i <= actions.len(),
            env.well_formed(),
            0 <= gamma <= ONE,
            actions@ == env.actions_model(*state),
            state_key == state.key_spec(),
            forall|j: int|
                0 <= j < i ==> {
                    &&& probabilities@.contains_key(
                        pair_key_spec(state_key, (#[trigger] actions@[j]).key_spec()),
                    )
                    &&& probabilities@[pair_key_spec(state_key, actions@[j].key_spec())] >= 0
                    &&& successors_known(env.dynamics_model(*state, actions@[j]), values@.dom())
                },
            weight == row_mass(state_key, actions@, probabilities@, i as nat),
            0 <= weight <= ONE,
            total == mixed_return(
                env,
                *state,
                actions@,
                probabilities@,
                values@,
                gamma as int,
                i as nat,
            ),
            -(weight * (ONE * RETURN_BOUND)) <= total <= weight * (ONE * RETURN_BOUND),
        decreases actions.len() - i,
    {
        let key: u128 = pair_key(state_key, actions[i].key());
        let probability: i64 = match probabilities.get(&key) {
            Some(p) => *p,
            None => {
                return None;
            },
        };
        if probability < 0 {
            return None;
        }
        if probability > ONE - weight {
            proof {
                if row_defined(state_key, actions@, probabilities@) {
                    lemma_row_mass_monotone(
                        state_key,
                        actions@,
                        probabilities@,
                        (i + 1) as nat,
                        actions@.len(),
                    );
                }
            }
            return None;
        }
        let part: i128 = match action_return(env, state, &actions[i], values, gamma) {
            Some(t) => t,
            None => {
                return None;
            },
        };
        proof {
            lemma_product_bounded(
                probability as int,
                part as int,
                ONE as int,
                ONE * RETURN_BOUND,
            );
            lemma_product_bounded(
                probability as int,
                part as int,
                probability as int,
                ONE * RETURN_BOUND,
            );
            assert((weight + probability) * (ONE * RETURN_BOUND) == weight * (ONE * RETURN_BOUND)
                + probability * (ONE * RETURN_BOUND)) by (nonlinear_arith);
        }
        total = total + (probability as i128) * part;
        weight = weight + probability;
        i += 1;
    }
    proof {
        lemma_product_bounded(weight as int, ONE * RETURN_BOUND, ONE as int, ONE * RETURN_BOUND);
    }
    Some(saturate(floor_div(total, ONE_CUBED)))
}

/// The new value of `state` in a sweep, or `None` if something that it
/// depends on is missing or malformed.
pub fn state_value<S: State, A: Action, E: EnviormentModel<S, A>>(
    env: &E,
    rule: Option<&Policy<A>>,
    state: &S,
    values: &HashMap<u64, i64>,
    gamma: i64,
) -> (value: Option<i64>)
    requires
        env.well_formed(),
        0 <= gamma <= ONE,
    ensures
        value is Some <==> backup_defined(env, rule_model(rule), *state, values@.dom()),
        value matches Some(v) ==> v == backup(
            env,
            rule_model(rule),
            *state,
            values@,
            gamma as int,
        ),
{
    match rule {
        None => match best_action(env, state, values, gamma) {
            Ok(Some((_, value))) => Some(value),
            _ => None,
        },
        Some(Policy::Deterministic(choice)) => {
            let key: u64 = state.key();
            match choice.get(&key) {
                Some(action) => action_value(env, state, action, values, gamma),
                None => None,
            }
        },
        Some(Policy::Stochastic(probabilities)) => mixed_value(
            env,
            probabilities,
            state,
            values,
            gamma,
        ),
    }
}

/// The values after the first `n` of `states` were backed up in place, one
/// after the other: each backup sees the values that the earlier ones left.
pub open spec fn swept_values<S: State, A: Action, E: EnviormentModel<S, A>>(
    env: &E,
    rule: Option<PolicyModel<A>>,
    states: Seq<S>,
    values: Map<u64, i64>,
    gamma: int,
    n: nat,
) -> Map<u64, i64>
    decreases n,
{
    if n == 0 {
        values
    } else {
        let before = swept_values(env, rule, states, values, gamma, (n - 1) as nat);
        before.insert(states[n - 1].key_spec(), backup(env, rule, states[n - 1], before, gamma))
    }
}

/// The largest change that backing up the first `n` of `states` made to a
/// value.
pub open spec fn swept_change<S: State, A: Action, E: EnviormentModel<S, A>>(
    env: &E,
    rule: Option<PolicyModel<A>>,
    states: Seq<S>,
    values: Map<u64, i64>,
    gamma: int,
    n: nat,
) -> int
    decreases n,
{
    if n == 0 {
        0
    } else {
        let before = swept_values(env, rule, states, values, gamma, (n - 1) as nat);
        larger(
            swept_change(env, rule, states, values, gamma, (n - 1) as nat),
            distance(
                before[states[n - 1].key_spec()] as int,
                backup(env, rule, states[n - 1], before, gamma) as int,
            ),
        )
    }
}

/// Every state of the sweep has a value, and its backup can be computed from
/// the values of the states with keys in `known`.
pub open spec fn sweep_defined<S: State, A: Action, E: EnviormentModel<S, A>>(
    env: &E,
    rule: Option<PolicyModel<A>>,
    states: Seq<S>,
    known: Set<u64>,
) -> bool {
    forall|i: int|
        0 <= i < states.len() ==> {
            &&& known.contains((#[trigger] states[i]).key_spec())
            &&& backup_defined(env, rule, states[i], known)
        }
}

/// One sweep: backs up every state of `states` in place, in order, and
/// returns the largest change; `None` if a state or something that its
/// backup depends on is missing or malformed, and then the states before
/// that one are backed up. The set of states that have a value never
/// changes.
pub fn sweep<S: State, A: Action, E: EnviormentModel<S, A>>(
    env: &E,
    rule: Option<&Policy<A>>,
    states: &Vec<S>,
    values: &mut HashMap<u64, i64>,
    gamma: i64,
) -> (change: Option<i128>)
    requires
        env.well_formed(),
        0 <= gamma <= ONE,
    ensures
        final(values)@.dom() == old(values)@.dom(),
        change is Some <==> sweep_defined(env, rule_model(rule), states@, old(values)@.dom()),
        change is None ==> exists|n: nat|
            n < states@.len() && final(values)@ == #[trigger] swept_values(
                env,
                rule_model(rule),
                states@,
                old(values)@,
                gamma as int,
                n,
            ),
        change matches Some(c) ==> {
            &&& final(values)@ == swept_values(
                env,
                rule_model(rule),
                states@,
                old(values)@,
                gamma as int,
                states@.len(),
            )
            &&& c == swept_change(
                env,
                rule_model(rule),
                states@,
                old(values)@,
                gamma as int,
                states@.len(),
            )
        },
{
    let ghost start = values@;
    let mut change: i128 = 0;
    let mut i: usize = 0;
    while i < states.len()
        invariant
            0 <= i <= states.len(),
            env.well_formed(),
            0 <= gamma <= ONE,
            start == old(values)@,
            values@.dom() == start.dom(),
            values@ == swept_values(env, rule_model(rule), states@, start, gamma as int, i as nat),
            change == swept_change(env, rule_model(rule), states@, start, gamma as int, i as nat),
            0 <= change <= 0xffff_ffff_ffff_ffff,
            forall|j: int|
                0 <= j < i ==> {
                    &&& start.dom().contains((#[trigger] states@[j]).key_spec())
                    &&& backup_defined(env, rule_model(rule), states@[j], start.dom())
                },
        decreases states.len() - i,
    {
        let key: u64 = states[i].key();
        let ghost done = swept_values(
            env,
            rule_model(rule),
            states@,
            start,
            gamma as int,
            i as nat,
        );
        let current: i64 = match values.get(&key) {
            Some(v) => *v,
            None => {
                assert(values@ == done);
                return None;
            },
        };
        let value: i64 = match state_value(env, rule, &states[i], values, gamma) {
            Some(v) => v,
            None => {
                assert(values@ == done);
                return None;
            },
        };
        let moved: i128 = gap(current, value);
        if moved > change {
            change = moved;
        }
        values.insert(key, value);
        assert(values@.dom() =~= start.dom());
        i += 1;
    }
    Some(change)
}

/// The outcome of sweeping until the largest change of a sweep is below
/// `tolerance`, for at most `sweeps` sweeps: the values after the last sweep,
/// or why there are none.
pub open spec fn iterated<S: State, A: Action, E: EnviormentModel<S, A>>(
    env: &E,
    rule: Option<PolicyModel<A>>,
    states: Seq<S>,
    values: Map<u64, i64>,
    gamma: int,
    tolerance: int,
    sweeps: nat,
) -> Result<Map<u64, i64>, SolveError>
    decreases sweeps,
{
    if sweeps == 0 {
        Err(SolveError::NotConverged)
    } else if !sweep_defined(env, rule, states, values.dom()) {
        Err(SolveError::MalformedInput)
    } else {
        let next = swept_values(env, rule, states, values, gamma, states.len());
        if swept_change(env, rule, states, values, gamma, states.len()) < tolerance {
            Ok(next)
        } else {
            iterated(env, rule, states, next, gamma, tolerance, (sweeps - 1) as nat)
        }
    }
}

/// Whether an executable outcome is the one that the model gives.
pub open spec fn matches_model(
    outcome: Result<HashMap<u64, i64>, SolveError>,
    model: Result<Map<u64, i64>, SolveError>,
) -> bool {
    match outcome {
        Ok(values) => model == Ok::<Map<u64, i64>, SolveError>(values@),
        Err(e) => model == Err::<Map<u64, i64>, SolveError>(e),
    }
}

/// Sweeps until the largest change of a sweep is below `tolerance`, for at
/// most `max_sweeps` sweeps.
pub fn iterate_sweeps<S: State, A: Action, E: EnviormentModel<S, A>>(
    env: &E,
    rule: Option<&Policy<A>>,
    states: &Vec<S>,
    values: HashMap<u64, i64>,
    gamma: i64,
    tolerance: i64,
    max_sweeps: usize,
) -> (outcome: Result<HashMap<u64, i64>, SolveError>)
    requires
        env.well_formed(),
        0 <= gamma <= ONE,
    ensures
        matches_model(
            outcome,
            iterated(
                env,
                rule_model(rule),
                states@,
                values@,
                gamma as int,
                tolerance as int,
                max_sweeps as nat,
            ),
        ),
{
    let mut current = values;
    let mut left: usize = max_sweeps;
    while left > 0
        invariant
            env.well_formed(),
            0 <= gamma <= ONE,
            iterated(
                env,
                rule_model(rule),
                states@,
                current@,
                gamma as int,
                tolerance as int,
                left as nat,
            ) == iterated(
                env,
                rule_model(rule),
                states@,
                values@,
                gamma as int,
                tolerance as int,
                max_sweeps as nat,
            ),
        decreases left,
    {
        match sweep(env, rule, states, &mut current, gamma) {
            None => {
                return Err(SolveError::MalformedInput);
            },
            Some(change) => {
                if change < tolerance as i128 {
                    return Ok(current);
                }
            },
        }
        left -= 1;
    }
    Err(SolveError::NotConverged)
}

/// Evaluates the agent's policy: sweeps over `states`, replacing each value by
/// the state's value under the policy one step ahead, until no value of a
/// sweep changes by `tolerance` or more, for at most `max_sweeps` sweeps.
///
/// Where it returns values and no two of `states` share a key, the values
/// satisfy the Bellman expectation equation of the policy within `tolerance`
/// in every one of `states`.
pub fn policy_evaluation<E, S, A>(
    agent: &Agent<A>,
    enviorment: &E,
    states: &Vec<S>,
    values: HashMap<u64, i64>,
    gamma: i64,
    tolerance: i64,
    max_sweeps: usize,
) -> (outcome: Result<HashMap<u64, i64>, SolveError>) where
    A: Action,
    S: State,
    E: EnviormentModel<S, A>,

    requires
        enviorment.well_formed(),
        0 <= gamma <= ONE,
    ensures
        matches_model(
            outcome,
            iterated(
                enviorment,
                Some(agent.policy@),
                states@,
                values@,
                gamma as int,
                tolerance as int,
                max_sweeps as nat,
            ),
        ),
        outcome matches Ok(found) ==> found@.dom() == values@.dom(),
        outcome matches Err(reason) ==> {
            &&& reason == SolveError::MalformedInput || reason == SolveError::NotConverged
            &&& reason == SolveError::MalformedInput <==> max_sweeps > 0 && !sweep_defined(
                enviorment,
                Some(agent.policy@),
                states@,
                values@.dom(),
            )
        },
        outcome matches Ok(found) ==> distinct_keys(states@) ==> forall|i: int|
            0 <= i < states.len() ==> residual(
                enviorment,
                Some(agent.policy@),
                #[trigger] states@[i],
                found@,
                gamma as int,
            ) < tolerance,
{
    proof {
        lemma_iterated_domain(
            enviorment,
            Some(agent.policy@),
            states@,
            values@,
            gamma as int,
            tolerance as int,
            max_sweeps as nat,
        );
        lemma_iterated_malformed(
            enviorment,
            Some(agent.policy@),
            states@,
            values@,
            gamma as int,
            tolerance as int,
            max_sweeps as nat,
        );
        if distinct_keys(states@) {
            lemma_iterated_residual(
                enviorment,
                Some(agent.policy@),
                states@,
                values@,
                gamma as int,
                tolerance as int,
                max_sweeps as nat,
            );
        }
    }
    iterate_sweeps(enviorment, Some(&agent.policy), states, values, gamma, tolerance, max_sweeps)
}

/// Sweeping changes no key: the values that come out are values of the
/// states that had one.
pub proof fn lemma_iterated_domain<S: State, A: Action, E: EnviormentModel<S, A>>(
    env: &E,
    rule: Option<PolicyModel<A>>,
    states: Seq<S>,
    values: Map<u64, i64>,
    gamma: int,
    tolerance: int,
    sweeps: nat,
)
    ensures
        iterated(env, rule, states, values, gamma, tolerance, sweeps) matches Ok(found)
            ==> found.dom() == values.dom(),
    decreases sweeps,
{
    if sweeps > 0 && sweep_defined(env, rule, states, values.dom()) {
        lemma_swept_domain(env, rule, states, values, gamma, states.len());
        let next = swept_values(env, rule, states, values, gamma, states.len());
        lemma_iterated_domain(env, rule, states, next, gamma, tolerance, (sweeps - 1) as nat);
    }
}

/// Sweeping fails for want of an entry exactly when a sweep is allowed and
/// the first one is not defined: later sweeps read the same entries.
pub proof fn lemma_iterated_malformed<S: State, A: Action, E: EnviormentModel<S, A>>(
    env: &E,
    rule: Option<PolicyModel<A>>,
    states: Seq<S>,
    values: Map<u64, i64>,
    gamma: int,
    tolerance: int,
    sweeps: nat,
)
    ensures
        iterated(env, rule, states, values, gamma, tolerance, sweeps) == Err::<
            Map<u64, i64>,
            SolveError,
        >(SolveError::MalformedInput) <==> sweeps > 0 && !sweep_defined(
            env,
            rule,
            states,
            values.dom(),
        ),
        iterated(env, rule, states, values, gamma, tolerance, sweeps) matches Err(reason)
            ==> reason == SolveError::MalformedInput || reason == SolveError::NotConverged,
    decreases sweeps,
{
    if sweeps > 0 && sweep_defined(env, rule, states, values.dom()) {
        lemma_swept_domain(env, rule, states, values, gamma, states.len());
        let next = swept_values(env, rule, states, values, gamma, states.len());
        lemma_iterated_malformed(env, rule, states, next, gamma, tolerance, (sweeps - 1) as nat);
    }
}

/// A sweep over states that have a value changes no key.
pub proof fn lemma_swept_domain<S: State, A: Action, E: EnviormentModel<S, A>>(
    env: &E,
    rule: Option<PolicyModel<A>>,
    states: Seq<S>,
    values: Map<u64, i64>,
    gamma: int,
    n: nat,
)
    requires
        n <= states.len(),
        sweep_defined(env, rule, states, values.dom()),
    ensures
        swept_values(env, rule, states, values, gamma, n).dom() == values.dom(),
    decreases n,
{
    if n > 0 {
        lemma_swept_domain(env, rule, states, values, gamma, (n - 1) as nat);
        assert(values.dom().contains(states[n - 1].key_spec()));
        assert(swept_values(env, rule, states, values, gamma, n).dom() =~= values.dom());
    }
}

/// A fitting first value for `state`: the given value if the state is
/// terminal, else any value in the half-open unit interval.
pub open spec fn starts_well<S: State, A: Action, E: EnviormentModel<S, A>>(
    env: &E,
    state: S,
    value: i64,
    terminal_value: i64,
) -> bool {
    if env.terminal_model(state) {
        value == terminal_value
    } else {
        0 <= value < ONE
    }
}

/// The values are first values for the environment: exactly its states have
/// one, and each value fits a state with that key.
pub open spec fn is_initial<S: State, A: Action, E: EnviormentModel<S, A>>(
    env: &E,
    values: Map<u64, i64>,
    terminal_value: i64,
) -> bool {
    let states = env.states_model();
    &&& forall|i: int|
        0 <= i < states.len() ==> values.contains_key((#[trigger] states[i]).key_spec())
    &&& forall|k: u64|
        values.contains_key(k) ==> exists|i: int|
            0 <= i < states.len() && (#[trigger] states[i]).key_spec() == k && starts_well(
                env,
                states[i],
                values[k],
                terminal_value,
            )
}

/// First values for the environment's states: `terminal_value` for terminal
/// states and a random value below 1.0 for the others.
pub fn initial_values<S: State, A: Action, E: EnviormentModel<S, A>>(
    enviorment: &E,
    terminal_value: i64,
    rng: &mut StdRng,
) -> (values: HashMap<u64, i64>)
    requires
        enviorment.well_formed(),
    ensures
        is_initial(enviorment, values@, terminal_value),
{
    let states = enviorment.get_states();
    let mut values: HashMap<u64, i64> = HashMap::new();
    let mut i: usize = 0;
    while i < states.len()
        invariant
            0 <= i <= states.len(),
            enviorment.well_formed(),
            states@ == enviorment.states_model(),
            forall|j: int| 0 <= j < i ==> values@.contains_key((#[trigger] states@[j]).key_spec()),
            forall|k: u64|
                values@.contains_key(k) ==> exists|j: int|
                    0 <= j < i && (#[trigger] states@[j]).key_spec() == k && starts_well(
                        enviorment,
                        states@[j],
                        values@[k],
                        terminal_value,
                    ),
        decreases states.len() - i,
    {
        let key: u64 = states[i].key();
        let value: i64 = if enviorment.is_terminal(&states[i]) {
            terminal_value
        } else {
            random_below(rng, ONE)
        };
        let ghost before = values@;
        values.insert(key, value);
        assert forall|k: u64| values@.contains_key(k) implies exists|j: int|
            0 <= j < i + 1 && (#[trigger] states@[j]).key_spec() == k && starts_well(
                enviorment,
                states@[j],
                values@[k],
                terminal_value,
            ) by {
            if k == key {
                assert(states@[i as int].key_spec() == k && starts_well(
                    enviorment,
                    states@[i as int],
                    values@[k],
                    terminal_value,
                ));
            } else {
                assert(before.contains_key(k));
                let j = choose|j: int|
                    0 <= j < i && (#[trigger] states@[j]).key_spec() == k && starts_well(
                        enviorment,
                        states@[j],
                        before[k],
                        terminal_value,
                    );
                assert(states@[j].key_spec() == k);
            }
        }
        i += 1;
    }
    values
}

/// Value iteration: sweeps over `states`, replacing each value by the
/// lookahead of the state's greedy action, until no value of a sweep changes
/// by `tolerance` or more, for at most `max_sweeps` sweeps. Without first
/// values it starts from 0.0 in terminal states and random values elsewhere.
///
/// Where it returns values and no two of `states` share a key, the values
/// satisfy the Bellman optimality equation within `tolerance` in every one
/// of `states`.
pub fn value_iteration<E, S, A>(
    enviorment: &E,
    states: &Vec<S>,
    values: Option<HashMap<u64, i64>>,
    gamma: i64,
    tolerance: i64,
    max_sweeps: usize,
    rng: &mut StdRng,
) -> (outcome: Result<HashMap<u64, i64>, SolveError>) where
    A: Action,
    S: State,
    E: EnviormentModel<S, A>,

    requires
        enviorment.well_formed(),
        0 <= gamma <= ONE,
    ensures
        values matches Some(first) ==> matches_model(
            outcome,
            iterated(
                enviorment,
                None::<PolicyModel<A>>,
                states@,
                first@,
                gamma as int,
                tolerance as int,
                max_sweeps as nat,
            ),
        ),
        values is None ==> exists|first: Map<u64, i64>|
            is_initial(enviorment, first, 0) && matches_model(
                outcome,
                #[trigger] iterated(
                    enviorment,
                    None::<PolicyModel<A>>,
                    states@,
                    first,
                    gamma as int,
                    tolerance as int,
                    max_sweeps as nat,
                ),
            ),
        outcome matches Err(reason) ==> reason == SolveError::MalformedInput || reason
            == SolveError::NotConverged,
        values matches Some(first) ==> {
            &&& outcome matches Ok(found) ==> found@.dom() == first@.dom()
            &&& outcome matches Err(reason) ==> (reason == SolveError::MalformedInput
                <==> max_sweeps > 0 && !sweep_defined(
                enviorment,
                None::<PolicyModel<A>>,
                states@,
                first@.dom(),
            ))
        },
        outcome matches Ok(found) ==> distinct_keys(states@) ==> forall|i: int|
            0 <= i < states.len() ==> residual(
                enviorment,
                None::<PolicyModel<A>>,
                #[trigger] states@[i],
                found@,
                gamma as int,
            ) < tolerance,
{
    let first = match values {
        Some(given) => given,
        None => initial_values(enviorment, 0, rng),
    };
    proof {
        lemma_iterated_domain(
            enviorment,
            None::<PolicyModel<A>>,
            states@,
            first@,
            gamma as int,
            tolerance as int,
            max_sweeps as nat,
        );
        lemma_iterated_malformed(
            enviorment,
            None::<PolicyModel<A>>,
            states@,
            first@,
            gamma as int,
            tolerance as int,
            max_sweeps as nat,
        );
        if distinct_keys(states@) {
            lemma_iterated_residual(
                enviorment,
                None::<PolicyModel<A>>,
                states@,
                first@,
                gamma as int,
                tolerance as int,
                max_sweeps as nat,
            );
        }
    }
    iterate_sweeps(enviorment, None, states, first, gamma, tolerance, max_sweeps)
}

/// The greedy policy for the first `n` of `states`: each state's key mapped
/// to the state's greedy action.
pub open spec fn greedy_choices<S: State, A: Action, E: EnviormentModel<S, A>>(
    env: &E,
    states: Seq<S>,
    values: Map<u64, i64>,
    gamma: int,
    n: nat,
) -> Map<u64, A>
    decreases n,
{
    if n == 0 {
        Map::empty()
    } else {
        greedy_choices(env, states, values, gamma, (n - 1) as nat).insert(
            states[n - 1].key_spec(),
            greedy_action(env, states[n - 1], values, gamma),
        )
    }
}

/// Every state has a greedy action.
pub open spec fn all_greedy_defined<S: State, A: Action, E: EnviormentModel<S, A>>(
    env: &E,
    states: Seq<S>,
    known: Set<u64>,
) -> bool {
    forall|i: int| 0 <= i < states.len() ==> greedy_defined(env, #[trigger] states[i], known)
}

/// Where states with the same key are the same state, the greedy policy
/// holds each state's greedy action.
pub proof fn lemma_greedy_choices_hold<S: State, A: Action, E: EnviormentModel<S, A>>(
    env: &E,
    states: Seq<S>,
    values: Map<u64, i64>,
    gamma: int,
    n: nat,
)
    requires
        n <= states.len(),
        keys_tell_apart(states),
    ensures
        forall|k: u64|
            greedy_choices(env, states, values, gamma, n).contains_key(k) <==> exists|i: int|
                0 <= i < n && (#[trigger] states[i]).key_spec() == k,
        forall|i: int|
            0 <= i < n ==> greedy_choices(env, states, values, gamma, n)[(
            #[trigger] states[i]).key_spec()] == greedy_action(env, states[i], values, gamma),
    decreases n,
{
    if n > 0 {
        lemma_greedy_choices_hold(env, states, values, gamma, (n - 1) as nat);
        let before = greedy_choices(env, states, values, gamma, (n - 1) as nat);
        let now = greedy_choices(env, states, values, gamma, n);
        assert forall|k: u64| now.contains_key(k) <==> exists|i: int|
            0 <= i < n && (#[trigger] states[i]).key_spec() == k by {
            if now.contains_key(k) {
                if k == states[n - 1].key_spec() {
                    assert(states[n - 1].key_spec() == k);
                } else {
                    assert(before.contains_key(k));
                    let i = choose|i: int| 0 <= i < n - 1 && (#[trigger] states[i]).key_spec() == k;
                    assert(states[i].key_spec() == k);
                }
            }
            if exists|i: int| 0 <= i < n && (#[trigger] states[i]).key_spec() == k {
                let i = choose|i: int| 0 <= i < n && (#[trigger] states[i]).key_spec() == k;
                if i < n - 1 {
                    assert(states[i].key_spec() == k);
                    assert(before.contains_key(k));
                }
            }
        }
        assert forall|i: int| 0 <= i < n implies now[(#[trigger] states[i]).key_spec()]
            == greedy_action(env, states[i], values, gamma) by {
            if i < n - 1 && states[i].key_spec() == states[n - 1].key_spec() {
                assert(states[i] == states[n - 1]);
            }
        }
    }
}

/// Extracts the greedy policy: for each of `states` the first of its legal
/// actions with the largest one-step lookahead against `values`. It fails
/// if a state offers no action or a successor has no value.
///
/// The policy is a function of the arguments. Where states of `states` with
/// the same key are the same state, it never holds an action whose
/// lookahead is not the largest among the legal actions of its state.
pub fn greedy_policy<S, A, E>(
    enviorment: &E,
    states: &Vec<S>,
    values: &HashMap<u64, i64>,
    gamma: i64,
) -> (outcome: Result<HashMap<u64, A>, SolveError>) where
    A: Action,
    S: State,
    E: EnviormentModel<S, A>,

    requires
        enviorment.well_formed(),
        0 <= gamma <= ONE,
    ensures
        outcome is Ok <==> all_greedy_defined(enviorment, states@, values@.dom()),
        outcome matches Err(e) ==> e == SolveError::MalformedInput,
        outcome matches Ok(policy) ==> policy@ == greedy_choices(
            enviorment,
            states@,
            values@,
            gamma as int,
            states@.len(),
        ),
        outcome matches Ok(policy) ==> keys_tell_apart(states@) ==> forall|i: int|
            0 <= i < states.len() ==> {
                &&& policy@.contains_key((#[trigger] states@[i]).key_spec())
                &&& is_first_best(
                    enviorment,
                    states@[i],
                    policy@[states@[i].key_spec()],
                    values@,
                    gamma as int,
                )
            },
{
    let mut policy: HashMap<u64, A> = HashMap::new();
    let mut i: usize = 0;
    while i < states.len()
        invariant
            0 <= i <= states.len(),
            enviorment.well_formed(),
            0 <= gamma <= ONE,
            policy@ == greedy_choices(enviorment, states@, values@, gamma as int, i as nat),
            forall|j: int|
                0 <= j < i ==> greedy_defined(enviorment, #[trigger] states@[j], values@.dom()),
        decreases states.len() - i,
    {
        match best_action(enviorment, &states[i], values, gamma) {
            Ok(Some((action, _))) => {
                policy.insert(states[i].key(), action);
            },
            _ => {
                assert(!greedy_defined(enviorment, states@[i as int], values@.dom()));
                return Err(SolveError::MalformedInput);
            },
        }
        i += 1;
    }
    proof {
        if keys_tell_apart(states@) {
            lemma_greedy_choices_hold(enviorment, states@, values@, gamma as int, states@.len());
            assert forall|j: int| 0 <= j < states.len() implies {
                &&& policy@.contains_key((#[trigger] states@[j]).key_spec())
                &&& is_first_best(
                    enviorment,
                    states@[j],
                    policy@[states@[j].key_spec()],
                    values@,
                    gamma as int,
                )
            } by {
                assert(greedy_defined(enviorment, states@[j], values@.dom()));
                lemma_greedy_action_is_first_best(enviorment, states@[j], values@, gamma as int);
            }
        }
    }
    Ok(policy)
}

/// The policy after one improvement pass over the first `n` of `states`:
/// each state that offers an action got its greedy action, the others kept
/// theirs.
pub open spec fn improved_choices<S: State, A: Action, E: EnviormentModel<S, A>>(
    env: &E,
    states: Seq<S>,
    choice: Map<u64, A>,
    values: Map<u64, i64>,
    gamma: int,
    n: nat,
) -> Map<u64, A>
    decreases n,
{
    if n == 0 {
        choice
    } else {
        let before = improved_choices(env, states, choice, values, gamma, (n - 1) as nat);
        let state = states[n - 1];
        if env.actions_model(state).len() > 0 {
            before.insert(state.key_spec(), greedy_action(env, state, values, gamma))
        } else {
            before
        }
    }
}

/// Whether the improvement pass over the first `n` of `states` gave some
/// state another action than it had.
pub open spec fn improvement_changed<S: State, A: Action, E: EnviormentModel<S, A>>(
    env: &E,
    states: Seq<S>,
    choice: Map<u64, A>,
    values: Map<u64, i64>,
    gamma: int,
    n: nat,
) -> bool
    decreases n,
{
    if n == 0 {
        false
    } else {
        let before = improved_choices(env, states, choice, values, gamma, (n - 1) as nat);
        let state = states[n - 1];
        improvement_changed(env, states, choice, values, gamma, (n - 1) as nat) || (
        env.actions_model(state).len() > 0 && greedy_action(env, state, values, gamma).key_spec()
            != before[state.key_spec()].key_spec())
    }
}

/// The policy has an action for every state, and the lookahead of every
/// legal action can be computed.
pub open spec fn improvement_defined<S: State, A: Action, E: EnviormentModel<S, A>>(
    env: &E,
    states: Seq<S>,
    chosen: Set<u64>,
    known: Set<u64>,
) -> bool {
    forall|i: int|
        0 <= i < states.len() ==> {
            &&& chosen.contains((#[trigger] states[i]).key_spec())
            &&& actions_defined(env, states[i], known)
        }
}

/// One improvement pass: gives every state of `states` that offers an action
/// its greedy action, and says whether some state's action changed; `None`
/// if the policy has no action for a state or a successor has no value, and
/// then the states before that one are improved.
pub fn improve<S: State, A: Action, E: EnviormentModel<S, A>>(
    env: &E,
    choice: &mut HashMap<u64, A>,
    states: &Vec<S>,
    values: &HashMap<u64, i64>,
    gamma: i64,
) -> (changed: Option<bool>)
    requires
        env.well_formed(),
        0 <= gamma <= ONE,
    ensures
        final(choice)@.dom() == old(choice)@.dom(),
        changed is Some <==> improvement_defined(env, states@, old(choice)@.dom(), values@.dom()),
        changed is None ==> exists|n: nat|
            n < states@.len() && final(choice)@ == #[trigger] improved_choices(
                env,
                states@,
                old(choice)@,
                values@,
                gamma as int,
                n,
            ),
        changed matches Some(c) ==> {
            &&& final(choice)@ == improved_choices(
                env,
                states@,
                old(choice)@,
                values@,
                gamma as int,
                states@.len(),
            )
            &&& c == improvement_changed(
                env,
                states@,
                old(choice)@,
                values@,
                gamma as int,
                states@.len(),
            )
        },
{
    let ghost start = choice@;
    let mut changed: bool = false;
    let mut i: usize = 0;
    while i < states.len()
        invariant
            0 <= i <= states.len(),
            env.well_formed(),
            0 <= gamma <= ONE,
            start == old(choice)@,
            choice@.dom() == start.dom(),
            choice@ == improved_choices(env, states@, start, values@, gamma as int, i as nat),
            changed == improvement_changed(env, states@, start, values@, gamma as int, i as nat),
            forall|j: int|
                0 <= j < i ==> {
                    &&& start.dom().contains((#[trigger] states@[j]).key_spec())
                    &&& actions_defined(env, states@[j], values@.dom())
                },
        decreases states.len() - i,
    {
        let key: u64 = states[i].key();
        let ghost done = improved_choices(env, states@, start, values@, gamma as int, i as nat);
        let old_key: u64 = match choice.get(&key) {
            Some(action) => action.key(),
            None => {
                assert(choice@ == done);
                return None;
            },
        };
        match best_action(env, &states[i], values, gamma) {
            Err(_) => {
                assert(choice@ == done);
                return None;
            },
            Ok(None) => {},
            Ok(Some((action, _))) => {
                if action.key() != old_key {
                    changed = true;
                }
                choice.insert(key, action);
                assert(choice@.dom() =~= start.dom());
            },
        }
        i += 1;
    }
    Some(changed)
}

/// The outcome of improving and evaluating in turn until an improvement
/// pass changes nothing: the stable policy with the values it was found
/// stable against, or why there is none. Each evaluation may take `sweeps`
/// sweeps, and `rounds` evaluations are allowed.
pub open spec fn improved_until_stable<S: State, A: Action, E: EnviormentModel<S, A>>(
    env: &E,
    states: Seq<S>,
    choice: Map<u64, A>,
    values: Map<u64, i64>,
    gamma: int,
    tolerance: int,
    sweeps: nat,
    rounds: nat,
) -> Result<(Map<u64, A>, Map<u64, i64>), SolveError>
    decreases rounds,
{
    if !improvement_defined(env, states, choice.dom(), values.dom()) {
        Err(SolveError::MalformedInput)
    } else {
        let next = improved_choices(env, states, choice, values, gamma, states.len());
        if !improvement_changed(env, states, choice, values, gamma, states.len()) {
            Ok((next, values))
        } else if rounds == 0 {
            Err(SolveError::NotConverged)
        } else {
            match iterated(
                env,
                Some(PolicyModel::Deterministic(next)),
                states,
                values,
                gamma,
                tolerance,
                sweeps,
            ) {
                Err(e) => Err(e),
                Ok(found) => improved_until_stable(
                    env,
                    states,
                    next,
                    found,
                    gamma,
                    tolerance,
                    sweeps,
                    (rounds - 1) as nat,
                ),
            }
        }
    }
}

/// Whether an executable outcome, with the policy that the agent is left
/// with, is the one that the model gives.
pub open spec fn solution_matches<A>(
    policy: PolicyModel<A>,
    outcome: Result<HashMap<u64, i64>, SolveError>,
    model: Result<(Map<u64, A>, Map<u64, i64>), SolveError>,
) -> bool {
    match model {
        Ok((choice, values)) => {
            &&& outcome matches Ok(found) && found@ == values
            &&& policy == PolicyModel::Deterministic(choice)
        },
        Err(e) => outcome matches Err(reason) && reason == e,
    }
}

/// Improves the agent's deterministic policy until it is stable: gives
/// every state its greedy action against `values`, and while that changes
/// some state's action, evaluates the new policy and improves again. It
/// returns the values that the final policy was found stable against. Each
/// evaluation may take `max_sweeps` sweeps, and `max_rounds` evaluations are
/// allowed. A stochastic policy is not supported and is left as it is.
///
/// The policy that it ends with is greedy for the values returned: in
/// every state that offers an action it holds the first best one.
pub fn policy_improvement<E, S, A>(
    agent: &mut Agent<A>,
    enviorment: &E,
    states: &Vec<S>,
    gamma: i64,
    tolerance: i64,
    values: HashMap<u64, i64>,
    max_sweeps: usize,
    max_rounds: usize,
) -> (outcome: Result<HashMap<u64, i64>, SolveError>) where
    A: Action,
    S: State,
    E: EnviormentModel<S, A>,

    requires
        enviorment.well_formed(),
        0 <= gamma <= ONE,
    ensures
        old(agent).policy@ is Stochastic ==> {
            &&& outcome matches Err(reason) && reason == SolveError::UnsupportedPolicy
            &&& final(agent).policy@ == old(agent).policy@
        },
        old(agent).policy@ is Deterministic ==> final(agent).policy@ is Deterministic,
        old(agent).policy@ matches PolicyModel::Deterministic(choice) ==> solution_matches(
            final(agent).policy@,
            outcome,
            improved_until_stable(
                enviorment,
                states@,
                choice,
                values@,
                gamma as int,
                tolerance as int,
                max_sweeps as nat,
                max_rounds as nat,
            ),
        ),
        outcome matches Ok(found) ==> is_greedy_for(
            enviorment,
            states@,
            final(agent).policy@->Deterministic_0,
            found@,
            gamma as int,
        ),
        outcome matches Ok(found) ==> (old(agent).policy@ is Deterministic && distinct_keys(states@)
            && is_evaluated(
            enviorment,
            states@,
            old(agent).policy@->Deterministic_0,
            values@,
            gamma as int,
            tolerance as int,
        )) ==> is_stable_solution(
            enviorment,
            states@,
            final(agent).policy@->Deterministic_0,
            found@,
            gamma as int,
            tolerance as int,
        ),
{
    let mut current = values;
    let mut left: usize = max_rounds;
    loop
        invariant
            enviorment.well_formed(),
            0 <= gamma <= ONE,
            old(agent).policy@ is Stochastic ==> agent.policy@ == old(agent).policy@,
            old(agent).policy@ is Deterministic ==> agent.policy@ is Deterministic,
            old(agent).policy@ is Deterministic ==> improved_until_stable(
                enviorment,
                states@,
                agent.policy@->Deterministic_0,
                current@,
                gamma as int,
                tolerance as int,
                max_sweeps as nat,
                left as nat,
            ) == improved_until_stable(
                enviorment,
                states@,
                old(agent).policy@->Deterministic_0,
                values@,
                gamma as int,
                tolerance as int,
                max_sweeps as nat,
                max_rounds as nat,
            ),
        decreases left,
    {
        let changed = match &mut agent.policy {
            Policy::Deterministic(choice) => improve(enviorment, choice, states, &current, gamma),
            Policy::Stochastic(_) => {
                return Err(SolveError::UnsupportedPolicy);
            },
        };
        match changed {
            None => {
                return Err(SolveError::MalformedInput);
            },
            Some(false) => {
                proof {
                    lemma_stable_policy_is_greedy(
                        enviorment,
                        states@,
                        old(agent).policy@->Deterministic_0,
                        values@,
                        gamma as int,
                        tolerance as int,
                        max_sweeps as nat,
                        max_rounds as nat,
                    );
                    if old(agent).policy@ is Deterministic && distinct_keys(states@)
                        && is_evaluated(
                        enviorment,
                        states@,
                        old(agent).policy@->Deterministic_0,
                        values@,
                        gamma as int,
                        tolerance as int,
                    ) {
                        lemma_stable_policy_is_optimal(
                            enviorment,
                            states@,
                            old(agent).policy@->Deterministic_0,
                            values@,
                            gamma as int,
                            tolerance as int,
                            max_sweeps as nat,
                            max_rounds as nat,
                        );
                    }
                }
                return Ok(current);
            },
            Some(true) => {},
        }
        if left == 0 {
            return Err(SolveError::NotConverged);
        }
        current =
        match iterate_sweeps(
            enviorment,
            Some(&agent.policy),
            states,
            current,
            gamma,
            tolerance,
            max_sweeps,
        ) {
            Ok(found) => found,
            Err(e) => {
                return Err(e);
            },
        };
        left -= 1;
    }
}

/// The outcome of policy iteration: the policy is evaluated over all states
/// of the environment and then improved until it is stable.
pub open spec fn policy_iterated<S: State, A: Action, E: EnviormentModel<S, A>>(
    env: &E,
    policy: PolicyModel<A>,
    values: Map<u64, i64>,
    gamma: int,
    tolerance: int,
    sweeps: nat,
    rounds: nat,
) -> Result<(Map<u64, A>, Map<u64, i64>), SolveError> {
    let states = env.states_model();
    match iterated(env, Some(policy), states, values, gamma, tolerance, sweeps) {
        Err(e) => Err(e),
        Ok(found) => match policy {
            PolicyModel::Stochastic(_) => Err(SolveError::UnsupportedPolicy),
            PolicyModel::Deterministic(choice) => improved_until_stable(
                env,
                states,
                choice,
                found,
                gamma,
                tolerance,
                sweeps,
                rounds,
            ),
        },
    }
}

/// Policy iteration over all states of the environment: evaluates the
/// agent's policy, then improves and evaluates in turn until the policy is
/// stable. It returns the values of the final policy and leaves that policy
/// with the agent. Without first values it starts from 1.0 in terminal
/// states and random values elsewhere.
///
/// Where it returns values they are a stable solution: they satisfy the
/// Bellman expectation
/// equation of the final policy within `tolerance`, and where a state offers
/// an action the policy holds the first best one, so that the values satisfy
/// the Bellman optimality equation within `tolerance` there.
pub fn policy_iteration<E, S, A>(
    agent: &mut Agent<A>,
    enviorment: &E,
    values: Option<HashMap<u64, i64>>,
    gamma: i64,
    tolerance: i64,
    max_sweeps: usize,
    max_rounds: usize,
    rng: &mut StdRng,
) -> (outcome: Result<HashMap<u64, i64>, SolveError>) where
    A: Action,
    S: State,
    E: EnviormentModel<S, A>,

    requires
        enviorment.well_formed(),
        0 <= gamma <= ONE,
    ensures
        old(agent).policy@ is Stochastic ==> final(agent).policy@ == old(agent).policy@,
        old(agent).policy@ is Deterministic ==> final(agent).policy@ is Deterministic,
        values matches Some(first) ==> solution_matches(
            final(agent).policy@,
            outcome,
            policy_iterated(
                enviorment,
                old(agent).policy@,
                first@,
                gamma as int,
                tolerance as int,
                max_sweeps as nat,
                max_rounds as nat,
            ),
        ),
        values is None ==> exists|first: Map<u64, i64>|
            is_initial(enviorment, first, ONE) && solution_matches(
                final(agent).policy@,
                outcome,
                #[trigger] policy_iterated(
                    enviorment,
                    old(agent).policy@,
                    first,
                    gamma as int,
                    tolerance as int,
                    max_sweeps as nat,
                    max_rounds as nat,
                ),
            ),
        outcome matches Ok(found) ==> is_greedy_for(
            enviorment,
            enviorment.states_model(),
            final(agent).policy@->Deterministic_0,
            found@,
            gamma as int,
        ),
        outcome matches Ok(found) ==> is_stable_solution(
            enviorment,
            enviorment.states_model(),
            final(agent).policy@->Deterministic_0,
            found@,
            gamma as int,
            tolerance as int,
        ),
{
    let first = match values {
        Some(given) => given,
        None => initial_values(enviorment, ONE, rng),
    };
    let ghost start = first@;
    let states = enviorment.get_states();
    proof {
        enviorment.states_are_distinct();
        if distinct_keys(states@) {
            lemma_iterated_residual(
                enviorment,
                Some(agent.policy@),
                states@,
                start,
                gamma as int,
                tolerance as int,
                max_sweeps as nat,
            );
        }
    }
    let outcome =
    match policy_evaluation(agent, enviorment, &states, first, gamma, tolerance, max_sweeps) {
        Ok(found) => policy_improvement(
            agent,
            enviorment,
            &states,
            gamma,
            tolerance,
            found,
            max_sweeps,
            max_rounds,
        ),
        Err(e) => Err(e),
    };
    proof {
        assert(solution_matches(
            agent.policy@,
            outcome,
            policy_iterated(
                enviorment,
                old(agent).policy@,
                start,
                gamma as int,
                tolerance as int,
                max_sweeps as nat,
                max_rounds as nat,
            ),
        ));
    }
    outcome
}

/// The states are closed under the dynamics: every state has a value, and
/// whatever action is taken in a state, every successor has a value.
pub open spec fn is_closed<S: State, A: Action, E: EnviormentModel<S, A>>(
    env: &E,
    states: Seq<S>,
    known: Set<u64>,
) -> bool {
    forall|i: int, action: A|
        0 <= i < states.len() ==> {
            &&& known.contains((#[trigger] states[i]).key_spec())
            &&& #[trigger] successors_known(env.dynamics_model(states[i], action), known)
        }
}

/// An improvement pass removes no state from the policy.
pub proof fn lemma_improved_choices_grow<S: State, A: Action, E: EnviormentModel<S, A>>(
    env: &E,
    states: Seq<S>,
    choice: Map<u64, A>,
    values: Map<u64, i64>,
    gamma: int,
    n: nat,
)
    ensures
        forall|k: u64|
            choice.contains_key(k) ==> #[trigger] improved_choices(
                env,
                states,
                choice,
                values,
                gamma,
                n,
            ).contains_key(k),
    decreases n,
{
    if n > 0 {
        lemma_improved_choices_grow(env, states, choice, values, gamma, (n - 1) as nat);
        let before = improved_choices(env, states, choice, values, gamma, (n - 1) as nat);
        assert forall|k: u64| choice.contains_key(k) implies #[trigger] improved_choices(
            env,
            states,
            choice,
            values,
            gamma,
            n,
        ).contains_key(k) by {
            assert(before.contains_key(k));
        }
    }
}

/// Where the states are closed under the dynamics and the policy has an
/// action for every state, improvement never fails for want of an entry:
/// it ends with a stable policy, or the sweeps or rounds allowed are used
/// up.
pub proof fn lemma_closed_improvement<S: State, A: Action, E: EnviormentModel<S, A>>(
    env: &E,
    states: Seq<S>,
    choice: Map<u64, A>,
    values: Map<u64, i64>,
    gamma: int,
    tolerance: int,
    sweeps: nat,
    rounds: nat,
)
    requires
        is_closed(env, states, values.dom()),
        forall|i: int| 0 <= i < states.len() ==> choice.contains_key((#[trigger] states[i]).key_spec()),
    ensures
        improved_until_stable(env, states, choice, values, gamma, tolerance, sweeps, rounds) matches Err(
            reason,
        ) ==> reason == SolveError::NotConverged,
        improved_until_stable(env, states, choice, values, gamma, tolerance, sweeps, rounds) matches Ok(
            solution,
        ) ==> solution.1.dom() == values.dom(),
    decreases rounds,
{
    let known = values.dom();
    assert forall|i: int| 0 <= i < states.len() implies {
        &&& choice.dom().contains((#[trigger] states[i]).key_spec())
        &&& actions_defined(env, states[i], known)
    } by {
        let actions = env.actions_model(states[i]);
        assert forall|j: int| 0 <= j < actions.len() implies successors_known(
            env.dynamics_model(states[i], #[trigger] actions[j]),
            known,
        ) by {
            assert(successors_known(env.dynamics_model(states[i], actions[j]), known));
        }
    }
    let next = improved_choices(env, states, choice, values, gamma, states.len());
    if improvement_changed(env, states, choice, values, gamma, states.len()) && rounds > 0 {
        let rule = Some(PolicyModel::Deterministic(next));
        lemma_improved_choices_grow(env, states, choice, values, gamma, states.len());
        assert forall|i: int| 0 <= i < states.len() implies {
            &&& known.contains((#[trigger] states[i]).key_spec())
            &&& backup_defined(env, rule, states[i], known)
        } by {
            assert(choice.contains_key(states[i].key_spec()));
            assert(next.contains_key(states[i].key_spec()));
            assert(successors_known(
                env.dynamics_model(states[i], next[states[i].key_spec()]),
                known,
            ));
        }
        lemma_iterated_malformed(env, rule, states, values, gamma, tolerance, sweeps);
        lemma_iterated_domain(env, rule, states, values, gamma, tolerance, sweeps);
        match iterated(env, rule, states, values, gamma, tolerance, sweeps) {
            Ok(found) => {
                assert forall|i: int| 0 <= i < states.len() implies next.contains_key(
                    (#[trigger] states[i]).key_spec(),
                ) by {
                    assert(choice.contains_key(states[i].key_spec()));
                }
                lemma_closed_improvement(
                    env,
                    states,
                    next,
                    found,
                    gamma,
                    tolerance,
                    sweeps,
                    (rounds - 1) as nat,
                );
            },
            Err(_) => {},
        }
    }
}

/// Where the states are closed under the dynamics, a sweep is defined as
/// soon as its rule is: under a deterministic policy that has an action for
/// every state, and by the greedy action if every state offers an action.
pub proof fn lemma_closed_sweep_defined<S: State, A: Action, E: EnviormentModel<S, A>>(
    env: &E,
    rule: Option<PolicyModel<A>>,
    states: Seq<S>,
    known: Set<u64>,
)
    requires
        is_closed(env, states, known),
        rule matches Some(policy) ==> policy is Deterministic,
        rule matches Some(PolicyModel::Deterministic(choice)) ==> forall|i: int|
            0 <= i < states.len() ==> choice.contains_key((#[trigger] states[i]).key_spec()),
        rule is None ==> forall|i: int|
            0 <= i < states.len() ==> env.actions_model(#[trigger] states[i]).len() > 0,
    ensures
        sweep_defined(env, rule, states, known),
{
    assert forall|i: int| 0 <= i < states.len() implies {
        &&& known.contains((#[trigger] states[i]).key_spec())
        &&& backup_defined(env, rule, states[i], known)
    } by {
        match rule {
            None => {
                let actions = env.actions_model(states[i]);
                assert(successors_known(env.dynamics_model(states[i], actions[0]), known));
                assert forall|j: int| 0 <= j < actions.len() implies successors_known(
                    env.dynamics_model(states[i], #[trigger] actions[j]),
                    known,
                ) by {
                    assert(successors_known(env.dynamics_model(states[i], actions[j]), known));
                }
            },
            Some(PolicyModel::Deterministic(choice)) => {
                assert(successors_known(
                    env.dynamics_model(states[i], choice[states[i].key_spec()]),
                    known,
                ));
            },
            Some(PolicyModel::Stochastic(_)) => {},
        }
    }
}

} // verus!
