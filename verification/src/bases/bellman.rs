//! Laws of the Bellman backup.
//!
//! A backup never moves two value functions further apart, so a sweep whose
//! largest change is small leaves values that almost satisfy the Bellman
//! equation of its rule: the expectation equation of a policy, or the
//! optimality equation where the rule is the greedy action.
use vstd::prelude::*;

use crate::bases::mdp::{
    distinct_keys, mass, pair_key_spec, Action, EnviormentModel, PolicyModel, State, Transition,
};
use crate::bases::policy_iteration::{
    backup, backup_defined, best_index, greedy_action, greedy_defined, improved_choices,
    improved_until_stable, improvement_changed, improvement_defined, iterated, lemma_mass_monotone,
    lemma_row_mass_monotone, lookahead, mixed_return, row_mass, successors_known, sweep_defined,
    swept_change, swept_values, weighted_return,
};
use crate::utils::fixed::{
    distance, larger, lemma_quotients_close, lemma_saturation_close, ONE, ONE_CUBED, ONE_SQUARED,
};

verus! {

/// On every key of `known` the two value functions differ by at most `bound`.
pub open spec fn values_close(
    first: Map<u64, i64>,
    second: Map<u64, i64>,
    known: Set<u64>,
    bound: int,
) -> bool {
    forall|k: u64|
        #![trigger first[k]]
        #![trigger second[k]]
        known.contains(k) ==> distance(first[k] as int, second[k] as int) <= bound
}

/// States with the same key are the same state: a state may stand in the
/// list more than once, but no two different states share a key.
pub open spec fn keys_tell_apart<S: State>(states: Seq<S>) -> bool {
    forall|i: int, j: int|
        0 <= i < states.len() && 0 <= j < states.len() && (#[trigger] states[i]).key_spec() == (
        #[trigger] states[j]).key_spec() ==> states[i] == states[j]
}

/// How far the value of `state` is from its backup: how far the values are
/// from satisfying the Bellman equation of `rule` in `state`.
pub open spec fn residual<S: State, A: Action, E: EnviormentModel<S, A>>(
    env: &E,
    rule: Option<PolicyModel<A>>,
    state: S,
    values: Map<u64, i64>,
    gamma: int,
) -> int {
    distance(values[state.key_spec()] as int, backup(env, rule, state, values, gamma) as int)
}

/// One outcome's weighted return moves by no more than the weighted,
/// discounted difference of the values.
proof fn lemma_term_close(p: int, r: int, gamma: int, a: int, b: int, bound: int)
    by (nonlinear_arith)
    requires
        p >= 0,
        gamma >= 0,
        -bound <= a - b <= bound,
    ensures
        -(p * (gamma * bound)) <= p * (r + gamma * a) - p * (r + gamma * b) <= p * (gamma * bound),
{
    assert(p * (r + gamma * a) - p * (r + gamma * b) == p * (gamma * (a - b)));
    assert(-(gamma * bound) <= gamma * (a - b) <= gamma * bound);
}

/// Discounting never enlarges a bound.
proof fn lemma_discount_bounded(gamma: int, bound: int)
    by (nonlinear_arith)
    requires
        0 <= gamma <= 1_000_000,
        bound >= 0,
    ensures
        0 <= gamma * bound <= 1_000_000 * bound,
{
}

/// Scaling two numbers scales their difference.
proof fn lemma_scaled_close(p: int, a: int, b: int, bound: int)
    by (nonlinear_arith)
    requires
        p >= 0,
        -bound <= a - b <= bound,
    ensures
        -(p * bound) <= p * a - p * b <= p * bound,
{
    assert(p * a - p * b == p * (a - b));
}

/// Multiplication distributes over a sum.
proof fn lemma_distribute(m: int, p: int, c: int)
    by (nonlinear_arith)
    ensures
        (m + p) * c == m * c + p * c,
{
}

/// A product grows with its non-negative factor.
proof fn lemma_scale_monotone(m: int, limit: int, c: int)
    by (nonlinear_arith)
    requires
        0 <= m <= limit,
        c >= 0,
    ensures
        0 <= m * c <= limit * c,
{
}

/// Weighted returns under two value functions differ by no more than the
/// value functions do, weighted by the mass and the discount.
pub proof fn lemma_weighted_return_close<S: State>(
    outcomes: Seq<Transition<S>>,
    first: Map<u64, i64>,
    second: Map<u64, i64>,
    known: Set<u64>,
    gamma: int,
    bound: int,
    n: nat,
)
    requires
        n <= outcomes.len(),
        forall|i: int| 0 <= i < outcomes.len() ==> (#[trigger] outcomes[i]).probability >= 0,
        successors_known(outcomes, known),
        values_close(first, second, known, bound),
        0 <= gamma <= ONE,
        bound >= 0,
    ensures
        distance(
            weighted_return(outcomes, first, gamma, n),
            weighted_return(outcomes, second, gamma, n),
        ) <= mass(outcomes, n) * (gamma * bound),
    decreases n,
{
    if n > 0 {
        lemma_weighted_return_close(outcomes, first, second, known, gamma, bound, (n - 1) as nat);
        let o = outcomes[n - 1];
        let k = o.next_state.key_spec();
        assert(known.contains(k));
        assert(distance(first[k] as int, second[k] as int) <= bound);
        lemma_term_close(
            o.probability as int,
            o.reward * ONE_SQUARED,
            gamma,
            first[k] as int,
            second[k] as int,
            bound,
        );
        lemma_distribute(mass(outcomes, (n - 1) as nat), o.probability as int, gamma * bound);
    }
}

/// What is left of a difference of `bound` after discounting, rounded up.
pub open spec fn shrunk(gamma: int, bound: int) -> int {
    (gamma * bound + ONE - 1) / (ONE as int)
}

/// The lookahead of an action contracts: under value functions that differ
/// by at most `bound` it differs by at most the discounted bound.
pub proof fn lemma_lookahead_contracts<S: State, A: Action, E: EnviormentModel<S, A>>(
    env: &E,
    state: S,
    action: A,
    first: Map<u64, i64>,
    second: Map<u64, i64>,
    known: Set<u64>,
    gamma: int,
    bound: int,
)
    requires
        env.well_formed(),
        successors_known(env.dynamics_model(state, action), known),
        values_close(first, second, known, bound),
        0 <= gamma <= ONE,
        bound >= 0,
    ensures
        distance(
            lookahead(env, state, action, first, gamma) as int,
            lookahead(env, state, action, second, gamma) as int,
        ) <= shrunk(gamma, bound),
        0 <= shrunk(gamma, bound) <= bound,
{
    let outcomes = env.dynamics_model(state, action);
    env.dynamics_is_distribution(state, action);
    lemma_weighted_return_close(outcomes, first, second, known, gamma, bound, outcomes.len());
    lemma_mass_monotone(outcomes, outcomes.len(), outcomes.len());
    lemma_discount_bounded(gamma, bound);
    lemma_scale_monotone(mass(outcomes, outcomes.len()), ONE as int, gamma * bound);
    let a = weighted_return(outcomes, first, gamma, outcomes.len());
    let b = weighted_return(outcomes, second, gamma, outcomes.len());
    let rest = shrunk(gamma, bound);
    assert(gamma * bound <= ONE * rest);
    assert(ONE * (gamma * bound) <= ONE_SQUARED * rest) by (nonlinear_arith)
        requires
            gamma * bound <= ONE * rest,
    ;
    lemma_quotients_close(a, b, ONE_SQUARED as int, rest);
    lemma_saturation_close(a / (ONE_SQUARED as int), b / (ONE_SQUARED as int));
}

/// The lookahead of an action under two value functions differs by no more
/// than the value functions do.
pub proof fn lemma_lookahead_close<S: State, A: Action, E: EnviormentModel<S, A>>(
    env: &E,
    state: S,
    action: A,
    first: Map<u64, i64>,
    second: Map<u64, i64>,
    known: Set<u64>,
    gamma: int,
    bound: int,
)
    requires
        env.well_formed(),
        successors_known(env.dynamics_model(state, action), known),
        values_close(first, second, known, bound),
        0 <= gamma <= ONE,
        bound >= 0,
    ensures
        distance(
            lookahead(env, state, action, first, gamma) as int,
            lookahead(env, state, action, second, gamma) as int,
        ) <= bound,
{
    let outcomes = env.dynamics_model(state, action);
    env.dynamics_is_distribution(state, action);
    lemma_lookahead_contracts(env, state, action, first, second, known, gamma, bound);
}

/// The best index is the first position of the largest lookahead: no action
/// considered has a larger one, and every earlier action has a smaller one.
pub proof fn lemma_best_index_is_first_maximum<S: State, A: Action, E: EnviormentModel<S, A>>(
    env: &E,
    state: S,
    actions: Seq<A>,
    values: Map<u64, i64>,
    gamma: int,
    n: nat,
)
    requires
        n >= 1,
    ensures
        0 <= best_index(env, state, actions, values, gamma, n) < n,
        forall|i: int|
            0 <= i < n ==> lookahead(env, state, #[trigger] actions[i], values, gamma) <= lookahead(
                env,
                state,
                actions[best_index(env, state, actions, values, gamma, n)],
                values,
                gamma,
            ),
        forall|i: int|
            0 <= i < best_index(env, state, actions, values, gamma, n) ==> lookahead(
                env,
                state,
                #[trigger] actions[i],
                values,
                gamma,
            ) < lookahead(
                env,
                state,
                actions[best_index(env, state, actions, values, gamma, n)],
                values,
                gamma,
            ),
    decreases n,
{
    if n > 1 {
        lemma_best_index_is_first_maximum(env, state, actions, values, gamma, (n - 1) as nat);
    }
}

/// The lookahead of the greedy action contracts: under value functions that
/// differ by at most `bound` it differs by at most the discounted bound.
pub proof fn lemma_greedy_value_contracts<S: State, A: Action, E: EnviormentModel<S, A>>(
    env: &E,
    state: S,
    first: Map<u64, i64>,
    second: Map<u64, i64>,
    known: Set<u64>,
    gamma: int,
    bound: int,
)
    requires
        env.well_formed(),
        greedy_defined(env, state, known),
        values_close(first, second, known, bound),
        0 <= gamma <= ONE,
        bound >= 0,
    ensures
        distance(
            lookahead(env, state, greedy_action(env, state, first, gamma), first, gamma) as int,
            lookahead(env, state, greedy_action(env, state, second, gamma), second, gamma) as int,
        ) <= shrunk(gamma, bound),
        0 <= shrunk(gamma, bound) <= bound,
{
    let actions = env.actions_model(state);
    let n = actions.len();
    lemma_best_index_is_first_maximum(env, state, actions, first, gamma, n);
    lemma_best_index_is_first_maximum(env, state, actions, second, gamma, n);
    let b1 = best_index(env, state, actions, first, gamma, n);
    let b2 = best_index(env, state, actions, second, gamma, n);
    assert(successors_known(env.dynamics_model(state, actions[b1]), known));
    assert(successors_known(env.dynamics_model(state, actions[b2]), known));
    lemma_lookahead_contracts(env, state, actions[b1], first, second, known, gamma, bound);
    lemma_lookahead_contracts(env, state, actions[b2], first, second, known, gamma, bound);
    assert(lookahead(env, state, actions[b1], second, gamma) <= lookahead(
        env,
        state,
        actions[b2],
        second,
        gamma,
    ));
    assert(lookahead(env, state, actions[b2], first, gamma) <= lookahead(
        env,
        state,
        actions[b1],
        first,
        gamma,
    ));
}

/// Mixed returns under two value functions differ by no more than the value
/// functions do, weighted by the mass of the row.
pub proof fn lemma_mixed_return_close<S: State, A: Action, E: EnviormentModel<S, A>>(
    env: &E,
    state: S,
    actions: Seq<A>,
    probabilities: Map<u128, i64>,
    first: Map<u64, i64>,
    second: Map<u64, i64>,
    known: Set<u64>,
    gamma: int,
    bound: int,
    n: nat,
)
    requires
        env.well_formed(),
        n <= actions.len(),
        forall|i: int|
            0 <= i < actions.len() ==> probabilities[pair_key_spec(
                state.key_spec(),
                (#[trigger] actions[i]).key_spec(),
            )] >= 0,
        forall|i: int|
            0 <= i < actions.len() ==> successors_known(
                env.dynamics_model(state, #[trigger] actions[i]),
                known,
            ),
        values_close(first, second, known, bound),
        0 <= gamma <= ONE,
        bound >= 0,
    ensures
        distance(
            mixed_return(env, state, actions, probabilities, first, gamma, n),
            mixed_return(env, state, actions, probabilities, second, gamma, n),
        ) <= row_mass(state.key_spec(), actions, probabilities, n) * (ONE_SQUARED * bound),
    decreases n,
{
    if n > 0 {
        lemma_mixed_return_close(
            env,
            state,
            actions,
            probabilities,
            first,
            second,
            known,
            gamma,
            bound,
            (n - 1) as nat,
        );
        let action = actions[n - 1];
        let p = probabilities[pair_key_spec(state.key_spec(), action.key_spec())];
        let outcomes = env.dynamics_model(state, action);
        env.dynamics_is_distribution(state, action);
        assert(successors_known(outcomes, known));
        lemma_weighted_return_close(outcomes, first, second, known, gamma, bound, outcomes.len());
        lemma_mass_monotone(outcomes, outcomes.len(), outcomes.len());
        lemma_discount_bounded(gamma, bound);
        lemma_scale_monotone(mass(outcomes, outcomes.len()), ONE as int, gamma * bound);
        assert(ONE * (gamma * bound) <= ONE_SQUARED * bound) by (nonlinear_arith)
            requires
                gamma * bound <= ONE * bound,
        ;
        lemma_scaled_close(
            p as int,
            weighted_return(outcomes, first, gamma, outcomes.len()),
            weighted_return(outcomes, second, gamma, outcomes.len()),
            ONE_SQUARED * bound,
        );
        lemma_distribute(
            row_mass(state.key_spec(), actions, probabilities, (n - 1) as nat),
            p as int,
            ONE_SQUARED * bound,
        );
    }
}

/// A backup never moves two value functions further apart: the backups of
/// a state under value functions that differ by at most `bound` differ by at
/// most `bound`.
pub proof fn lemma_backup_close<S: State, A: Action, E: EnviormentModel<S, A>>(
    env: &E,
    rule: Option<PolicyModel<A>>,
    state: S,
    first: Map<u64, i64>,
    second: Map<u64, i64>,
    known: Set<u64>,
    gamma: int,
    bound: int,
)
    requires
        env.well_formed(),
        backup_defined(env, rule, state, known),
        values_close(first, second, known, bound),
        0 <= gamma <= ONE,
        bound >= 0,
    ensures
        distance(
            backup(env, rule, state, first, gamma) as int,
            backup(env, rule, state, second, gamma) as int,
        ) <= bound,
{
    match rule {
        None => {
            lemma_greedy_value_contracts(env, state, first, second, known, gamma, bound);
        },
        Some(PolicyModel::Deterministic(choice)) => {
            lemma_lookahead_close(
                env,
                state,
                choice[state.key_spec()],
                first,
                second,
                known,
                gamma,
                bound,
            );
        },
        Some(PolicyModel::Stochastic(probabilities)) => {
            let actions = env.actions_model(state);
            lemma_mixed_return_close(
                env,
                state,
                actions,
                probabilities,
                first,
                second,
                known,
                gamma,
                bound,
                actions.len(),
            );
            lemma_row_mass_monotone(
                state.key_spec(),
                actions,
                probabilities,
                actions.len(),
                actions.len(),
            );
            lemma_scale_monotone(
                row_mass(state.key_spec(), actions, probabilities, actions.len()),
                ONE as int,
                ONE_SQUARED * bound,
            );
            assert(ONE * (ONE_SQUARED * bound) == ONE_CUBED * bound) by (nonlinear_arith);
            let a = mixed_return(env, state, actions, probabilities, first, gamma, actions.len());
            let b = mixed_return(env, state, actions, probabilities, second, gamma, actions.len());
            lemma_quotients_close(a, b, ONE_CUBED as int, bound);
            lemma_saturation_close(a / (ONE_CUBED as int), b / (ONE_CUBED as int));
        },
    }
}

/// Whether `key` is the key of one of the first `n` states.
pub open spec fn is_key_of<S: State>(states: Seq<S>, n: nat, key: u64) -> bool {
    exists|i: int| 0 <= i < n && (#[trigger] states[i]).key_spec() == key
}

/// The value at `key` after the first `n` backups of a sweep.
pub open spec fn staged<S: State, A: Action, E: EnviormentModel<S, A>>(
    env: &E,
    rule: Option<PolicyModel<A>>,
    states: Seq<S>,
    values: Map<u64, i64>,
    gamma: int,
    n: nat,
    key: u64,
) -> i64 {
    swept_values(env, rule, states, values, gamma, n)[key]
}

/// The first `n` backups of a sweep change values only at the keys of the
/// states backed up, and none by more than the largest change.
proof fn lemma_sweep_touches<S: State, A: Action, E: EnviormentModel<S, A>>(
    env: &E,
    rule: Option<PolicyModel<A>>,
    states: Seq<S>,
    values: Map<u64, i64>,
    gamma: int,
    n: nat,
)
    requires
        n <= states.len(),
        distinct_keys(states),
        sweep_defined(env, rule, states, values.dom()),
    ensures
        swept_values(env, rule, states, values, gamma, n).dom() == values.dom(),
        swept_change(env, rule, states, values, gamma, n) >= 0,
        forall|k: u64|
            !is_key_of(states, n, k) ==> #[trigger] staged(env, rule, states, values, gamma, n, k)
                == values[k],
        forall|k: u64|
            distance(
                #[trigger] staged(env, rule, states, values, gamma, n, k) as int,
                values[k] as int,
            ) <= swept_change(env, rule, states, values, gamma, n),
    decreases n,
{
    if n > 0 {
        let m = (n - 1) as nat;
        lemma_sweep_touches(env, rule, states, values, gamma, m);
        let before = swept_values(env, rule, states, values, gamma, m);
        let now = swept_values(env, rule, states, values, gamma, n);
        let key = states[n - 1].key_spec();
        let value = backup(env, rule, states[n - 1], before, gamma);
        assert(now == before.insert(key, value));
        assert(values.dom().contains(key));
        assert(now.dom() =~= values.dom());
        lemma_later_key_is_new(states, m);
        assert(staged(env, rule, states, values, gamma, m, key) == values[key]);
        assert forall|k: u64| !is_key_of(states, n, k) implies #[trigger] staged(
            env,
            rule,
            states,
            values,
            gamma,
            n,
            k,
        ) == values[k] by {
            assert(states[n - 1].key_spec() != k);
            if is_key_of(states, m, k) {
                let i = choose|i: int| 0 <= i < m && (#[trigger] states[i]).key_spec() == k;
                assert(states[i].key_spec() == k);
            }
            assert(staged(env, rule, states, values, gamma, m, k) == values[k]);
        }
        assert forall|k: u64|
            distance(
                #[trigger] staged(env, rule, states, values, gamma, n, k) as int,
                values[k] as int,
            ) <= swept_change(env, rule, states, values, gamma, n) by {
            if k != key {
                assert(now[k] == before[k]);
                assert(distance(
                    staged(env, rule, states, values, gamma, m, k) as int,
                    values[k] as int,
                ) <= swept_change(env, rule, states, values, gamma, m));
            }
        }
    }
}

/// Among states with distinct keys, the key of the state at position `m` is
/// not the key of an earlier state.
proof fn lemma_later_key_is_new<S: State>(states: Seq<S>, m: nat)
    requires
        m < states.len(),
        distinct_keys(states),
    ensures
        !is_key_of(states, m, states[m as int].key_spec()),
{
    if is_key_of(states, m, states[m as int].key_spec()) {
        let i = choose|i: int|
            0 <= i < m && (#[trigger] states[i]).key_spec() == states[m as int].key_spec();
        assert(states[i].key_spec() != states[m as int].key_spec());
    }
}

/// After the first `n` backups of a sweep over states with distinct keys,
/// each state backed up holds the backup that was computed for it.
proof fn lemma_sweep_keeps<S: State, A: Action, E: EnviormentModel<S, A>>(
    env: &E,
    rule: Option<PolicyModel<A>>,
    states: Seq<S>,
    values: Map<u64, i64>,
    gamma: int,
    n: nat,
)
    requires
        n <= states.len(),
        distinct_keys(states),
    ensures
        forall|j: int|
            0 <= j < n ==> swept_values(env, rule, states, values, gamma, n)[(
            #[trigger] states[j]).key_spec()] == backup(
                env,
                rule,
                states[j],
                swept_values(env, rule, states, values, gamma, j as nat),
                gamma,
            ),
    decreases n,
{
    if n > 0 {
        let m = (n - 1) as nat;
        lemma_sweep_keeps(env, rule, states, values, gamma, m);
        let before = swept_values(env, rule, states, values, gamma, m);
        let now = swept_values(env, rule, states, values, gamma, n);
        assert forall|j: int| 0 <= j < n implies now[(#[trigger] states[j]).key_spec()] == backup(
            env,
            rule,
            states[j],
            swept_values(env, rule, states, values, gamma, j as nat),
            gamma,
        ) by {
            if j < m {
                assert(states[j].key_spec() != states[n - 1].key_spec());
                assert(now[states[j].key_spec()] == before[states[j].key_spec()]);
            }
        }
    }
}

/// During a sweep over states with distinct keys every value is either the
/// one from before the sweep or the one from after it.
proof fn lemma_sweep_between<S: State, A: Action, E: EnviormentModel<S, A>>(
    env: &E,
    rule: Option<PolicyModel<A>>,
    states: Seq<S>,
    values: Map<u64, i64>,
    gamma: int,
    j: nat,
    n: nat,
    key: u64,
)
    requires
        j <= n <= states.len(),
        distinct_keys(states),
        sweep_defined(env, rule, states, values.dom()),
    ensures
        staged(env, rule, states, values, gamma, j, key) == values[key] || staged(
            env,
            rule,
            states,
            values,
            gamma,
            j,
            key,
        ) == staged(env, rule, states, values, gamma, n, key),
    decreases n,
{
    if j < n {
        let m = (n - 1) as nat;
        lemma_sweep_between(env, rule, states, values, gamma, j, m, key);
        if key == states[n - 1].key_spec() {
            lemma_sweep_touches(env, rule, states, values, gamma, m);
            lemma_later_key_is_new(states, m);
            assert(staged(env, rule, states, values, gamma, m, key) == values[key]);
        } else {
            assert(staged(env, rule, states, values, gamma, n, key) == staged(
                env,
                rule,
                states,
                values,
                gamma,
                m,
                key,
            ));
        }
    }
}

/// After a sweep over states with distinct keys, no state's value is
/// further from its backup than the largest change of the sweep.
pub proof fn lemma_sweep_residual<S: State, A: Action, E: EnviormentModel<S, A>>(
    env: &E,
    rule: Option<PolicyModel<A>>,
    states: Seq<S>,
    values: Map<u64, i64>,
    gamma: int,
)
    requires
        env.well_formed(),
        0 <= gamma <= ONE,
        distinct_keys(states),
        sweep_defined(env, rule, states, values.dom()),
    ensures
        swept_values(env, rule, states, values, gamma, states.len()).dom() == values.dom(),
        forall|i: int|
            0 <= i < states.len() ==> residual(
                env,
                rule,
                #[trigger] states[i],
                swept_values(env, rule, states, values, gamma, states.len()),
                gamma,
            ) <= swept_change(env, rule, states, values, gamma, states.len()),
{
    let n = states.len();
    let now = swept_values(env, rule, states, values, gamma, n);
    let change = swept_change(env, rule, states, values, gamma, n);
    lemma_sweep_touches(env, rule, states, values, gamma, n);
    lemma_sweep_keeps(env, rule, states, values, gamma, n);
    assert forall|i: int| 0 <= i < n implies residual(
        env,
        rule,
        #[trigger] states[i],
        now,
        gamma,
    ) <= change by {
        let earlier = swept_values(env, rule, states, values, gamma, i as nat);
        assert(now[states[i].key_spec()] == backup(env, rule, states[i], earlier, gamma));
        assert forall|k: u64| values.dom().contains(k) implies distance(
            (#[trigger] earlier[k]) as int,
            now[k] as int,
        ) <= change by {
            lemma_sweep_between(env, rule, states, values, gamma, i as nat, n, k);
            assert(distance(
                staged(env, rule, states, values, gamma, n, k) as int,
                values[k] as int,
            ) <= change);
        }
        assert(values_close(earlier, now, values.dom(), change));
        lemma_backup_close(env, rule, states[i], earlier, now, values.dom(), gamma, change);
    }
}

/// Where sweeping over states with distinct keys ends with values, every
/// state's value is within `tolerance` of its backup under those values, and
/// the same states have a value as before.
pub proof fn lemma_iterated_residual<S: State, A: Action, E: EnviormentModel<S, A>>(
    env: &E,
    rule: Option<PolicyModel<A>>,
    states: Seq<S>,
    values: Map<u64, i64>,
    gamma: int,
    tolerance: int,
    sweeps: nat,
)
    requires
        env.well_formed(),
        0 <= gamma <= ONE,
        distinct_keys(states),
    ensures
        iterated(env, rule, states, values, gamma, tolerance, sweeps) matches Ok(found) ==> {
            &&& found.dom() == values.dom()
            &&& sweep_defined(env, rule, states, found.dom())
            &&& forall|i: int|
                0 <= i < states.len() ==> residual(env, rule, #[trigger] states[i], found, gamma)
                    < tolerance
        },
    decreases sweeps,
{
    if sweeps > 0 && sweep_defined(env, rule, states, values.dom()) {
        lemma_sweep_residual(env, rule, states, values, gamma);
        let next = swept_values(env, rule, states, values, gamma, states.len());
        if swept_change(env, rule, states, values, gamma, states.len()) >= tolerance {
            lemma_iterated_residual(env, rule, states, next, gamma, tolerance, (sweeps - 1) as nat);
        }
    }
}

/// `action` is the first of the legal actions in `state` with the largest
/// lookahead: no legal action has a larger one, and every legal action
/// before it has a smaller one.
pub open spec fn is_first_best<S: State, A: Action, E: EnviormentModel<S, A>>(
    env: &E,
    state: S,
    action: A,
    values: Map<u64, i64>,
    gamma: int,
) -> bool {
    let actions = env.actions_model(state);
    exists|b: int|
        {
            &&& 0 <= b < actions.len()
            &&& #[trigger] actions[b] == action
            &&& forall|j: int|
                0 <= j < actions.len() ==> lookahead(env, state, #[trigger] actions[j], values, gamma)
                    <= lookahead(env, state, action, values, gamma)
            &&& forall|j: int|
                0 <= j < b ==> lookahead(env, state, #[trigger] actions[j], values, gamma)
                    < lookahead(env, state, action, values, gamma)
        }
}

/// The greedy action never has a smaller lookahead than another legal
/// action, and it is the first such action.
pub proof fn lemma_greedy_action_is_first_best<S: State, A: Action, E: EnviormentModel<S, A>>(
    env: &E,
    state: S,
    values: Map<u64, i64>,
    gamma: int,
)
    requires
        env.actions_model(state).len() > 0,
    ensures
        is_first_best(env, state, greedy_action(env, state, values, gamma), values, gamma),
{
    let actions = env.actions_model(state);
    lemma_best_index_is_first_maximum(env, state, actions, values, gamma, actions.len());
    let b = best_index(env, state, actions, values, gamma, actions.len());
    assert(actions[b] == greedy_action(env, state, values, gamma));
}

/// Only one action is the first best: greedy-policy extraction has one
/// answer for each state.
pub proof fn lemma_first_best_is_unique<S: State, A: Action, E: EnviormentModel<S, A>>(
    env: &E,
    state: S,
    first: A,
    second: A,
    values: Map<u64, i64>,
    gamma: int,
)
    requires
        is_first_best(env, state, first, values, gamma),
        is_first_best(env, state, second, values, gamma),
    ensures
        first == second,
{
    let actions = env.actions_model(state);
    let b1 = choose|b: int|
        {
            &&& 0 <= b < actions.len()
            &&& #[trigger] actions[b] == first
            &&& forall|j: int|
                0 <= j < actions.len() ==> lookahead(env, state, #[trigger] actions[j], values, gamma)
                    <= lookahead(env, state, first, values, gamma)
            &&& forall|j: int|
                0 <= j < b ==> lookahead(env, state, #[trigger] actions[j], values, gamma)
                    < lookahead(env, state, first, values, gamma)
        };
    let b2 = choose|b: int|
        {
            &&& 0 <= b < actions.len()
            &&& #[trigger] actions[b] == second
            &&& forall|j: int|
                0 <= j < actions.len() ==> lookahead(env, state, #[trigger] actions[j], values, gamma)
                    <= lookahead(env, state, second, values, gamma)
            &&& forall|j: int|
                0 <= j < b ==> lookahead(env, state, #[trigger] actions[j], values, gamma)
                    < lookahead(env, state, second, values, gamma)
        };
    if b1 < b2 {
        assert(lookahead(env, state, actions[b1], values, gamma) < lookahead(
            env,
            state,
            second,
            values,
            gamma,
        ));
        assert(lookahead(env, state, actions[b2], values, gamma) <= lookahead(
            env,
            state,
            first,
            values,
            gamma,
        ));
    } else if b2 < b1 {
        assert(lookahead(env, state, actions[b2], values, gamma) < lookahead(
            env,
            state,
            first,
            values,
            gamma,
        ));
        assert(lookahead(env, state, actions[b1], values, gamma) <= lookahead(
            env,
            state,
            second,
            values,
            gamma,
        ));
    }
}

/// An improvement pass that changed no state's action left the policy as
/// it was, and the policy holds the greedy action of every state that offers
/// an action.
pub proof fn lemma_unchanged_improvement<S: State, A: Action, E: EnviormentModel<S, A>>(
    env: &E,
    states: Seq<S>,
    choice: Map<u64, A>,
    values: Map<u64, i64>,
    gamma: int,
    n: nat,
)
    requires
        n <= states.len(),
        forall|i: int| 0 <= i < n ==> choice.contains_key((#[trigger] states[i]).key_spec()),
        !improvement_changed(env, states, choice, values, gamma, n),
    ensures
        improved_choices(env, states, choice, values, gamma, n) == choice,
        forall|i: int|
            0 <= i < n && env.actions_model(#[trigger] states[i]).len() > 0
                ==> choice[states[i].key_spec()] == greedy_action(env, states[i], values, gamma),
    decreases n,
{
    if n > 0 {
        lemma_unchanged_improvement(env, states, choice, values, gamma, (n - 1) as nat);
        let state = states[n - 1];
        if env.actions_model(state).len() > 0 {
            A::key_is_injective(
                greedy_action(env, state, values, gamma),
                choice[state.key_spec()],
            );
            assert(choice.insert(state.key_spec(), choice[state.key_spec()]) =~= choice);
        }
    }
}

/// The policy is greedy for the values: in every state that offers an
/// action it holds the first best action.
pub open spec fn is_greedy_for<S: State, A: Action, E: EnviormentModel<S, A>>(
    env: &E,
    states: Seq<S>,
    choice: Map<u64, A>,
    values: Map<u64, i64>,
    gamma: int,
) -> bool {
    forall|i: int|
        0 <= i < states.len() && env.actions_model(#[trigger] states[i]).len() > 0 ==> {
            &&& choice.contains_key(states[i].key_spec())
            &&& is_first_best(env, states[i], choice[states[i].key_spec()], values, gamma)
        }
}

/// Improvement ends, where it ends with a policy, with a policy that is
/// greedy for the values that it returns.
pub proof fn lemma_stable_policy_is_greedy<S: State, A: Action, E: EnviormentModel<S, A>>(
    env: &E,
    states: Seq<S>,
    choice: Map<u64, A>,
    values: Map<u64, i64>,
    gamma: int,
    tolerance: int,
    sweeps: nat,
    rounds: nat,
)
    ensures
        improved_until_stable(env, states, choice, values, gamma, tolerance, sweeps, rounds) matches Ok(
            solution,
        ) ==> is_greedy_for(env, states, solution.0, solution.1, gamma),
    decreases rounds,
{
    if improvement_defined(env, states, choice.dom(), values.dom()) {
        let next = improved_choices(env, states, choice, values, gamma, states.len());
        if !improvement_changed(env, states, choice, values, gamma, states.len()) {
            assert forall|i: int| 0 <= i < states.len() implies choice.contains_key(
                (#[trigger] states[i]).key_spec(),
            ) by {}
            lemma_unchanged_improvement(env, states, choice, values, gamma, states.len());
            assert forall|i: int|
                0 <= i < states.len() && env.actions_model(#[trigger] states[i]).len()
                    > 0 implies {
                &&& next.contains_key(states[i].key_spec())
                &&& is_first_best(env, states[i], next[states[i].key_spec()], values, gamma)
            } by {
                lemma_greedy_action_is_first_best(env, states[i], values, gamma);
            }
        } else if rounds > 0 {
            let rule = Some(PolicyModel::Deterministic(next));
            match iterated(env, rule, states, values, gamma, tolerance, sweeps) {
                Ok(found) => {
                    lemma_stable_policy_is_greedy(
                        env,
                        states,
                        next,
                        found,
                        gamma,
                        tolerance,
                        sweeps,
                        (rounds - 1) as nat,
                    );
                },
                Err(_) => {},
            }
        }
    }
}

/// The policy is stable against the values and the values are its own:
/// in every state the values satisfy the Bellman expectation equation of the
/// policy within `tolerance`, and in every state that offers an action the
/// policy holds the first best action, so that the values satisfy the
/// Bellman optimality equation within `tolerance` there.
pub open spec fn is_stable_solution<S: State, A: Action, E: EnviormentModel<S, A>>(
    env: &E,
    states: Seq<S>,
    choice: Map<u64, A>,
    values: Map<u64, i64>,
    gamma: int,
    tolerance: int,
) -> bool {
    forall|i: int|
        0 <= i < states.len() ==> {
            &&& residual(
                env,
                Some(PolicyModel::Deterministic(choice)),
                #[trigger] states[i],
                values,
                gamma,
            ) < tolerance
            &&& env.actions_model(states[i]).len() > 0 ==> {
                &&& choice.contains_key(states[i].key_spec())
                &&& is_first_best(env, states[i], choice[states[i].key_spec()], values, gamma)
                &&& residual(env, None::<PolicyModel<A>>, states[i], values, gamma) < tolerance
            }
        }
}

/// The values satisfy the Bellman expectation equation of the policy within
/// `tolerance` in every state.
pub open spec fn is_evaluated<S: State, A: Action, E: EnviormentModel<S, A>>(
    env: &E,
    states: Seq<S>,
    choice: Map<u64, A>,
    values: Map<u64, i64>,
    gamma: int,
    tolerance: int,
) -> bool {
    forall|i: int|
        0 <= i < states.len() ==> residual(
            env,
            Some(PolicyModel::Deterministic(choice)),
            #[trigger] states[i],
            values,
            gamma,
        ) < tolerance
}

/// Improvement that starts from values of its policy ends, where it ends
/// with a policy, in a stable solution: policy iteration solves the Bellman
/// optimality equation within `tolerance`.
pub proof fn lemma_stable_policy_is_optimal<S: State, A: Action, E: EnviormentModel<S, A>>(
    env: &E,
    states: Seq<S>,
    choice: Map<u64, A>,
    values: Map<u64, i64>,
    gamma: int,
    tolerance: int,
    sweeps: nat,
    rounds: nat,
)
    requires
        env.well_formed(),
        0 <= gamma <= ONE,
        distinct_keys(states),
        is_evaluated(env, states, choice, values, gamma, tolerance),
    ensures
        improved_until_stable(env, states, choice, values, gamma, tolerance, sweeps, rounds) matches Ok(
            solution,
        ) ==> is_stable_solution(env, states, solution.0, solution.1, gamma, tolerance),
    decreases rounds,
{
    if improvement_defined(env, states, choice.dom(), values.dom()) {
        let next = improved_choices(env, states, choice, values, gamma, states.len());
        if !improvement_changed(env, states, choice, values, gamma, states.len()) {
            lemma_unchanged_improvement(env, states, choice, values, gamma, states.len());
            assert forall|i: int| 0 <= i < states.len() implies {
                &&& residual(
                    env,
                    Some(PolicyModel::Deterministic(next)),
                    #[trigger] states[i],
                    values,
                    gamma,
                ) < tolerance
                &&& env.actions_model(states[i]).len() > 0 ==> {
                    &&& next.contains_key(states[i].key_spec())
                    &&& is_first_best(env, states[i], next[states[i].key_spec()], values, gamma)
                    &&& residual(env, None::<PolicyModel<A>>, states[i], values, gamma) < tolerance
                }
            } by {
                if env.actions_model(states[i]).len() > 0 {
                    lemma_greedy_action_is_first_best(env, states[i], values, gamma);
                }
            }
        } else if rounds > 0 {
            let rule = Some(PolicyModel::Deterministic(next));
            lemma_iterated_residual(env, rule, states, values, gamma, tolerance, sweeps);
            match iterated(env, rule, states, values, gamma, tolerance, sweeps) {
                Ok(found) => {
                    lemma_stable_policy_is_optimal(
                        env,
                        states,
                        next,
                        found,
                        gamma,
                        tolerance,
                        sweeps,
                        (rounds - 1) as nat,
                    );
                },
                Err(_) => {},
            }
        }
    }
}

/// The keys of the states.
pub open spec fn keys_of<S: State>(states: Seq<S>) -> Set<u64> {
    Set::new(|key: u64| is_key_of(states, states.len(), key))
}

/// The largest difference between two value functions on the first `n`
/// states.
pub open spec fn largest_gap<S: State>(
    states: Seq<S>,
    first: Map<u64, i64>,
    second: Map<u64, i64>,
    n: nat,
) -> int
    decreases n,
{
    if n == 0 {
        0
    } else {
        larger(
            largest_gap(states, first, second, (n - 1) as nat),
            distance(
                first[states[n - 1].key_spec()] as int,
                second[states[n - 1].key_spec()] as int,
            ),
        )
    }
}

/// The largest gap bounds the difference in every state, and some state
/// attains it.
pub proof fn lemma_largest_gap<S: State>(
    states: Seq<S>,
    first: Map<u64, i64>,
    second: Map<u64, i64>,
    n: nat,
)
    requires
        n <= states.len(),
    ensures
        largest_gap(states, first, second, n) >= 0,
        forall|i: int|
            0 <= i < n ==> distance(
                first[(#[trigger] states[i]).key_spec()] as int,
                second[states[i].key_spec()] as int,
            ) <= largest_gap(states, first, second, n),
        n > 0 ==> exists|i: int|
            0 <= i < n && distance(
                first[(#[trigger] states[i]).key_spec()] as int,
                second[states[i].key_spec()] as int,
            ) == largest_gap(states, first, second, n),
    decreases n,
{
    if n > 0 {
        lemma_largest_gap(states, first, second, (n - 1) as nat);
        let last = distance(
            first[states[n - 1].key_spec()] as int,
            second[states[n - 1].key_spec()] as int,
        );
        if n == 1 || last >= largest_gap(states, first, second, (n - 1) as nat) {
            assert(distance(
                first[states[n - 1].key_spec()] as int,
                second[states[n - 1].key_spec()] as int,
            ) == largest_gap(states, first, second, n));
        } else {
            let i = choose|i: int|
                0 <= i < n - 1 && distance(
                    first[(#[trigger] states[i]).key_spec()] as int,
                    second[states[i].key_spec()] as int,
                ) == largest_gap(states, first, second, (n - 1) as nat);
            assert(distance(first[states[i].key_spec()] as int, second[states[i].key_spec()] as int)
                == largest_gap(states, first, second, n));
        }
    }
}

/// A gap that is at most two residuals plus its own discounted rest is small.
proof fn lemma_gap_closes(gap: int, gamma: int, tolerance: int, rest: int)
    by (nonlinear_arith)
    requires
        0 <= gamma <= 1_000_000,
        gap >= 0,
        gap <= 2 * (tolerance - 1) + rest,
        1_000_000 * rest <= gamma * gap + 1_000_000 - 1,
    ensures
        gap * (1_000_000 - gamma) < 2 * tolerance * 1_000_000,
{
}

/// A smaller gap stays smaller when scaled.
proof fn lemma_smaller_gap(small: int, gap: int, factor: int)
    by (nonlinear_arith)
    requires
        0 <= small <= gap,
        factor >= 0,
    ensures
        small * factor <= gap * factor,
{
}

/// Two solutions of the Bellman optimality equation agree: where two value
/// functions satisfy the equation within `tolerance` in every state, and
/// every successor of every state is one of the states, they differ in no
/// state by `2 * tolerance / (1 - gamma)` or more. Value iteration and policy
/// iteration return such value functions, so with a discount below 1.0
/// their results agree the better the smaller the tolerance is; without
/// discounting nothing is known of how far apart they are.
pub proof fn lemma_solutions_agree<S: State, A: Action, E: EnviormentModel<S, A>>(
    env: &E,
    states: Seq<S>,
    first: Map<u64, i64>,
    second: Map<u64, i64>,
    gamma: int,
    tolerance: int,
)
    requires
        env.well_formed(),
        0 <= gamma <= ONE,
        forall|i: int|
            0 <= i < states.len() ==> greedy_defined(env, #[trigger] states[i], keys_of(states)),
        forall|i: int|
            0 <= i < states.len() ==> {
                &&& residual(env, None::<PolicyModel<A>>, #[trigger] states[i], first, gamma)
                    < tolerance
                &&& residual(env, None::<PolicyModel<A>>, states[i], second, gamma) < tolerance
            },
    ensures
        forall|i: int|
            0 <= i < states.len() ==> distance(
                first[(#[trigger] states[i]).key_spec()] as int,
                second[states[i].key_spec()] as int,
            ) * (ONE - gamma) < 2 * tolerance * ONE,
{
    let n = states.len();
    if n > 0 {
        lemma_largest_gap(states, first, second, n);
        let gap = largest_gap(states, first, second, n);
        let worst = choose|i: int|
            0 <= i < n && distance(
                first[(#[trigger] states[i]).key_spec()] as int,
                second[states[i].key_spec()] as int,
            ) == gap;
        let known = keys_of(states);
        assert forall|k: u64| known.contains(k) implies distance(
            (#[trigger] first[k]) as int,
            second[k] as int,
        ) <= gap by {
            let i = choose|i: int| 0 <= i < n && (#[trigger] states[i]).key_spec() == k;
            assert(distance(first[states[i].key_spec()] as int, second[states[i].key_spec()] as int)
                <= gap);
        }
        assert(values_close(first, second, known, gap));
        assert(greedy_defined(env, states[worst], known));
        lemma_greedy_value_contracts(env, states[worst], first, second, known, gamma, gap);
        let rest = shrunk(gamma, gap);
        assert(residual(env, None::<PolicyModel<A>>, states[worst], first, gamma) < tolerance);
        assert(residual(env, None::<PolicyModel<A>>, states[worst], second, gamma) < tolerance);
        assert(gap <= 2 * (tolerance - 1) + rest);
        assert(ONE * rest <= gamma * gap + ONE - 1);
        lemma_gap_closes(gap, gamma, tolerance, rest);
        assert forall|i: int| 0 <= i < n implies distance(
            first[(#[trigger] states[i]).key_spec()] as int,
            second[states[i].key_spec()] as int,
        ) * (ONE - gamma) < 2 * tolerance * ONE by {
            lemma_smaller_gap(
                distance(first[states[i].key_spec()] as int, second[states[i].key_spec()] as int),
                gap,
                ONE - gamma,
            );
        }
    }
}

/// Without lookahead two solutions agree within twice the tolerance: at a
/// discount of 0.0 two value functions that satisfy the Bellman optimality
/// equation within `tolerance` in every state differ by less than
/// `2 * tolerance` in every state. At a larger discount they may differ by
/// more, see `lemma_solutions_agree`.
pub proof fn lemma_myopic_solutions_agree<S: State, A: Action, E: EnviormentModel<S, A>>(
    env: &E,
    states: Seq<S>,
    first: Map<u64, i64>,
    second: Map<u64, i64>,
    tolerance: int,
)
    requires
        env.well_formed(),
        forall|i: int|
            0 <= i < states.len() ==> greedy_defined(env, #[trigger] states[i], keys_of(states)),
        forall|i: int|
            0 <= i < states.len() ==> {
                &&& residual(env, None::<PolicyModel<A>>, #[trigger] states[i], first, 0)
                    < tolerance
                &&& residual(env, None::<PolicyModel<A>>, states[i], second, 0) < tolerance
            },
    ensures
        forall|i: int|
            0 <= i < states.len() ==> distance(
                first[(#[trigger] states[i]).key_spec()] as int,
                second[states[i].key_spec()] as int,
            ) < 2 * tolerance,
{
    lemma_solutions_agree(env, states, first, second, 0, tolerance);
    assert forall|i: int| 0 <= i < states.len() implies distance(
        first[(#[trigger] states[i]).key_spec()] as int,
        second[states[i].key_spec()] as int,
    ) < 2 * tolerance by {
        let apart = distance(
            first[states[i].key_spec()] as int,
            second[states[i].key_spec()] as int,
        );
        assert(apart * (ONE - 0) < 2 * tolerance * ONE);
    }
}

} // verus!
