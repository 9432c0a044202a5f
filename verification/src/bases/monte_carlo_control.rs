//! Monte Carlo control on an environment that can only be simulated.
//!
//! The learner holds a stochastic policy and an action-value table, both
//! keyed by state-action pairs. After each episode it walks the trajectory
//! backwards to carry the return back, and at the first visit of each pair
//! in the episode it records the return that followed, stores the mean of
//! the pair's returns as its value and makes the policy of the pair's state
//! epsilon-greedy for the values.
use std::collections::HashMap;
use std::collections::HashSet;

use rand::rngs::StdRng;
use vstd::prelude::*;

use crate::bases::mdp::{
    can_select, episode, is_walk, lemma_pair_key_injective, pair_key, pair_key_spec, Action,
    Enviorment, Policy, PolicyModel, SolveError, State,
};
use crate::bases::policy_iteration::row_mass;
use crate::utils::fixed::{
    fixed_product, floor_div, larger, lemma_product_bounded, lemma_quotient_bounded, multiply,
    saturate, saturated, ONE, ONE_CUBED,
};
use crate::utils::random::choose_one;

verus! {

/// The factor by which the exploration rate shrinks from one episode to the
/// next: 0.999.
pub const EPSILON_DECAY: i64 = 999_000;

/// The exploration rate never falls below this: 0.0001.
pub const MINIMUM_EPSILON: i64 = 100;

/// The decay factor to the power of `episode`, as a count of units of
/// `1 / ONE_CUBED`, rounded down after each multiplication. At this scale
/// rounding costs less than one unit for each episode.
pub open spec fn decay_power(episode: nat) -> i64
    decreases episode,
{
    if episode == 0 {
        ONE_CUBED as i64
    } else {
        decayed(decay_power((episode - 1) as nat))
    }
}

/// A decay power times the decay factor, rounded down.
pub open spec fn decayed(power: i64) -> i64 {
    saturated((power * EPSILON_DECAY) / (ONE as int))
}

/// The exploration rate of the episode with the given index: the first rate
/// times the decay factor to the power of the index, but at least the
/// minimum. Each episode's rate is taken from the first rate, not from the
/// rate of the episode before.
pub open spec fn annealed_epsilon(epsilon: i64, episode: nat) -> i64 {
    annealed(epsilon, decay_power(episode))
}

/// The exploration rate for a decay power that is already computed.
pub open spec fn annealed(epsilon: i64, power: i64) -> i64 {
    larger(saturated((epsilon * power) / (ONE_CUBED as int)) as int, MINIMUM_EPSILON as int) as i64
}

/// Computes the next decay power.
pub fn decay(power: i64) -> (next: i64)
    ensures
        next == decayed(power),
{
    proof {
        lemma_product_bounded(
            power as int,
            EPSILON_DECAY as int,
            0x8000_0000_0000_0000,
            0x8000_0000_0000_0000,
        );
    }
    saturate(floor_div((power as i128) * (EPSILON_DECAY as i128), ONE as i128))
}

/// Computes the exploration rate for a decay power.
pub fn anneal(epsilon: i64, power: i64) -> (rate: i64)
    ensures
        rate == annealed(epsilon, power),
{
    proof {
        lemma_product_bounded(
            epsilon as int,
            power as int,
            0x8000_0000_0000_0000,
            0x8000_0000_0000_0000,
        );
    }
    let scaled: i64 = saturate(floor_div((epsilon as i128) * (power as i128), ONE_CUBED));
    if scaled >= MINIMUM_EPSILON {
        scaled
    } else {
        MINIMUM_EPSILON
    }
}

/// `base` to the power of `exponent`.
pub open spec fn power_of(base: int, exponent: nat) -> int
    decreases exponent,
{
    if exponent == 0 {
        1
    } else {
        base * power_of(base, (exponent - 1) as nat)
    }
}

/// One step of the bound on the decay power.
proof fn lemma_decay_step(p: int, q: int, k: int, c: int, n: int, t: int)
    by (nonlinear_arith)
    requires
        1000 * q <= 999 * p < 1000 * q + 1000,
        p * t <= c * n <= (p + k - 1) * t,
        t > 0,
        n >= 0,
    ensures
        q * (1000 * t) <= c * (999 * n) <= (q + k) * (1000 * t),
{
}

/// The decay power is a number between 0.0 and 1.0, and it is the true
/// power of 0.999 but for rounding: never above it, and below it by less
/// than one unit of `1 / ONE_CUBED` for each episode.
pub proof fn lemma_decay_power_bounded(episode: nat)
    ensures
        0 <= decay_power(episode) <= ONE_CUBED,
        power_of(1000, episode) > 0,
        power_of(999, episode) >= 0,
        decay_power(episode) * power_of(1000, episode) <= ONE_CUBED * power_of(999, episode),
        ONE_CUBED * power_of(999, episode) <= (decay_power(episode) + episode) * power_of(
            1000,
            episode,
        ),
    decreases episode,
{
    if episode > 0 {
        let before = (episode - 1) as nat;
        lemma_decay_power_bounded(before);
        let p = decay_power(before) as int;
        let q = decay_power(episode) as int;
        let t = power_of(1000, before);
        let n = power_of(999, before);
        assert(q == (p * 999_000) / 1_000_000);
        assert(power_of(1000, episode) == 1000 * t);
        assert(power_of(999, episode) == 999 * n);
        assert(1000 * t > 0 && 999 * n >= 0) by (nonlinear_arith)
            requires
                t > 0,
                n >= 0,
        ;
        lemma_decay_step(p, q, episode as int, ONE_CUBED as int, n, t);
    } else {
        assert(power_of(1000, 0) == 1 && power_of(999, 0) == 1);
    }
}

/// The return from a step on: the step's reward plus the discounted return
/// from the next step on.
pub open spec fn discounted(gamma: i64, later: i64, reward: i32) -> i64 {
    saturated(fixed_product(gamma as int, later as int) + reward * ONE)
}

/// Computes the return from a step on.
pub fn discount(gamma: i64, later: i64, reward: i32) -> (g: i64)
    ensures
        g == discounted(gamma, later, reward),
{
    let carried: i64 = multiply(gamma, later);
    let earned: i128 = (reward as i128) * 1_000_000;
    saturate(carried as i128 + earned)
}

/// The position of the favourite among the first `n` actions: the one with
/// the largest value, and among several of those the first.
pub open spec fn favourite_index<A: Action>(
    state: u64,
    actions: Seq<A>,
    action_values: Map<u128, i64>,
    n: nat,
) -> int
    decreases n,
{
    if n <= 1 {
        0
    } else {
        let best = favourite_index(state, actions, action_values, (n - 1) as nat);
        if action_values[pair_key_spec(state, actions[n - 1].key_spec())]
            > action_values[pair_key_spec(state, actions[best].key_spec())] {
            n - 1
        } else {
            best
        }
    }
}

/// The state offers an action, and every action that it offers has a value
/// and a probability.
pub open spec fn soft_update_defined<S: State, A: Action, E: Enviorment<S, A>>(
    env: &E,
    state: S,
    action_values: Map<u128, i64>,
    probabilities: Map<u128, i64>,
) -> bool {
    let actions = env.actions_model(state);
    &&& actions.len() > 0
    &&& forall|i: int|
        0 <= i < actions.len() ==> {
            &&& action_values.contains_key(
                pair_key_spec(state.key_spec(), (#[trigger] actions[i]).key_spec()),
            )
            &&& probabilities.contains_key(
                pair_key_spec(state.key_spec(), actions[i].key_spec()),
            )
        }
}

/// How many of the first `n` actions do not have the key `favourite`.
pub open spec fn others_before<A: Action>(actions: Seq<A>, favourite: u64, n: nat) -> int
    decreases n,
{
    if n == 0 {
        0
    } else {
        others_before(actions, favourite, (n - 1) as nat) + if actions[n - 1].key_spec()
            == favourite {
            0int
        } else {
            1int
        }
    }
}

/// The probability of an action under an epsilon-greedy policy over `count`
/// actions. Epsilon is shared out in whole millionths: every action gets
/// `epsilon / count` rounded down, and the millionths that are left go one
/// each to the favourite and then to the other actions in enumeration order,
/// `slot` being the action's place among the others. The favourite gets
/// `1 - epsilon` on top. So every share is within one millionth of
/// `epsilon / count`, and the shares add up to epsilon.
pub open spec fn soft_probability(epsilon: int, count: int, slot: int, favoured: bool) -> int {
    let share = epsilon / count;
    let left = epsilon % count;
    if favoured {
        ONE - epsilon + share + if left > 0 {
            1int
        } else {
            0int
        }
    } else {
        share + if slot + 1 < left {
            1int
        } else {
            0int
        }
    }
}

/// The policy after the first `n` of `actions` got their epsilon-greedy
/// probability in the state with key `state`.
pub open spec fn softened<A: Action>(
    state: u64,
    actions: Seq<A>,
    probabilities: Map<u128, i64>,
    favourite: u64,
    epsilon: int,
    n: nat,
) -> Map<u128, i64>
    decreases n,
{
    if n == 0 {
        probabilities
    } else {
        softened(state, actions, probabilities, favourite, epsilon, (n - 1) as nat).insert(
            pair_key_spec(state, actions[n - 1].key_spec()),
            soft_probability(
                epsilon,
                actions.len() as int,
                others_before(actions, favourite, (n - 1) as nat),
                actions[n - 1].key_spec() == favourite,
            ) as i64,
        )
    }
}

/// The policy made epsilon-greedy in `state`: the favourite of the state's
/// actions by `action_values` gets `1 - epsilon` and its share of epsilon,
/// every other action its share of epsilon. Other states keep their
/// probabilities.
pub open spec fn epsilon_greedy<S: State, A: Action, E: Enviorment<S, A>>(
    env: &E,
    state: S,
    action_values: Map<u128, i64>,
    probabilities: Map<u128, i64>,
    epsilon: int,
) -> Map<u128, i64> {
    let actions = env.actions_model(state);
    let favourite = actions[favourite_index(
        state.key_spec(),
        actions,
        action_values,
        actions.len(),
    )];
    softened(
        state.key_spec(),
        actions,
        probabilities,
        favourite.key_spec(),
        epsilon,
        actions.len(),
    )
}

/// No two of the actions share a key.
pub open spec fn distinct_actions<A: Action>(actions: Seq<A>) -> bool {
    forall|i: int, j: int|
        0 <= i < j < actions.len() ==> (#[trigger] actions[i]).key_spec() != (
        #[trigger] actions[j]).key_spec()
}

/// In the state with key `state` the policy is epsilon-greedy for the action
/// values: each action has its soft probability, none is negative and none
/// larger than the favourite's, and together they weigh exactly 1.0.
pub open spec fn is_soft_row<A: Action>(
    state: u64,
    actions: Seq<A>,
    action_values: Map<u128, i64>,
    probabilities: Map<u128, i64>,
    epsilon: int,
) -> bool {
    let count = actions.len();
    let favourite = favourite_index(state, actions, action_values, count);
    &&& 0 <= favourite < count
    &&& forall|i: int|
        0 <= i < count ==> {
            let probability = probabilities[pair_key_spec(
                state,
                (#[trigger] actions[i]).key_spec(),
            )];
            &&& probability == soft_probability(
                epsilon,
                count as int,
                if i < favourite {
                    i
                } else {
                    i - 1
                },
                i == favourite,
            )
            &&& 0 <= probability <= probabilities[pair_key_spec(
                state,
                actions[favourite].key_spec(),
            )]
        }
    &&& row_mass(state, actions, probabilities, count) == ONE
}

/// The favourite lies among the actions considered, and none of them has a
/// larger value.
pub proof fn lemma_favourite_in_range<A: Action>(
    state: u64,
    actions: Seq<A>,
    action_values: Map<u128, i64>,
    n: nat,
)
    requires
        n >= 1,
    ensures
        0 <= favourite_index(state, actions, action_values, n) < n,
        forall|i: int|
            0 <= i < n ==> action_values[pair_key_spec(state, (#[trigger] actions[i]).key_spec())]
                <= action_values[pair_key_spec(
                state,
                actions[favourite_index(state, actions, action_values, n)].key_spec(),
            )],
    decreases n,
{
    if n > 1 {
        lemma_favourite_in_range(state, actions, action_values, (n - 1) as nat);
    }
}

/// Among actions with distinct keys, the others before a position are all
/// actions before it but the favourite.
pub proof fn lemma_others_before<A: Action>(actions: Seq<A>, favourite: int, n: nat)
    requires
        n <= actions.len(),
        0 <= favourite < actions.len(),
        distinct_actions(actions),
    ensures
        others_before(actions, actions[favourite].key_spec(), n) == if n <= favourite {
            n as int
        } else {
            n - 1
        },
    decreases n,
{
    if n > 0 {
        lemma_others_before(actions, favourite, (n - 1) as nat);
        if n - 1 < favourite {
            assert(actions[n - 1].key_spec() != actions[favourite].key_spec());
        } else if n - 1 > favourite {
            assert(actions[favourite].key_spec() != actions[n - 1].key_spec());
        }
    }
}

/// Where no two actions share a key, each of the first `n` actions holds its
/// epsilon-greedy probability after the update.
pub proof fn lemma_softened_entries<A: Action>(
    state: u64,
    actions: Seq<A>,
    probabilities: Map<u128, i64>,
    favourite: u64,
    epsilon: int,
    n: nat,
)
    requires
        n <= actions.len(),
        distinct_actions(actions),
    ensures
        forall|i: int|
            0 <= i < n ==> softened(state, actions, probabilities, favourite, epsilon, n)[pair_key_spec(
                state,
                (#[trigger] actions[i]).key_spec(),
            )] == soft_probability(
                epsilon,
                actions.len() as int,
                others_before(actions, favourite, i as nat),
                actions[i].key_spec() == favourite,
            ) as i64,
    decreases n,
{
    if n > 0 {
        lemma_softened_entries(state, actions, probabilities, favourite, epsilon, (n - 1) as nat);
        assert forall|i: int| 0 <= i < n implies softened(
            state,
            actions,
            probabilities,
            favourite,
            epsilon,
            n,
        )[pair_key_spec(state, (#[trigger] actions[i]).key_spec())] == soft_probability(
            epsilon,
            actions.len() as int,
            others_before(actions, favourite, i as nat),
            actions[i].key_spec() == favourite,
        ) as i64 by {
            if i < n - 1 {
                assert(actions[i].key_spec() != actions[n - 1].key_spec());
                if pair_key_spec(state, actions[i].key_spec()) == pair_key_spec(
                    state,
                    actions[n - 1].key_spec(),
                ) {
                    lemma_pair_key_injective(
                        state,
                        actions[i].key_spec(),
                        state,
                        actions[n - 1].key_spec(),
                    );
                }
            }
        }
    }
}

/// The millionths of epsilon that are left over after every action got its
/// rounded share, as far as they went to the first `slots` of the others.
pub open spec fn handed_out(left: int, slots: int) -> int {
    if left <= 1 {
        0
    } else if slots < left - 1 {
        slots
    } else {
        left - 1
    }
}

/// The mass of the first `m` entries of a soft row: the rounded share for
/// each, the millionths handed out so far, and what the favourite has on
/// top once it is among them.
proof fn lemma_soft_row_mass<A: Action>(
    state: u64,
    actions: Seq<A>,
    probabilities: Map<u128, i64>,
    favourite: int,
    epsilon: int,
    m: nat,
)
    requires
        m <= actions.len(),
        0 <= favourite < actions.len(),
        0 <= epsilon <= ONE,
        forall|i: int|
            0 <= i < actions.len() ==> probabilities[pair_key_spec(
                state,
                (#[trigger] actions[i]).key_spec(),
            )] == soft_probability(
                epsilon,
                actions.len() as int,
                if i < favourite {
                    i
                } else {
                    i - 1
                },
                i == favourite,
            ),
    ensures
        row_mass(state, actions, probabilities, m) == m * (epsilon / (actions.len() as int))
            + if favourite < m {
            handed_out(epsilon % (actions.len() as int), m - 1) + ONE - epsilon + if epsilon % (
            actions.len() as int) > 0 {
                1int
            } else {
                0int
            }
        } else {
            handed_out(epsilon % (actions.len() as int), m as int)
        },
    decreases m,
{
    let share = epsilon / (actions.len() as int);
    if m == 0 {
        assert(0 * share == 0) by (nonlinear_arith);
    } else {
        lemma_soft_row_mass(state, actions, probabilities, favourite, epsilon, (m - 1) as nat);
        assert(m * share == (m - 1) * share + share) by (nonlinear_arith);
        assert(probabilities[pair_key_spec(state, actions[m - 1].key_spec())] == soft_probability(
            epsilon,
            actions.len() as int,
            if m - 1 < favourite {
                m - 1
            } else {
                m - 2
            },
            m - 1 == favourite,
        ));
        assert(row_mass(state, actions, probabilities, m) == row_mass(
            state,
            actions,
            probabilities,
            (m - 1) as nat,
        ) + probabilities[pair_key_spec(state, actions[m - 1].key_spec())]);
    }
}

/// An epsilon-greedy update leaves a soft policy in its state: where the
/// exploration rate is at most 1.0 and no two of the state's actions share a
/// key, the probabilities of its actions add up to exactly 1.0, none is
/// negative, and none is larger than that of the favourite.
pub proof fn lemma_epsilon_greedy_is_soft<S: State, A: Action, E: Enviorment<S, A>>(
    env: &E,
    state: S,
    action_values: Map<u128, i64>,
    probabilities: Map<u128, i64>,
    epsilon: int,
)
    requires
        0 <= epsilon <= ONE,
        env.actions_model(state).len() > 0,
        distinct_actions(env.actions_model(state)),
    ensures
        is_soft_row(
            state.key_spec(),
            env.actions_model(state),
            action_values,
            epsilon_greedy(env, state, action_values, probabilities, epsilon),
            epsilon,
        ),
{
    let actions = env.actions_model(state);
    let n = actions.len();
    let f = favourite_index(state.key_spec(), actions, action_values, n);
    lemma_favourite_in_range(state.key_spec(), actions, action_values, n);
    let favourite = actions[f].key_spec();
    let after = epsilon_greedy(env, state, action_values, probabilities, epsilon);
    lemma_softened_entries(state.key_spec(), actions, probabilities, favourite, epsilon, n);
    lemma_quotient_bounded(epsilon, n as int);
    vstd::arithmetic::div_mod::lemma_fundamental_div_mod(epsilon, n as int);
    vstd::arithmetic::div_mod::lemma_mod_bound(epsilon, n as int);
    assert forall|i: int| 0 <= i < n implies after[pair_key_spec(
        state.key_spec(),
        (#[trigger] actions[i]).key_spec(),
    )] == soft_probability(
        epsilon,
        n as int,
        if i < f {
            i
        } else {
            i - 1
        },
        i == f,
    ) by {
        lemma_others_before(actions, f, i as nat);
        if i < f {
            assert(actions[i].key_spec() != actions[f].key_spec());
        } else if i > f {
            assert(actions[f].key_spec() != actions[i].key_spec());
        }
    }
    lemma_soft_row_mass(state.key_spec(), actions, after, f, epsilon, n);
    assert(n * (epsilon / (n as int)) == (n as int) * (epsilon / (n as int)));
}

/// Makes the policy epsilon-greedy in `state` for the given action values.
/// It fails, and leaves the policy as it is, if the state offers no action
/// or one of its actions has no value or no probability.
pub fn update_policy<S, A, E>(
    env: &E,
    map: &mut HashMap<u128, i64>,
    action_values: &HashMap<u128, i64>,
    state: &S,
    epsilon: i64,
) -> (outcome: Result<(), SolveError>) where S: State, A: Action, E: Enviorment<S, A>
    requires
        env.well_formed(),
        0 <= epsilon <= ONE,
    ensures
        outcome is Ok <==> soft_update_defined(env, *state, action_values@, old(map)@),
        outcome matches Err(reason) ==> reason == SolveError::MalformedInput && final(map)@ == old(
            map,
        )@,
        outcome is Ok ==> final(map)@ == epsilon_greedy(
            env,
            *state,
            action_values@,
            old(map)@,
            epsilon as int,
        ),
        final(map)@.dom() == old(map)@.dom(),
        outcome is Ok ==> distinct_actions(env.actions_model(*state)) ==> is_soft_row(
            state.key_spec(),
            env.actions_model(*state),
            action_values@,
            final(map)@,
            epsilon as int,
        ),
{
    proof {
        if env.actions_model(*state).len() > 0 && distinct_actions(env.actions_model(*state)) {
            lemma_epsilon_greedy_is_soft(env, *state, action_values@, old(map)@, epsilon as int);
        }
    }
    let actions = env.posible_actions(state);
    let state_key: u64 = state.key();
    if actions.len() == 0 {
        return Err(SolveError::MalformedInput);
    }
    let mut best: usize = 0;
    let mut best_value: i64 = 0;
    let mut i: usize = 0;
    while i < actions.len()
        invariant
            0 <= i <= actions.len(),
            actions.len() > 0,
            actions@ == env.actions_model(*state),
            state_key == state.key_spec(),
            map@ == old(map)@,
            i == 0 ==> best == 0,
            i > 0 ==> 0 <= best < i,
            i > 0 ==> best_value == action_values@[pair_key_spec(
                state_key,
                actions@[best as int].key_spec(),
            )],
            best == favourite_index(state_key, actions@, action_values@, i as nat),
            forall|j: int|
                0 <= j < i ==> {
                    &&& action_values@.contains_key(
                        pair_key_spec(state_key, (#[trigger] actions@[j]).key_spec()),
                    )
                    &&& map@.contains_key(pair_key_spec(state_key, actions@[j].key_spec()))
                },
        decreases actions.len() - i,
    {
        let key: u128 = pair_key(state_key, actions[i].key());
        if !map.contains_key(&key) {
            return Err(SolveError::MalformedInput);
        }
        match action_values.get(&key) {
            None => {
                return Err(SolveError::MalformedInput);
            },
            Some(value) => {
                if i == 0 || *value > best_value {
                    best = i;
                    best_value = *value;
                }
            },
        }
        i += 1;
    }
    let favourite: u64 = actions[best].key();
    proof {
        lemma_softened_domain(
            state_key,
            actions@,
            map@,
            favourite,
            epsilon as int,
            actions@.len(),
        );
    }
    soften(map, state_key, &actions, favourite, epsilon);
    Ok(())
}

/// Gives each of `actions` its epsilon-greedy probability in the state with
/// key `state`: its share of epsilon, and `1 - epsilon` on top for the
/// actions with the key `favourite`.
pub fn soften<A: Action>(
    map: &mut HashMap<u128, i64>,
    state: u64,
    actions: &Vec<A>,
    favourite: u64,
    epsilon: i64,
)
    requires
        0 <= epsilon <= ONE,
    ensures
        final(map)@ == softened(
            state,
            actions@,
            old(map)@,
            favourite,
            epsilon as int,
            actions@.len(),
        ),
{
    if actions.len() == 0 {
        return ;
    }
    let count: u64 = actions.len() as u64;
    let share: i64 = (epsilon as u64 / count) as i64;
    let left: u64 = epsilon as u64 % count;
    let mut slot: u64 = 0;
    let mut i: usize = 0;
    while i < actions.len()
        invariant
            0 <= i <= actions.len(),
            actions.len() > 0,
            count == actions.len(),
            0 <= epsilon <= ONE,
            0 <= share <= epsilon,
            share == epsilon as int / actions.len() as int,
            left == epsilon as int % actions.len() as int,
            slot == others_before(actions@, favourite, i as nat),
            slot <= i,
            map@ == softened(state, actions@, old(map)@, favourite, epsilon as int, i as nat),
        decreases actions.len() - i,
    {
        let key: u128 = pair_key(state, actions[i].key());
        let probability: i64 = if actions[i].key() == favourite {
            if left > 0 {
                ONE - epsilon + share + 1
            } else {
                ONE - epsilon + share
            }
        } else {
            let extra: i64 = if slot + 1 < left {
                1
            } else {
                0
            };
            slot += 1;
            share + extra
        };
        map.insert(key, probability);
        i += 1;
    }
}

/// Softening a state whose actions all have a probability changes no key.
pub proof fn lemma_softened_domain<A: Action>(
    state: u64,
    actions: Seq<A>,
    probabilities: Map<u128, i64>,
    favourite: u64,
    epsilon: int,
    n: nat,
)
    requires
        n <= actions.len(),
        forall|j: int|
            0 <= j < actions.len() ==> probabilities.contains_key(
                pair_key_spec(state, (#[trigger] actions[j]).key_spec()),
            ),
    ensures
        softened(state, actions, probabilities, favourite, epsilon, n).dom()
            == probabilities.dom(),
    decreases n,
{
    if n > 0 {
        lemma_softened_domain(state, actions, probabilities, favourite, epsilon, (n - 1) as nat);
        assert(probabilities.contains_key(pair_key_spec(state, actions[n - 1].key_spec())));
        assert(softened(state, actions, probabilities, favourite, epsilon, n).dom()
            =~= probabilities.dom());
    }
}

/// What the learner holds: the policy's probabilities, the action values
/// and the returns observed so far, each by the key of a state-action pair.
pub struct Learning {
    pub probabilities: Map<u128, i64>,
    pub action_values: Map<u128, i64>,
    pub history: Map<u128, Seq<i64>>,
}

/// The returns observed so far, as sequences.
pub open spec fn history_model(history: Map<u128, Vec<i64>>) -> Map<u128, Seq<i64>> {
    Map::new(|key: u128| history.contains_key(key), |key: u128| history[key]@)
}

/// The first `n` returns, added up.
pub open spec fn total(history: Seq<i64>, n: nat) -> int
    decreases n,
{
    if n == 0 {
        0
    } else {
        total(history, (n - 1) as nat) + history[n - 1]
    }
}

/// The mean of the returns, rounded down.
pub open spec fn mean(history: Seq<i64>) -> i64 {
    saturated(total(history, history.len()) / (history.len() as int))
}

/// A sum of `n` values is at most `n` times the largest magnitude.
proof fn lemma_total_bounded(history: Seq<i64>, n: nat)
    requires
        n <= history.len(),
    ensures
        -(n * 0x8000_0000_0000_0000) <= total(history, n) <= n * 0x8000_0000_0000_0000,
    decreases n,
{
    if n > 0 {
        lemma_total_bounded(history, (n - 1) as nat);
    }
}

/// The mean of the returns.
pub fn mean_of(history: &Vec<i64>) -> (m: i64)
    requires
        history.len() > 0,
    ensures
        m == mean(history@),
{
    let mut sum: i128 = 0;
    let mut i: usize = 0;
    while i < history.len()
        invariant
            0 <= i <= history.len(),
            sum == total(history@, i as nat),
        decreases history.len() - i,
    {
        proof {
            lemma_total_bounded(history@, i as nat);
        }
        sum = sum + history[i] as i128;
        i += 1;
    }
    saturate(floor_div(sum, history.len() as i128))
}

/// The learner can take in a visit of the pair: the pair has a value, and
/// the policy can be made epsilon-greedy in the state.
pub open spec fn visit_defined<S: State, A: Action, E: Enviorment<S, A>>(
    env: &E,
    learning: Learning,
    state: S,
    action: A,
) -> bool {
    &&& learning.action_values.contains_key(pair_key_spec(state.key_spec(), action.key_spec()))
    &&& soft_update_defined(env, state, learning.action_values, learning.probabilities)
}

/// What the learner holds after a visit of the pair that was followed by
/// the return `g`: the return is recorded, the pair's value is the mean of
/// its returns, and the policy is epsilon-greedy in the state.
pub open spec fn visited<S: State, A: Action, E: Enviorment<S, A>>(
    env: &E,
    learning: Learning,
    state: S,
    action: A,
    g: i64,
    epsilon: i64,
) -> Learning {
    let key = pair_key_spec(state.key_spec(), action.key_spec());
    let seen = if learning.history.contains_key(key) {
        learning.history[key]
    } else {
        Seq::empty()
    };
    let observed = seen.push(g);
    let action_values = learning.action_values.insert(key, mean(observed));
    Learning {
        probabilities: epsilon_greedy(
            env,
            state,
            action_values,
            learning.probabilities,
            epsilon as int,
        ),
        action_values,
        history: learning.history.insert(key, observed),
    }
}

/// Whether every action that the state offers has a value and a
/// probability, and there is at least one.
pub fn can_update<S: State, A: Action, E: Enviorment<S, A>>(
    env: &E,
    map: &HashMap<u128, i64>,
    action_values: &HashMap<u128, i64>,
    state: &S,
) -> (possible: bool)
    requires
        env.well_formed(),
    ensures
        possible == soft_update_defined(env, *state, action_values@, map@),
{
    let actions = env.posible_actions(state);
    let state_key: u64 = state.key();
    if actions.len() == 0 {
        return false;
    }
    let mut i: usize = 0;
    while i < actions.len()
        invariant
            0 <= i <= actions.len(),
            actions@ == env.actions_model(*state),
            state_key == state.key_spec(),
            forall|j: int|
                0 <= j < i ==> {
                    &&& action_values@.contains_key(
                        pair_key_spec(state_key, (#[trigger] actions@[j]).key_spec()),
                    )
                    &&& map@.contains_key(pair_key_spec(state_key, actions@[j].key_spec()))
                },
        decreases actions.len() - i,
    {
        let key: u128 = pair_key(state_key, actions[i].key());
        if !map.contains_key(&key) || !action_values.contains_key(&key) {
            return false;
        }
        i += 1;
    }
    true
}

/// Takes in one visit of a pair that was followed by the return `g`. It
/// fails, and changes nothing, if the pair has no value or the policy cannot
/// be made epsilon-greedy in the state.
pub fn record_visit<S: State, A: Action, E: Enviorment<S, A>>(
    env: &E,
    map: &mut HashMap<u128, i64>,
    action_values: &mut HashMap<u128, i64>,
    history: &mut HashMap<u128, Vec<i64>>,
    state: &S,
    action: &A,
    g: i64,
    epsilon: i64,
) -> (outcome: Result<(), SolveError>)
    requires
        env.well_formed(),
        0 <= epsilon <= ONE,
    ensures
        outcome is Ok <==> visit_defined(
            env,
            Learning {
                probabilities: old(map)@,
                action_values: old(action_values)@,
                history: history_model(old(history)@),
            },
            *state,
            *action,
        ),
        outcome matches Err(reason) ==> {
            &&& reason == SolveError::MalformedInput
            &&& final(map)@ == old(map)@
            &&& final(action_values)@ == old(action_values)@
            &&& final(history)@ == old(history)@
        },
        outcome is Ok ==> (Learning {
            probabilities: final(map)@,
            action_values: final(action_values)@,
            history: history_model(final(history)@),
        }) == visited(
            env,
            Learning {
                probabilities: old(map)@,
                action_values: old(action_values)@,
                history: history_model(old(history)@),
            },
            *state,
            *action,
            g,
            epsilon,
        ),
        final(map)@.dom() == old(map)@.dom(),
        final(action_values)@.dom() == old(action_values)@.dom(),
{
    let key: u128 = pair_key(state.key(), action.key());
    if !action_values.contains_key(&key) || !can_update(env, map, action_values, state) {
        return Err(SolveError::MalformedInput);
    }
    let ghost before = history_model(history@);
    let mut observed: Vec<i64> = match history.remove(&key) {
        Some(seen) => seen,
        None => Vec::new(),
    };
    observed.push(g);
    let value: i64 = mean_of(&observed);
    let ghost recorded = observed@;
    history.insert(key, observed);
    assert(history_model(history@) =~= before.insert(key, recorded));
    action_values.insert(key, value);
    assert(action_values@.dom() =~= old(action_values)@.dom());
    let updated = update_policy(env, map, action_values, state, epsilon);
    assert(updated is Ok);
    Ok(())
}

/// How far the replay of a trajectory has come: what the learner holds and
/// the return from the step last replayed on.
pub struct Replay {
    pub learning: Learning,
    pub g: i64,
}

/// The key of the pair of a step.
pub open spec fn step_key<S: State, A: Action>(step: (S, A, i32)) -> u128 {
    pair_key_spec(step.0.key_spec(), step.1.key_spec())
}

/// Whether the pair with the key `key` is the pair of one of the first `n`
/// steps.
pub open spec fn occurs<S: State, A: Action>(
    trajectory: Seq<(S, A, i32)>,
    n: int,
    key: u128,
) -> bool {
    exists|j: int| 0 <= j < n && step_key(#[trigger] trajectory[j]) == key
}

/// Whether the step at `index` is the first visit of its pair in the
/// episode: the pair is the pair of no earlier step.
pub open spec fn is_first_visit<S: State, A: Action>(
    trajectory: Seq<(S, A, i32)>,
    index: int,
) -> bool {
    !occurs(trajectory, index, step_key(trajectory[index]))
}

/// The replay of the last `n` steps of a trajectory, from the last step
/// backwards: the return is carried back through every step, and at the
/// first visit of each pair the learner takes in the return that followed
/// it.
pub open spec fn replayed<S: State, A: Action, E: Enviorment<S, A>>(
    env: &E,
    trajectory: Seq<(S, A, i32)>,
    gamma: i64,
    epsilon: i64,
    start: Learning,
    n: nat,
) -> Result<Replay, SolveError>
    decreases n,
{
    if n == 0 {
        Ok(Replay { learning: start, g: 0 })
    } else {
        match replayed(env, trajectory, gamma, epsilon, start, (n - 1) as nat) {
            Err(e) => Err(e),
            Ok(before) => {
                let index = trajectory.len() - n;
                let step = trajectory[index];
                let g = discounted(gamma, before.g, step.2);
                if !is_first_visit(trajectory, index) {
                    Ok(Replay { learning: before.learning, g })
                } else if !visit_defined(env, before.learning, step.0, step.1) {
                    Err(SolveError::MalformedInput)
                } else {
                    Ok(
                        Replay {
                            learning: visited(env, before.learning, step.0, step.1, g, epsilon),
                            g,
                        },
                    )
                }
            },
        }
    }
}

/// Marks the steps that are the first visit of their pair.
pub fn first_visits<S: State, A: Action>(trajectory: &Vec<(S, A, i32)>) -> (first: Vec<bool>)
    ensures
        first@.len() == trajectory@.len(),
        forall|i: int|
            0 <= i < trajectory@.len() ==> #[trigger] first@[i] == is_first_visit(trajectory@, i),
{
    let mut seen: HashSet<u128> = HashSet::new();
    let mut first: Vec<bool> = Vec::new();
    let mut i: usize = 0;
    while i < trajectory.len()
        invariant
            0 <= i <= trajectory.len(),
            first@.len() == i,
            forall|j: int| 0 <= j < i ==> #[trigger] first@[j] == is_first_visit(trajectory@, j),
            forall|key: u128| seen@.contains(key) == #[trigger] occurs(trajectory@, i as int, key),
        decreases trajectory.len() - i,
    {
        let key: u128 = pair_key(trajectory[i].0.key(), trajectory[i].1.key());
        let fresh: bool = !seen.contains(&key);
        let ghost before = seen@;
        first.push(fresh);
        seen.insert(key);
        proof {
            assert(fresh == is_first_visit(trajectory@, i as int));
            assert forall|k: u128| seen@.contains(k) == #[trigger] occurs(
                trajectory@,
                i + 1,
                k,
            ) by {
                if occurs(trajectory@, i + 1, k) {
                    let j = choose|j: int|
                        0 <= j < i + 1 && step_key(#[trigger] trajectory@[j]) == k;
                    if j < i {
                        assert(occurs(trajectory@, i as int, k));
                    }
                }
                if before.contains(k) {
                    assert(occurs(trajectory@, i as int, k));
                    let j = choose|j: int| 0 <= j < i && step_key(#[trigger] trajectory@[j]) == k;
                    assert(step_key(trajectory@[j]) == k);
                }
                if k == key {
                    assert(step_key(trajectory@[i as int]) == k);
                }
            }
        }
        i += 1;
    }
    first
}

/// Replays one trajectory backwards and returns the return of the whole
/// episode. At the first visit of each pair it records the return that
/// followed. It fails if the learner cannot take in one of the visits.
pub fn learn_from_episode<S: State, A: Action, E: Enviorment<S, A>>(
    env: &E,
    map: &mut HashMap<u128, i64>,
    action_values: &mut HashMap<u128, i64>,
    history: &mut HashMap<u128, Vec<i64>>,
    trajectory: &Vec<(S, A, i32)>,
    gamma: i64,
    epsilon: i64,
) -> (outcome: Result<i64, SolveError>)
    requires
        env.well_formed(),
        0 <= epsilon <= ONE,
    ensures
        final(map)@.dom() == old(map)@.dom(),
        final(action_values)@.dom() == old(action_values)@.dom(),
        outcome matches Err(reason) ==> reason == SolveError::MalformedInput,
        match replayed(
            env,
            trajectory@,
            gamma,
            epsilon,
            Learning {
                probabilities: old(map)@,
                action_values: old(action_values)@,
                history: history_model(old(history)@),
            },
            trajectory@.len(),
        ) {
            Ok(replay) => {
                &&& outcome matches Ok(g) && g == replay.g
                &&& replay.learning == (Learning {
                    probabilities: final(map)@,
                    action_values: final(action_values)@,
                    history: history_model(final(history)@),
                })
            },
            Err(e) => outcome matches Err(reason) && reason == e,
        },
{
    let ghost start = Learning {
        probabilities: map@,
        action_values: action_values@,
        history: history_model(history@),
    };
    let first = first_visits(trajectory);
    let mut g: i64 = 0;
    let mut i: usize = trajectory.len();
    while i > 0
        invariant
            0 <= i <= trajectory.len(),
            env.well_formed(),
            0 <= epsilon <= ONE,
            first@.len() == trajectory@.len(),
            forall|j: int|
                0 <= j < trajectory@.len() ==> #[trigger] first@[j] == is_first_visit(
                    trajectory@,
                    j,
                ),
            start == (Learning {
                probabilities: old(map)@,
                action_values: old(action_values)@,
                history: history_model(old(history)@),
            }),
            map@.dom() == old(map)@.dom(),
            action_values@.dom() == old(action_values)@.dom(),
            replayed(env, trajectory@, gamma, epsilon, start, (trajectory.len() - i) as nat) == Ok::<
                Replay,
                SolveError,
            >(
                Replay {
                    learning: Learning {
                        probabilities: map@,
                        action_values: action_values@,
                        history: history_model(history@),
                    },
                    g,
                },
            ),
        decreases i,
    {
        i -= 1;
        let state: S = trajectory[i].0;
        let action: A = trajectory[i].1;
        let reward: i32 = trajectory[i].2;
        g = discount(gamma, g, reward);
        if first[i] {
            match record_visit(env, map, action_values, history, &state, &action, g, epsilon) {
                Ok(()) => {},
                Err(e) => {
                    proof {
                        lemma_replay_fails(
                            env,
                            trajectory@,
                            gamma,
                            epsilon,
                            start,
                            (trajectory.len() - i) as nat,
                            trajectory@.len(),
                        );
                    }
                    return Err(e);
                },
            }
        }
    }
    Ok(g)
}

/// A replay that failed stays failed.
pub proof fn lemma_replay_fails<S: State, A: Action, E: Enviorment<S, A>>(
    env: &E,
    trajectory: Seq<(S, A, i32)>,
    gamma: i64,
    epsilon: i64,
    start: Learning,
    n: nat,
    m: nat,
)
    requires
        n <= m,
        replayed(env, trajectory, gamma, epsilon, start, n) is Err,
    ensures
        replayed(env, trajectory, gamma, epsilon, start, m) == replayed(
            env,
            trajectory,
            gamma,
            epsilon,
            start,
            n,
        ),
    decreases m,
{
    if n < m {
        lemma_replay_fails(env, trajectory, gamma, epsilon, start, n, (m - 1) as nat);
    }
}

/// What training has come to: what the learner holds, and the return of
/// each episode so far.
pub struct Training {
    pub learning: Learning,
    pub losses: Seq<i64>,
}

/// The outcome of replaying the first `n` trajectories in turn, each at the
/// exploration rate of its episode.
pub open spec fn trained<S: State, A: Action, E: Enviorment<S, A>>(
    env: &E,
    trajectories: Seq<Seq<(S, A, i32)>>,
    gamma: i64,
    epsilon: i64,
    start: Learning,
    n: nat,
) -> Result<Training, SolveError>
    decreases n,
{
    if n == 0 {
        Ok(Training { learning: start, losses: Seq::empty() })
    } else {
        match trained(env, trajectories, gamma, epsilon, start, (n - 1) as nat) {
            Err(e) => Err(e),
            Ok(before) => match replayed(
                env,
                trajectories[n - 1],
                gamma,
                annealed_epsilon(epsilon, (n - 1) as nat),
                before.learning,
                trajectories[n - 1].len(),
            ) {
                Err(e) => Err(e),
                Ok(replay) => Ok(
                    Training {
                        learning: replay.learning,
                        losses: before.losses.push(replay.g),
                    },
                ),
            },
        }
    }
}

/// The trajectory of the episode with index `i` is an episode: it leads
/// in at most `max_steps` steps from one of the first states to a terminal
/// state, under the policy that the learner held when the episode began.
pub open spec fn episode_sound<S: State, A: Action, E: Enviorment<S, A>>(
    env: &E,
    first_states: Seq<S>,
    trajectories: Seq<Seq<(S, A, i32)>>,
    gamma: i64,
    epsilon: i64,
    start: Learning,
    max_steps: nat,
    i: int,
) -> bool {
    &&& trained(env, trajectories, gamma, epsilon, start, i as nat) is Ok
    &&& trajectories[i].len() <= max_steps
    &&& exists|first: S, end: S|
        {
            &&& first_states.contains(first)
            &&& #[trigger] is_walk(
                env,
                PolicyModel::Stochastic(
                    trained(
                        env,
                        trajectories,
                        gamma,
                        epsilon,
                        start,
                        i as nat,
                    )->Ok_0.learning.probabilities,
                ),
                first,
                trajectories[i],
                end,
            )
            &&& env.terminal_model(end)
        }
}

/// The policy, the action values and the losses are what training on some
/// episodes leaves: there are as many trajectories as episodes, each is an
/// episode under the policy of its time, and replaying them in turn gives
/// these tables and losses.
pub open spec fn is_control_run<S: State, A: Action, E: Enviorment<S, A>>(
    env: &E,
    first_states: Seq<S>,
    trajectories: Seq<Seq<(S, A, i32)>>,
    gamma: i64,
    epsilon: i64,
    start: Learning,
    episodes: nat,
    max_steps: nat,
    probabilities: Map<u128, i64>,
    action_values: Map<u128, i64>,
    losses: Seq<i64>,
) -> bool {
    &&& trajectories.len() == episodes
    &&& forall|i: int|
        0 <= i < episodes ==> #[trigger] episode_sound(
            env,
            first_states,
            trajectories,
            gamma,
            epsilon,
            start,
            max_steps,
            i,
        )
    &&& trained(env, trajectories, gamma, epsilon, start, episodes) matches Ok(training) && {
        &&& training.learning.probabilities == probabilities
        &&& training.learning.action_values == action_values
        &&& training.losses == losses
    }
}

/// Why the next episode gave no update to a learner that holds `learning`:
/// there is no first state to start from; or a walk from a first state under
/// the learner's policy ends, after at most `max_steps` steps, where it
/// cannot go on, because the steps are used up or the policy does not say
/// what to do; or a walk reached a terminal state and the learner cannot
/// take in one of its visits.
pub open spec fn episode_failed<S: State, A: Action, E: Enviorment<S, A>>(
    env: &E,
    first_states: Seq<S>,
    learning: Learning,
    gamma: i64,
    rate: i64,
    max_steps: nat,
    reason: SolveError,
) -> bool {
    ||| first_states.len() == 0 && reason == SolveError::MalformedInput
    ||| exists|first: S, steps: Seq<(S, A, i32)>, end: S|
        {
            &&& first_states.contains(first)
            &&& #[trigger] is_walk(
                env,
                PolicyModel::Stochastic(learning.probabilities),
                first,
                steps,
                end,
            )
            &&& steps.len() <= max_steps
            &&& if env.terminal_model(end) {
                &&& reason == SolveError::MalformedInput
                &&& replayed(env, steps, gamma, rate, learning, steps.len()) is Err
            } else {
                ||| reason == SolveError::StepLimitReached && steps.len() == max_steps
                ||| reason == SolveError::MalformedInput && !can_select(
                    env,
                    PolicyModel::<A>::Stochastic(learning.probabilities),
                    end,
                )
            }
        }
}

/// Training stopped for `reason` after the episodes of `trajectories`, fewer
/// than were asked for: each of them is an episode under the policy of its
/// time, replaying them in turn succeeds, and the episode after them failed.
pub open spec fn is_failed_run<S: State, A: Action, E: Enviorment<S, A>>(
    env: &E,
    first_states: Seq<S>,
    trajectories: Seq<Seq<(S, A, i32)>>,
    gamma: i64,
    epsilon: i64,
    start: Learning,
    episodes: nat,
    max_steps: nat,
    reason: SolveError,
) -> bool {
    let done = trajectories.len();
    &&& done < episodes
    &&& forall|i: int|
        0 <= i < done ==> #[trigger] episode_sound(
            env,
            first_states,
            trajectories,
            gamma,
            epsilon,
            start,
            max_steps,
            i,
        )
    &&& trained(env, trajectories, gamma, epsilon, start, done) matches Ok(training)
        && episode_failed(
        env,
        first_states,
        training.learning,
        gamma,
        annealed_epsilon(epsilon, done),
        max_steps,
        reason,
    )
}

/// Training records one loss for each episode.
pub proof fn lemma_trained_losses<S: State, A: Action, E: Enviorment<S, A>>(
    env: &E,
    trajectories: Seq<Seq<(S, A, i32)>>,
    gamma: i64,
    epsilon: i64,
    start: Learning,
    n: nat,
)
    ensures
        trained(env, trajectories, gamma, epsilon, start, n) matches Ok(training)
            ==> training.losses.len() == n,
    decreases n,
{
    if n > 0 {
        lemma_trained_losses(env, trajectories, gamma, epsilon, start, (n - 1) as nat);
    }
}

/// Training on the first `n` trajectories does not depend on later ones.
pub proof fn lemma_trained_prefix<S: State, A: Action, E: Enviorment<S, A>>(
    env: &E,
    first: Seq<Seq<(S, A, i32)>>,
    second: Seq<Seq<(S, A, i32)>>,
    gamma: i64,
    epsilon: i64,
    start: Learning,
    n: nat,
)
    requires
        n <= first.len(),
        n <= second.len(),
        forall|j: int| 0 <= j < n ==> first[j] == second[j],
    ensures
        trained(env, first, gamma, epsilon, start, n) == trained(
            env,
            second,
            gamma,
            epsilon,
            start,
            n,
        ),
    decreases n,
{
    if n > 0 {
        lemma_trained_prefix(env, first, second, gamma, epsilon, start, (n - 1) as nat);
    }
}

/// The exploration rate of every episode lies between the minimum and 1.0,
/// where the first rate is at most 1.0.
pub proof fn lemma_annealed_epsilon_bounded(epsilon: i64, episode: nat)
    requires
        0 <= epsilon <= ONE,
    ensures
        MINIMUM_EPSILON <= annealed_epsilon(epsilon, episode) <= ONE,
{
    lemma_decay_power_bounded(episode);
    lemma_product_bounded(
        epsilon as int,
        decay_power(episode) as int,
        ONE as int,
        ONE_CUBED as int,
    );
}

/// The policy holds a whole distribution for the state with key `state`:
/// a probability for each of `actions`, none negative, that add up to
/// exactly 1.0.
pub open spec fn is_whole_row<A: Action>(
    state: u64,
    actions: Seq<A>,
    probabilities: Map<u128, i64>,
) -> bool {
    &&& forall|i: int|
        0 <= i < actions.len() ==> {
            &&& probabilities.contains_key(
                pair_key_spec(state, (#[trigger] actions[i]).key_spec()),
            )
            &&& probabilities[pair_key_spec(state, actions[i].key_spec())] >= 0
        }
    &&& row_mass(state, actions, probabilities, actions.len()) == ONE
}

/// No state shares its key with `state`.
pub open spec fn key_identifies<S: State>(state: S) -> bool {
    forall|other: S| #[trigger] other.key_spec() == state.key_spec() ==> other == state
}

/// No state offers two actions with the same key.
pub open spec fn actions_are_distinct<S: State, A: Action, E: Enviorment<S, A>>(env: &E) -> bool {
    forall|state: S| distinct_actions(#[trigger] env.actions_model(state))
}

/// The key `key` is not the key of a pair of `state` with one of its
/// legal actions.
pub open spec fn row_avoids<S: State, A: Action, E: Enviorment<S, A>>(
    env: &E,
    state: S,
    key: u128,
) -> bool {
    forall|j: int|
        0 <= j < env.actions_model(state).len() ==> pair_key_spec(
            state.key_spec(),
            (#[trigger] env.actions_model(state)[j]).key_spec(),
        ) != key
}

/// Softening changes nothing at a key that is not the key of one of the
/// pairs softened.
pub proof fn lemma_softened_elsewhere<A: Action>(
    state: u64,
    actions: Seq<A>,
    probabilities: Map<u128, i64>,
    favourite: u64,
    epsilon: int,
    n: nat,
    key: u128,
)
    requires
        n <= actions.len(),
        forall|j: int|
            0 <= j < n ==> pair_key_spec(state, (#[trigger] actions[j]).key_spec()) != key,
    ensures
        softened(state, actions, probabilities, favourite, epsilon, n)[key] == probabilities[key],
        softened(state, actions, probabilities, favourite, epsilon, n).contains_key(key)
            == probabilities.contains_key(key),
    decreases n,
{
    if n > 0 {
        lemma_softened_elsewhere(
            state,
            actions,
            probabilities,
            favourite,
            epsilon,
            (n - 1) as nat,
            key,
        );
        assert(pair_key_spec(state, actions[n - 1].key_spec()) != key);
    }
}

/// The mass of a row depends only on the probabilities of its pairs.
pub proof fn lemma_row_mass_same<A: Action>(
    state: u64,
    actions: Seq<A>,
    first: Map<u128, i64>,
    second: Map<u128, i64>,
    n: nat,
)
    requires
        n <= actions.len(),
        forall|j: int|
            0 <= j < n ==> first[pair_key_spec(state, (#[trigger] actions[j]).key_spec())]
                == second[pair_key_spec(state, actions[j].key_spec())],
    ensures
        row_mass(state, actions, first, n) == row_mass(state, actions, second, n),
    decreases n,
{
    if n > 0 {
        lemma_row_mass_same(state, actions, first, second, (n - 1) as nat);
        assert(first[pair_key_spec(state, actions[n - 1].key_spec())] == second[pair_key_spec(
            state,
            actions[n - 1].key_spec(),
        )]);
    }
}

/// A visit leaves whole rows whole: the row of the state visited becomes a
/// soft row, which is whole, and the row of a state with another key is not
/// touched.
pub proof fn lemma_visit_keeps_row<S: State, A: Action, E: Enviorment<S, A>>(
    env: &E,
    learning: Learning,
    state: S,
    action: A,
    g: i64,
    epsilon: i64,
    other: S,
)
    requires
        0 <= epsilon <= ONE,
        visit_defined(env, learning, state, action),
        distinct_actions(env.actions_model(state)),
        other.key_spec() == state.key_spec() ==> other == state,
        other == state || is_whole_row(
            other.key_spec(),
            env.actions_model(other),
            learning.probabilities,
        ),
    ensures
        is_whole_row(
            other.key_spec(),
            env.actions_model(other),
            visited(env, learning, state, action, g, epsilon).probabilities,
        ),
{
    let after = visited(env, learning, state, action, g, epsilon);
    let values = after.action_values;
    let actions = env.actions_model(state);
    let favourite = actions[favourite_index(state.key_spec(), actions, values, actions.len())];
    if other == state {
        lemma_epsilon_greedy_is_soft(
            env,
            state,
            values,
            learning.probabilities,
            epsilon as int,
        );
        lemma_softened_domain(
            state.key_spec(),
            actions,
            learning.probabilities,
            favourite.key_spec(),
            epsilon as int,
            actions.len(),
        );
        assert forall|i: int| 0 <= i < actions.len() implies {
            &&& after.probabilities.contains_key(
                pair_key_spec(state.key_spec(), (#[trigger] actions[i]).key_spec()),
            )
            &&& after.probabilities[pair_key_spec(state.key_spec(), actions[i].key_spec())] >= 0
        } by {
            assert(learning.probabilities.contains_key(
                pair_key_spec(state.key_spec(), actions[i].key_spec()),
            ));
        }
    } else {
        let theirs = env.actions_model(other);
        assert forall|i: int| 0 <= i < theirs.len() implies {
            &&& after.probabilities.contains_key(
                pair_key_spec(other.key_spec(), (#[trigger] theirs[i]).key_spec()),
            )
            &&& after.probabilities[pair_key_spec(other.key_spec(), theirs[i].key_spec())]
                == learning.probabilities[pair_key_spec(other.key_spec(), theirs[i].key_spec())]
        } by {
            let key = pair_key_spec(other.key_spec(), theirs[i].key_spec());
            assert forall|j: int| 0 <= j < actions.len() implies pair_key_spec(
                state.key_spec(),
                (#[trigger] actions[j]).key_spec(),
            ) != key by {
                if pair_key_spec(state.key_spec(), actions[j].key_spec()) == key {
                    lemma_pair_key_injective(
                        state.key_spec(),
                        actions[j].key_spec(),
                        other.key_spec(),
                        theirs[i].key_spec(),
                    );
                }
            }
            lemma_softened_elsewhere(
                state.key_spec(),
                actions,
                learning.probabilities,
                favourite.key_spec(),
                epsilon as int,
                actions.len(),
                key,
            );
        }
        lemma_row_mass_same(
            other.key_spec(),
            theirs,
            after.probabilities,
            learning.probabilities,
            theirs.len(),
        );
    }
}

/// A visit changes no probability but those of the pairs of the state
/// visited, and no action value but that of the pair visited.
pub proof fn lemma_visit_keeps_entries<S: State, A: Action, E: Enviorment<S, A>>(
    env: &E,
    learning: Learning,
    state: S,
    action: A,
    g: i64,
    epsilon: i64,
    key: u128,
)
    ensures
        row_avoids(env, state, key) ==> visited(
            env,
            learning,
            state,
            action,
            g,
            epsilon,
        ).probabilities[key] == learning.probabilities[key],
        key != pair_key_spec(state.key_spec(), action.key_spec()) ==> visited(
            env,
            learning,
            state,
            action,
            g,
            epsilon,
        ).action_values[key] == learning.action_values[key],
{
    if row_avoids(env, state, key) {
        let after = visited(env, learning, state, action, g, epsilon);
        let actions = env.actions_model(state);
        let favourite = actions[favourite_index(
            state.key_spec(),
            actions,
            after.action_values,
            actions.len(),
        )];
        lemma_softened_elsewhere(
            state.key_spec(),
            actions,
            learning.probabilities,
            favourite.key_spec(),
            epsilon as int,
            actions.len(),
            key,
        );
    }
}

/// The states of the steps of a trajectory can be told from `other` by
/// their keys, and none of them offers two actions with the same key.
pub open spec fn steps_tell_apart<S: State, A: Action, E: Enviorment<S, A>>(
    env: &E,
    trajectory: Seq<(S, A, i32)>,
    other: S,
) -> bool {
    forall|j: int|
        0 <= j < trajectory.len() ==> {
            &&& distinct_actions(env.actions_model((#[trigger] trajectory[j]).0))
            &&& trajectory[j].0.key_spec() == other.key_spec() ==> trajectory[j].0 == other
        }
}

/// The replay of a trajectory leaves a whole row whole.
pub proof fn lemma_replay_keeps_row<S: State, A: Action, E: Enviorment<S, A>>(
    env: &E,
    trajectory: Seq<(S, A, i32)>,
    gamma: i64,
    epsilon: i64,
    start: Learning,
    n: nat,
    other: S,
)
    requires
        n <= trajectory.len(),
        0 <= epsilon <= ONE,
        steps_tell_apart(env, trajectory, other),
        is_whole_row(other.key_spec(), env.actions_model(other), start.probabilities),
    ensures
        replayed(env, trajectory, gamma, epsilon, start, n) matches Ok(replay) ==> is_whole_row(
            other.key_spec(),
            env.actions_model(other),
            replay.learning.probabilities,
        ),
    decreases n,
{
    if n > 0 {
        lemma_replay_keeps_row(env, trajectory, gamma, epsilon, start, (n - 1) as nat, other);
        match replayed(env, trajectory, gamma, epsilon, start, (n - 1) as nat) {
            Ok(before) => {
                let index = trajectory.len() - n;
                let step = trajectory[index];
                let g = discounted(gamma, before.g, step.2);
                if is_first_visit(trajectory, index) && visit_defined(
                    env,
                    before.learning,
                    step.0,
                    step.1,
                ) {
                    lemma_visit_keeps_row(env, before.learning, step.0, step.1, g, epsilon, other);
                }
            },
            Err(_) => {},
        }
    }
}

/// The replay of a trajectory changes no probability but those of the pairs
/// of the states in it, and no action value but those of the pairs in it.
pub proof fn lemma_replay_keeps_entries<S: State, A: Action, E: Enviorment<S, A>>(
    env: &E,
    trajectory: Seq<(S, A, i32)>,
    gamma: i64,
    epsilon: i64,
    start: Learning,
    n: nat,
    key: u128,
)
    requires
        n <= trajectory.len(),
    ensures
        replayed(env, trajectory, gamma, epsilon, start, n) matches Ok(replay) ==> {
            &&& (forall|j: int|
                0 <= j < trajectory.len() ==> row_avoids(env, (#[trigger] trajectory[j]).0, key))
                ==> replay.learning.probabilities[key] == start.probabilities[key]
            &&& !occurs(trajectory, trajectory.len() as int, key)
                ==> replay.learning.action_values[key] == start.action_values[key]
        },
    decreases n,
{
    if n > 0 {
        lemma_replay_keeps_entries(env, trajectory, gamma, epsilon, start, (n - 1) as nat, key);
        match replayed(env, trajectory, gamma, epsilon, start, (n - 1) as nat) {
            Ok(before) => {
                let index = trajectory.len() - n;
                let step = trajectory[index];
                let g = discounted(gamma, before.g, step.2);
                lemma_visit_keeps_entries(env, before.learning, step.0, step.1, g, epsilon, key);
                if forall|j: int|
                    0 <= j < trajectory.len() ==> row_avoids(
                        env,
                        (#[trigger] trajectory[j]).0,
                        key,
                    ) {
                    assert(row_avoids(env, trajectory[index].0, key));
                }
                if !occurs(trajectory, trajectory.len() as int, key) {
                    assert(step_key(trajectory[index]) != key);
                }
            },
            Err(_) => {},
        }
    }
}

/// Training leaves a whole row whole, whatever the episodes were, as long
/// as the states in them can be told from the row's state by their keys and
/// offer no two actions with the same key.
pub proof fn lemma_training_keeps_row<S: State, A: Action, E: Enviorment<S, A>>(
    env: &E,
    trajectories: Seq<Seq<(S, A, i32)>>,
    gamma: i64,
    epsilon: i64,
    start: Learning,
    n: nat,
    other: S,
)
    requires
        n <= trajectories.len(),
        0 <= epsilon <= ONE,
        forall|i: int|
            0 <= i < trajectories.len() ==> steps_tell_apart(env, #[trigger] trajectories[i], other),
        is_whole_row(other.key_spec(), env.actions_model(other), start.probabilities),
    ensures
        trained(env, trajectories, gamma, epsilon, start, n) matches Ok(training) ==> is_whole_row(
            other.key_spec(),
            env.actions_model(other),
            training.learning.probabilities,
        ),
    decreases n,
{
    if n > 0 {
        lemma_training_keeps_row(env, trajectories, gamma, epsilon, start, (n - 1) as nat, other);
        match trained(env, trajectories, gamma, epsilon, start, (n - 1) as nat) {
            Ok(before) => {
                lemma_annealed_epsilon_bounded(epsilon, (n - 1) as nat);
                assert(steps_tell_apart(env, trajectories[n - 1], other));
                lemma_replay_keeps_row(
                    env,
                    trajectories[n - 1],
                    gamma,
                    annealed_epsilon(epsilon, (n - 1) as nat),
                    before.learning,
                    trajectories[n - 1].len(),
                    other,
                );
            },
            Err(_) => {},
        }
    }
}

/// Training changes no probability but those of the pairs of the states
/// that the episodes came to, and no action value but those of the pairs
/// that they came to.
pub proof fn lemma_training_keeps_entries<S: State, A: Action, E: Enviorment<S, A>>(
    env: &E,
    trajectories: Seq<Seq<(S, A, i32)>>,
    gamma: i64,
    epsilon: i64,
    start: Learning,
    n: nat,
    key: u128,
)
    requires
        n <= trajectories.len(),
    ensures
        trained(env, trajectories, gamma, epsilon, start, n) matches Ok(training) ==> {
            &&& (forall|i: int, j: int|
                0 <= i < trajectories.len() && 0 <= j < trajectories[i].len() ==> row_avoids(
                    env,
                    (#[trigger] trajectories[i][j]).0,
                    key,
                )) ==> training.learning.probabilities[key] == start.probabilities[key]
            &&& (forall|i: int|
                0 <= i < trajectories.len() ==> !occurs(
                    #[trigger] trajectories[i],
                    trajectories[i].len() as int,
                    key,
                )) ==> training.learning.action_values[key] == start.action_values[key]
        },
    decreases n,
{
    if n > 0 {
        lemma_training_keeps_entries(env, trajectories, gamma, epsilon, start, (n - 1) as nat, key);
        match trained(env, trajectories, gamma, epsilon, start, (n - 1) as nat) {
            Ok(before) => {
                let trajectory = trajectories[n - 1];
                lemma_replay_keeps_entries(
                    env,
                    trajectory,
                    gamma,
                    annealed_epsilon(epsilon, (n - 1) as nat),
                    before.learning,
                    trajectory.len(),
                    key,
                );
                if forall|i: int, j: int|
                    0 <= i < trajectories.len() && 0 <= j < trajectories[i].len() ==> row_avoids(
                        env,
                        (#[trigger] trajectories[i][j]).0,
                        key,
                    ) {
                    assert forall|j: int| 0 <= j < trajectory.len() implies row_avoids(
                        env,
                        (#[trigger] trajectory[j]).0,
                        key,
                    ) by {
                        assert(row_avoids(env, trajectories[n - 1][j].0, key));
                    }
                }
                if forall|i: int|
                    0 <= i < trajectories.len() ==> !occurs(
                        #[trigger] trajectories[i],
                        trajectories[i].len() as int,
                        key,
                    ) {
                    assert(!occurs(trajectories[n - 1], trajectories[n - 1].len() as int, key));
                }
            },
            Err(_) => {},
        }
    }
}

/// First-visit Monte Carlo control: runs `episodes` episodes, each from one
/// of `init_states` picked at random and under the policy as it is then,
/// and replays each trajectory to update the action values and the policy.
/// It returns the final policy, the final action values and the return of
/// each episode. An episode may take `max_steps` steps.
///
/// Training keeps the policy a policy: every state that held a whole
/// distribution over its actions holds one afterwards, as long as no other
/// state shares its key and no state offers two actions with the same key.
/// A state that a first visit came to holds an epsilon-greedy distribution,
/// which is whole; the other entries are as they were.
///
/// Only a stochastic policy can be trained. Without episodes the policy and
/// the action values come back as they are. Training stops at the first
/// episode that fails: if there is no first state to pick, if the episode
/// does not end or comes to a state in which the policy does not say what to
/// do, or if the learner cannot take in a visit.
pub fn first_visit_monte_carlo_control<E, S, A>(
    init_pol: Policy<A>,
    init_vals: HashMap<u128, i64>,
    init_states: Vec<S>,
    episodes: u32,
    env: E,
    epsilon: i64,
    gamma: i64,
    max_steps: usize,
    rng: &mut StdRng,
) -> (outcome: Result<(Policy<A>, HashMap<u128, i64>, Vec<i64>), SolveError>) where
    S: State,
    A: Action,
    E: Enviorment<S, A>,

    requires
        env.well_formed(),
        0 <= epsilon <= ONE,
    ensures
        init_pol@ is Deterministic <==> (outcome matches Err(reason) && reason
            == SolveError::UnsupportedPolicy),
        (init_pol@ is Stochastic && episodes == 0) ==> (outcome matches Ok(found) && found.0@
            == init_pol@ && found.1@ == init_vals@ && found.2@.len() == 0),
        (init_pol@ is Stochastic && episodes > 0 && init_states@.len() == 0) ==> (
        outcome matches Err(reason) && reason == SolveError::MalformedInput),
        outcome matches Ok(found) ==> found.2@.len() == episodes,
        outcome matches Ok(found) ==> forall|other: S|
            (key_identifies(other) && actions_are_distinct(&env) && #[trigger] is_whole_row(
                other.key_spec(),
                env.actions_model(other),
                init_pol@->Stochastic_0,
            )) ==> is_whole_row(
                other.key_spec(),
                env.actions_model(other),
                found.0@->Stochastic_0,
            ),
        init_pol@ is Stochastic ==> match outcome {
            Ok(found) => {
                &&& found.0@ is Stochastic
                &&& found.0@->Stochastic_0.dom() == init_pol@->Stochastic_0.dom()
                &&& found.1@.dom() == init_vals@.dom()
                &&& exists|trajectories: Seq<Seq<(S, A, i32)>>| #[trigger]
                    is_control_run(
                        &env,
                        init_states@,
                        trajectories,
                        gamma,
                        epsilon,
                        Learning {
                            probabilities: init_pol@->Stochastic_0,
                            action_values: init_vals@,
                            history: Map::empty(),
                        },
                        episodes as nat,
                        max_steps as nat,
                        found.0@->Stochastic_0,
                        found.1@,
                        found.2@,
                    )
            },
            Err(reason) => {
                &&& reason == SolveError::MalformedInput || reason
                    == SolveError::StepLimitReached
                &&& exists|trajectories: Seq<Seq<(S, A, i32)>>| #[trigger]
                    is_failed_run(
                        &env,
                        init_states@,
                        trajectories,
                        gamma,
                        epsilon,
                        Learning {
                            probabilities: init_pol@->Stochastic_0,
                            action_values: init_vals@,
                            history: Map::empty(),
                        },
                        episodes as nat,
                        max_steps as nat,
                        reason,
                    )
            },
        },
{
    let mut policy = init_pol;
    match &policy {
        Policy::Deterministic(_) => {
            return Err(SolveError::UnsupportedPolicy);
        },
        Policy::Stochastic(_) => {},
    }
    let ghost start = Learning {
        probabilities: policy@->Stochastic_0,
        action_values: init_vals@,
        history: Map::empty(),
    };
    let mut action_values = init_vals;
    let mut history: HashMap<u128, Vec<i64>> = HashMap::new();
    let mut losses: Vec<i64> = Vec::new();
    let mut power: i64 = ONE_CUBED as i64;
    let ghost mut trajectories: Seq<Seq<(S, A, i32)>> = Seq::empty();
    assert(history_model(history@) =~= Map::empty());
    let mut i: u32 = 0;
    while i < episodes
        invariant
            0 <= i <= episodes,
            env.well_formed(),
            0 <= epsilon <= ONE,
            init_pol@ is Stochastic,
            start == (Learning {
                probabilities: init_pol@->Stochastic_0,
                action_values: init_vals@,
                history: Map::empty(),
            }),
            policy@ is Stochastic,
            policy@->Stochastic_0.dom() == start.probabilities.dom(),
            action_values@.dom() == start.action_values.dom(),
            power == decay_power(i as nat),
            i > 0 ==> init_states@.len() > 0,
            trajectories.len() == i,
            forall|j: int|
                0 <= j < i ==> #[trigger] episode_sound(
                    &env,
                    init_states@,
                    trajectories,
                    gamma,
                    epsilon,
                    start,
                    max_steps as nat,
                    j,
                ),
            trained(&env, trajectories, gamma, epsilon, start, i as nat) == Ok::<
                Training,
                SolveError,
            >(
                Training {
                    learning: Learning {
                        probabilities: policy@->Stochastic_0,
                        action_values: action_values@,
                        history: history_model(history@),
                    },
                    losses: losses@,
                },
            ),
        decreases episodes - i,
    {
        proof {
            lemma_annealed_epsilon_bounded(epsilon, i as nat);
        }
        let rate: i64 = anneal(epsilon, power);
        let ghost held = Learning {
            probabilities: policy@->Stochastic_0,
            action_values: action_values@,
            history: history_model(history@),
        };
        let first: S = match choose_one(&init_states, rng) {
            Some(state) => *state,
            None => {
                let failed: Result<(Policy<A>, HashMap<u128, i64>, Vec<i64>), SolveError> = Err(
                    SolveError::MalformedInput,
                );
                proof {
                    assert(episode_failed(
                        &env,
                        init_states@,
                        held,
                        gamma,
                        rate,
                        max_steps as nat,
                        SolveError::MalformedInput,
                    ));
                    assert(is_failed_run(
                        &env,
                        init_states@,
                        trajectories,
                        gamma,
                        epsilon,
                        Learning {
                            probabilities: init_pol@->Stochastic_0,
                            action_values: init_vals@,
                            history: Map::empty(),
                        },
                        episodes as nat,
                        max_steps as nat,
                        SolveError::MalformedInput,
                    ));
                }
                return failed;
            },
        };
        let trajectory = match episode(&env, &first, &policy, max_steps, rng) {
            Ok(trajectory) => trajectory,
            Err(e) => {
                let failed: Result<(Policy<A>, HashMap<u128, i64>, Vec<i64>), SolveError> = Err(e);
                proof {
                    let (steps, end) = choose|steps: Seq<(S, A, i32)>, end: S|
                        {
                            &&& #[trigger] is_walk(&env, policy@, first, steps, end)
                            &&& !env.terminal_model(end)
                            &&& steps.len() <= max_steps
                            &&& e == SolveError::StepLimitReached ==> steps.len() == max_steps
                            &&& e == SolveError::MalformedInput ==> !can_select(&env, policy@, end)
                            &&& e == SolveError::StepLimitReached || e
                                == SolveError::MalformedInput
                        };
                    assert(init_states@.contains(first));
                    assert(policy@ == PolicyModel::<A>::Stochastic(held.probabilities));
                    assert(is_walk(
                        &env,
                        PolicyModel::Stochastic(held.probabilities),
                        first,
                        steps,
                        end,
                    ));
                    assert(episode_failed(
                        &env,
                        init_states@,
                        held,
                        gamma,
                        rate,
                        max_steps as nat,
                        e,
                    ));
                    assert(is_failed_run(
                        &env,
                        init_states@,
                        trajectories,
                        gamma,
                        epsilon,
                        Learning {
                            probabilities: init_pol@->Stochastic_0,
                            action_values: init_vals@,
                            history: Map::empty(),
                        },
                        episodes as nat,
                        max_steps as nat,
                        e,
                    ));
                }
                return failed;
            },
        };
        let ghost before = trajectories;
        let ghost end = choose|end: S|
            #[trigger] is_walk(&env, policy@, first, trajectory@, end) && env.terminal_model(end);
        proof {
            assert(init_states@.contains(first));
            assert(policy@ == PolicyModel::<A>::Stochastic(held.probabilities));
            assert(is_walk(
                &env,
                PolicyModel::Stochastic(held.probabilities),
                first,
                trajectory@,
                end,
            ));
        }
        let replay = match &mut policy {
            Policy::Stochastic(map) => learn_from_episode(
                &env,
                map,
                &mut action_values,
                &mut history,
                &trajectory,
                gamma,
                rate,
            ),
            Policy::Deterministic(_) => Err(SolveError::MalformedInput),
        };
        match replay {
            Ok(g) => {
                losses.push(g);
            },
            Err(e) => {
                let failed: Result<(Policy<A>, HashMap<u128, i64>, Vec<i64>), SolveError> = Err(e);
                proof {
                    assert(replayed(&env, trajectory@, gamma, rate, held, trajectory@.len()) is Err);
                    assert(episode_failed(
                        &env,
                        init_states@,
                        held,
                        gamma,
                        rate,
                        max_steps as nat,
                        e,
                    ));
                    assert(is_failed_run(
                        &env,
                        init_states@,
                        trajectories,
                        gamma,
                        epsilon,
                        Learning {
                            probabilities: init_pol@->Stochastic_0,
                            action_values: init_vals@,
                            history: Map::empty(),
                        },
                        episodes as nat,
                        max_steps as nat,
                        e,
                    ));
                }
                return failed;
            },
        }
        proof {
            trajectories = before.push(trajectory@);
            lemma_trained_prefix(&env, before, trajectories, gamma, epsilon, start, i as nat);
            assert forall|j: int| 0 <= j < i + 1 implies #[trigger] episode_sound(
                &env,
                init_states@,
                trajectories,
                gamma,
                epsilon,
                start,
                max_steps as nat,
                j,
            ) by {
                lemma_trained_prefix(&env, before, trajectories, gamma, epsilon, start, j as nat);
                if j < i {
                    assert(episode_sound(
                        &env,
                        init_states@,
                        before,
                        gamma,
                        epsilon,
                        start,
                        max_steps as nat,
                        j,
                    ));
                    assert(trajectories[j] == before[j]);
                    let (first0, end0) = choose|first0: S, end0: S|
                        {
                            &&& init_states@.contains(first0)
                            &&& #[trigger] is_walk(
                                &env,
                                PolicyModel::Stochastic(
                                    trained(
                                        &env,
                                        before,
                                        gamma,
                                        epsilon,
                                        start,
                                        j as nat,
                                    )->Ok_0.learning.probabilities,
                                ),
                                first0,
                                before[j],
                                end0,
                            )
                            &&& env.terminal_model(end0)
                        };
                    assert(is_walk(
                        &env,
                        PolicyModel::Stochastic(
                            trained(
                                &env,
                                trajectories,
                                gamma,
                                epsilon,
                                start,
                                j as nat,
                            )->Ok_0.learning.probabilities,
                        ),
                        first0,
                        trajectories[j],
                        end0,
                    ));
                } else {
                    assert(trained(&env, trajectories, gamma, epsilon, start, j as nat) is Ok);
                    assert(trained(
                        &env,
                        trajectories,
                        gamma,
                        epsilon,
                        start,
                        j as nat,
                    )->Ok_0.learning.probabilities == held.probabilities);
                    assert(trajectories[j] == trajectory@);
                    assert(is_walk(
                        &env,
                        PolicyModel::Stochastic(held.probabilities),
                        first,
                        trajectories[j],
                        end,
                    ));
                }
            }
        }
        power = decay(power);
        i += 1;
    }
    let result: Result<(Policy<A>, HashMap<u128, i64>, Vec<i64>), SolveError> = Ok(
        (policy, action_values, losses),
    );
    proof {
        lemma_trained_losses(&env, trajectories, gamma, epsilon, start, episodes as nat);
        let found = result->Ok_0;
        assert forall|other: S|
            (key_identifies(other) && actions_are_distinct(&env) && #[trigger] is_whole_row(
                other.key_spec(),
                env.actions_model(other),
                init_pol@->Stochastic_0,
            )) implies is_whole_row(
            other.key_spec(),
            env.actions_model(other),
            found.0@->Stochastic_0,
        ) by {
            assert forall|i: int| 0 <= i < trajectories.len() implies steps_tell_apart(
                &env,
                #[trigger] trajectories[i],
                other,
            ) by {
                assert forall|j: int| 0 <= j < trajectories[i].len() implies {
                    &&& distinct_actions(env.actions_model((#[trigger] trajectories[i][j]).0))
                    &&& trajectories[i][j].0.key_spec() == other.key_spec() ==> trajectories[i][j].0
                        == other
                } by {}
            }
            lemma_training_keeps_row(
                &env,
                trajectories,
                gamma,
                epsilon,
                start,
                episodes as nat,
                other,
            );
        }
        assert(is_control_run(
            &env,
            init_states@,
            trajectories,
            gamma,
            epsilon,
            Learning {
                probabilities: init_pol@->Stochastic_0,
                action_values: init_vals@,
                history: Map::empty(),
            },
            episodes as nat,
            max_steps as nat,
            found.0@->Stochastic_0,
            found.1@,
            found.2@,
        ));
    }
    result
}

} // verus!
