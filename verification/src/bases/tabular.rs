//! An environment given by its tables.
//!
//! States and actions are numbered from zero. For each state the table
//! lists its actions, and for each action the outcomes with their
//! probabilities. The environment exposes these dynamics, and it can be
//! simulated: a step draws one of the listed outcomes.
use rand::rngs::StdRng;
use vstd::prelude::*;

use crate::bases::mdp::{
    is_distribution, is_subdistribution, mass, Action, Enviorment, EnviormentModel, State,
    Transition,
};
use crate::bases::policy_iteration::lemma_mass_monotone;
use crate::utils::fixed::ONE;
use crate::utils::random::random_below;
use crate::utils::stats::{
    cumulative, lemma_cumulative_prefix, lemma_picked_has_weight, pick,
};

verus! {

/// A state of a table, by its number.
#[derive(PartialEq, Eq, Clone, Copy, Hash, Debug)]
pub struct TableState {
    pub index: u64,
}

/// An action of a table, by its number among the actions of its state.
#[derive(PartialEq, Eq, Clone, Copy, Hash, Debug)]
pub struct TableAction {
    pub index: u64,
}

/// The tables: `outcomes[s][a]` lists the outcomes of action `a` in state
/// `s`, and `terminal[s]` says whether an episode ends in state `s`.
pub struct TableModel {
    pub outcomes: Vec<Vec<Vec<Transition<TableState>>>>,
    pub terminal: Vec<bool>,
}

impl State for TableState {
    open spec fn key_spec(self) -> u64 {
        self.index
    }

    fn key(&self) -> (k: u64) {
        self.index
    }
}

impl Action for TableAction {
    open spec fn key_spec(self) -> u64 {
        self.index
    }

    proof fn key_is_injective(first: Self, second: Self) {
    }

    fn key(&self) -> (k: u64) {
        self.index
    }
}

impl TableModel {
    /// Every state says whether it is terminal, and the outcomes of every
    /// action are a probability distribution or none.
    pub open spec fn valid(&self) -> bool {
        &&& self.terminal.len() == self.outcomes.len()
        &&& forall|s: int, a: int|
            0 <= s < self.outcomes.len() && 0 <= a < self.outcomes[s].len()
                ==> is_distribution(#[trigger] self.outcomes[s][a]@)
    }

    /// The outcomes that the table lists for the pair; none for a pair that
    /// it does not know.
    pub open spec fn listed(&self, state: TableState, action: TableAction) -> Seq<
        Transition<TableState>,
    > {
        if state.index < self.outcomes.len() && action.index
            < self.outcomes[state.index as int].len() {
            self.outcomes[state.index as int][action.index as int]@
        } else {
            Seq::empty()
        }
    }

    /// The actions of a state, by number; none for a state that the table
    /// does not know.
    pub open spec fn offered(&self, state: TableState) -> Seq<TableAction> {
        if state.index < self.outcomes.len() {
            Seq::new(
                self.outcomes[state.index as int].len() as nat,
                |i: int| TableAction { index: i as u64 },
            )
        } else {
            Seq::empty()
        }
    }

    /// The states, by number.
    pub open spec fn numbered(&self) -> Seq<TableState> {
        Seq::new(self.outcomes.len() as nat, |i: int| TableState { index: i as u64 })
    }

    /// Whether the table marks the state as terminal.
    pub open spec fn ends(&self, state: TableState) -> bool {
        state.index < self.terminal.len() && self.terminal[state.index as int]
    }

    /// Whether a step from the pair may be the outcome given: from a
    /// terminal state, or where no outcome is listed, the environment stays
    /// where it is for no reward; otherwise it takes a listed outcome of
    /// positive probability.
    pub open spec fn steps(
        &self,
        state: TableState,
        action: TableAction,
        next_state: TableState,
        reward: i32,
    ) -> bool {
        let row = self.listed(state, action);
        if self.ends(state) || row.len() == 0 {
            next_state == state && reward == 0
        } else {
            exists|i: int|
                {
                    &&& 0 <= i < row.len()
                    &&& (#[trigger] row[i]).next_state == next_state
                    &&& row[i].reward == reward
                    &&& row[i].probability > 0
                }
        }
    }

    /// Whether the tables are valid.
    pub fn check(&self) -> (ok: bool)
        ensures
            ok == self.valid(),
    {
        if self.terminal.len() != self.outcomes.len() {
            return false;
        }
        let mut s: usize = 0;
        while s < self.outcomes.len()
            invariant
                0 <= s <= self.outcomes.len(),
                forall|t: int, a: int|
                    0 <= t < s && 0 <= a < self.outcomes[t].len() ==> is_distribution(
                        #[trigger] self.outcomes[t][a]@,
                    ),
            decreases self.outcomes.len() - s,
        {
            let mut a: usize = 0;
            while a < self.outcomes[s].len()
                invariant
                    0 <= s < self.outcomes.len(),
                    0 <= a <= self.outcomes[s as int].len(),
                    forall|t: int, b: int|
                        0 <= t < s && 0 <= b < self.outcomes[t].len() ==> is_distribution(
                            #[trigger] self.outcomes[t][b]@,
                        ),
                    forall|b: int|
                        0 <= b < a ==> is_distribution(#[trigger] self.outcomes[s as int][b]@),
                decreases self.outcomes[s as int].len() - a,
            {
                if !weighs_one_or_nothing(&self.outcomes[s][a]) {
                    return false;
                }
                a += 1;
            }
            s += 1;
        }
        true
    }

    /// Copies the outcomes that the table lists for the pair.
    fn outcomes_of(&self, state: &TableState, action: &TableAction) -> (outcomes: Vec<
        Transition<TableState>,
    >)
        ensures
            outcomes@ == self.listed(*state, *action),
    {
        let mut outcomes: Vec<Transition<TableState>> = Vec::new();
        if state.index >= self.outcomes.len() as u64 {
            return outcomes;
        }
        let s: usize = state.index as usize;
        if action.index >= self.outcomes[s].len() as u64 {
            return outcomes;
        }
        let a: usize = action.index as usize;
        let mut i: usize = 0;
        while i < self.outcomes[s][a].len()
            invariant
                s < self.outcomes.len(),
                a < self.outcomes[s as int].len(),
                0 <= i <= self.outcomes[s as int][a as int].len(),
                outcomes.len() == i,
                forall|j: int| 0 <= j < i ==> outcomes[j] == self.outcomes[s as int][a as int][j],
            decreases self.outcomes[s as int][a as int].len() - i,
        {
            outcomes.push(
                Transition {
                    next_state: self.outcomes[s][a][i].next_state,
                    reward: self.outcomes[s][a][i].reward,
                    probability: self.outcomes[s][a][i].probability,
                },
            );
            i += 1;
        }
        assert(outcomes@ =~= self.outcomes[s as int][a as int]@);
        outcomes
    }

    /// Numbers the actions of a state.
    fn actions_of(&self, state: &TableState) -> (actions: Vec<TableAction>)
        ensures
            actions@ == self.offered(*state),
    {
        let mut actions: Vec<TableAction> = Vec::new();
        if state.index >= self.outcomes.len() as u64 {
            return actions;
        }
        let count: usize = self.outcomes[state.index as usize].len();
        let mut i: usize = 0;
        while i < count
            invariant
                0 <= i <= count,
                actions.len() == i,
                forall|j: int| 0 <= j < i ==> actions[j] == (TableAction { index: j as u64 }),
            decreases count - i,
        {
            actions.push(TableAction { index: i as u64 });
            i += 1;
        }
        assert(actions@ =~= self.offered(*state));
        actions
    }

    /// Numbers the states.
    fn states_of(&self) -> (states: Vec<TableState>)
        ensures
            states@ == self.numbered(),
    {
        let mut states: Vec<TableState> = Vec::new();
        let mut i: usize = 0;
        while i < self.outcomes.len()
            invariant
                0 <= i <= self.outcomes.len(),
                states.len() == i,
                forall|j: int| 0 <= j < i ==> states[j] == (TableState { index: j as u64 }),
            decreases self.outcomes.len() - i,
        {
            states.push(TableState { index: i as u64 });
            i += 1;
        }
        assert(states@ =~= self.numbered());
        states
    }

    /// Looks up whether the state is terminal.
    fn ends_in(&self, state: &TableState) -> (terminal: bool)
        ensures
            terminal == self.ends(*state),
    {
        state.index < self.terminal.len() as u64 && self.terminal[state.index as usize]
    }
}

/// Whether the outcomes are a probability distribution, or none.
pub fn weighs_one_or_nothing<S>(outcomes: &Vec<Transition<S>>) -> (ok: bool)
    ensures
        ok == is_distribution(outcomes@),
{
    let mut weight: i64 = 0;
    let mut i: usize = 0;
    while i < outcomes.len()
        invariant
            0 <= i <= outcomes.len(),
            weight == mass(outcomes@, i as nat),
            0 <= weight <= ONE,
            forall|j: int| 0 <= j < i ==> (#[trigger] outcomes@[j]).probability >= 0,
        decreases outcomes.len() - i,
    {
        let probability: i64 = outcomes[i].probability;
        if probability < 0 {
            return false;
        }
        if probability > ONE - weight {
            proof {
                if is_subdistribution(outcomes@) {
                    lemma_mass_monotone(outcomes@, (i + 1) as nat, outcomes@.len());
                }
            }
            return false;
        }
        weight = weight + probability;
        i += 1;
    }
    outcomes.len() == 0 || weight == ONE
}

impl EnviormentModel<TableState, TableAction> for TableModel {
    open spec fn well_formed(&self) -> bool {
        self.valid()
    }

    open spec fn dynamics_model(&self, state: TableState, action: TableAction) -> Seq<
        Transition<TableState>,
    > {
        self.listed(state, action)
    }

    open spec fn actions_model(&self, state: TableState) -> Seq<TableAction> {
        self.offered(state)
    }

    open spec fn states_model(&self) -> Seq<TableState> {
        self.numbered()
    }

    open spec fn terminal_model(&self, state: TableState) -> bool {
        self.ends(state)
    }

    proof fn states_are_distinct(&self) {
    }

    proof fn dynamics_is_distribution(&self, state: TableState, action: TableAction) {
        if state.index < self.outcomes.len() && action.index
            < self.outcomes[state.index as int].len() {
            assert(is_distribution(self.outcomes[state.index as int][action.index as int]@));
        }
    }

    fn dynamics(&self, state: &TableState, action: &TableAction) -> (outcomes: Vec<
        Transition<TableState>,
    >) {
        self.outcomes_of(state, action)
    }

    fn posible_actions(&self, state: &TableState) -> (actions: Vec<TableAction>) {
        self.actions_of(state)
    }

    fn get_states(&self) -> (states: Vec<TableState>) {
        self.states_of()
    }

    fn is_terminal(&self, state: &TableState) -> (terminal: bool) {
        self.ends_in(state)
    }
}

impl Enviorment<TableState, TableAction> for TableModel {
    open spec fn well_formed(&self) -> bool {
        self.valid()
    }

    open spec fn may_respond(
        &self,
        state: TableState,
        action: TableAction,
        next_state: TableState,
        reward: i32,
    ) -> bool {
        self.steps(state, action, next_state, reward)
    }

    open spec fn actions_model(&self, state: TableState) -> Seq<TableAction> {
        self.offered(state)
    }

    open spec fn states_model(&self) -> Seq<TableState> {
        self.numbered()
    }

    open spec fn terminal_model(&self, state: TableState) -> bool {
        self.ends(state)
    }

    fn response(&self, state: &TableState, action: &TableAction, rng: &mut StdRng) -> (step: (
        TableState,
        i32,
    )) {
        if self.ends_in(state) {
            return (*state, 0);
        }
        let outcomes = self.outcomes_of(state, action);
        if outcomes.len() == 0 {
            return (*state, 0);
        }
        let mut weights: Vec<(usize, i64)> = Vec::new();
        let mut i: usize = 0;
        while i < outcomes.len()
            invariant
                0 <= i <= outcomes.len(),
                weights.len() == i,
                forall|j: int| 0 <= j < i ==> weights[j] == (j as usize, outcomes[j].probability),
                cumulative(weights@, i as nat) == mass(outcomes@, i as nat),
            decreases outcomes.len() - i,
        {
            let ghost before = weights@;
            weights.push((i, outcomes[i].probability));
            proof {
                lemma_cumulative_prefix(before, weights@, i as nat);
            }
            i += 1;
        }
        let cutoff: i64 = random_below(rng, ONE);
        let index: usize = pick(&weights, cutoff);
        proof {
            assert(is_distribution(outcomes@));
            lemma_picked_has_weight(weights@, cutoff as int, index as int);
        }
        (outcomes[index].next_state, outcomes[index].reward)
    }

    fn is_terminal(&self, state: &TableState) -> (terminal: bool) {
        self.ends_in(state)
    }

    fn posible_actions(&self, state: &TableState) -> (actions: Vec<TableAction>) {
        self.actions_of(state)
    }

    fn get_states(&self) -> (states: Vec<TableState>) {
        self.states_of()
    }
}

} // verus!
