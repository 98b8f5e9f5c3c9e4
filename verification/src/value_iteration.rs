//! Value iteration: dynamic programming on an exact transition model.
//!
//! A sweep visits the states in the order in which the task lists them and
//! replaces the value of each by the best expected return of one step,
//! reading the values that the same sweep has already replaced. Sweeps are
//! repeated until one of them changes no value by `theta` or more.

use crate::fixed::{
    clamp, distance, div_floor, fx_add, fx_dist, fx_mul, product, saturate, sum, CERTAIN,
    MASS_TOLERANCE, ONE,
};
use crate::{achievers, consider, greatest, lemma_tie_step_selects, lookup, value_at, StateKey};
use std::collections::HashMap;
use vstd::prelude::*;

pub mod convergence;

use convergence::lemma_terminal_states_stay_zero;

verus! {

/// One outcome of taking an action in a state: with probability
/// `probability`, counted in units of 10^-16, the next state is
/// `next_state` and the reward is `reward`.
pub struct Probability<S> {
    pub probability: u64,
    pub next_state: S,
    pub reward: i64,
}

/// The probabilities of `outcomes` added up.
pub open spec fn total_probability<S>(outcomes: Seq<Probability<S>>) -> nat
    decreases outcomes.len(),
{
    if outcomes.len() == 0 {
        0
    } else {
        total_probability(outcomes.drop_last()) + outcomes.last().probability as nat
    }
}

/// What one outcome is worth: its reward and the discounted value of the
/// state it leads to.
pub open spec fn outcome_return<S: StateKey>(
    v: Map<u128, i64>,
    outcome: Probability<S>,
    gamma: i64,
) -> i64 {
    sum(outcome.reward, product(gamma, value_at(v, outcome.next_state.state_index())))
}

/// The returns of `outcomes`, each weighted by its probability, added up.
/// The result counts units of 10^-16 of a billionth.
pub open spec fn weighted_total<S: StateKey>(
    v: Map<u128, i64>,
    outcomes: Seq<Probability<S>>,
    gamma: i64,
) -> int
    decreases outcomes.len(),
{
    if outcomes.len() == 0 {
        0
    } else {
        weighted_total(v, outcomes.drop_last(), gamma) + outcomes.last().probability
            * outcome_return(v, outcomes.last(), gamma)
    }
}

/// The expected return over `outcomes`, rounded down.
pub open spec fn expectation<S: StateKey>(
    v: Map<u128, i64>,
    outcomes: Seq<Probability<S>>,
    gamma: i64,
) -> i64 {
    saturate(weighted_total(v, outcomes, gamma) / (CERTAIN as int))
}

/// A finite Markov decision process whose transition probabilities are
/// known.
pub trait ValueIterationTask {
    /// The states of the task.
    type State: StateKey;

    /// The actions of the task.
    type Action: Copy;

    /// The discount factor.
    spec fn spec_gamma(&self) -> i64;

    /// Whether `s` is a state of the task, terminal or not.
    spec fn is_state(&self, s: Self::State) -> bool;

    /// The states that are not terminal, in the order of a sweep.
    spec fn spec_state_space(&self) -> Seq<Self::State>;

    /// The terminal states.
    spec fn spec_terminal_state_space(&self) -> Seq<Self::State>;

    /// The actions that can be taken in `s`.
    spec fn spec_action_space(&self, s: Self::State) -> Seq<Self::Action>;

    /// The outcomes of taking `a` in `s`.
    spec fn spec_possibilities(
        &self,
        s: Self::State,
        a: Self::Action,
    ) -> Seq<Probability<Self::State>>;

    /// The discount factor lies between zero and one.
    proof fn discount_is_a_fraction(&self)
        ensures
            0 <= self.spec_gamma() <= ONE,
    ;

    /// Every listed state is a state, no state is listed twice, and no
    /// terminal state is listed among the others.
    proof fn state_space_is_sound(&self)
        ensures
            forall|i: int|
                0 <= i < self.spec_state_space().len() ==> self.is_state(
                    #[trigger] self.spec_state_space()[i],
                ),
            forall|i: int|
                0 <= i < self.spec_terminal_state_space().len() ==> self.is_state(
                    #[trigger] self.spec_terminal_state_space()[i],
                ),
            forall|i: int, j: int|
                0 <= i < j < self.spec_state_space().len() ==> (
                #[trigger] self.spec_state_space()[i]).state_index() != (
                #[trigger] self.spec_state_space()[j]).state_index(),
            forall|i: int, j: int|
                0 <= i < self.spec_state_space().len() && 0 <= j
                    < self.spec_terminal_state_space().len() ==> (
                #[trigger] self.spec_state_space()[i]).state_index() != (
                #[trigger] self.spec_terminal_state_space()[j]).state_index(),
    ;

    /// The outcomes of an action carry all of the probability mass, up to
    /// the tolerance, and no more than all of it.
    proof fn probabilities_are_conserved(&self, s: Self::State, a: Self::Action)
        requires
            self.is_state(s),
            self.spec_action_space(s).contains(a),
        ensures
            CERTAIN - MASS_TOLERANCE <= total_probability(self.spec_possibilities(s, a))
                <= CERTAIN,
    ;

    /// The discount factor.
    fn gamma(&self) -> (g: i64)
        ensures
            g == self.spec_gamma(),
    ;

    /// The outcomes of taking `a` in `s`, with their probabilities.
    fn possibilities(
        &self,
        s: &Self::State,
        a: &Self::Action,
    ) -> (r: Vec<Probability<Self::State>>)
        requires
            self.is_state(*s),
            self.spec_action_space(*s).contains(*a),
        ensures
            r@ == self.spec_possibilities(*s, *a),
    ;

    /// The actions that can be taken in `s`.
    fn action_space(&self, s: &Self::State) -> (r: Vec<Self::Action>)
        requires
            self.is_state(*s),
        ensures
            r@ == self.spec_action_space(*s),
    ;

    /// The states that are not terminal, in the order of a sweep.
    fn state_space(&self) -> (r: Vec<Self::State>)
        ensures
            r@ == self.spec_state_space(),
    ;

    /// The terminal states.
    fn terminal_state_space(&self) -> (r: Vec<Self::State>)
        ensures
            r@ == self.spec_terminal_state_space(),
    ;
}

/// The expected return of each action that can be taken in `s`.
pub open spec fn action_expectations<T: ValueIterationTask>(
    task: T,
    v: Map<u128, i64>,
    s: T::State,
) -> Seq<i64> {
    Seq::new(
        task.spec_action_space(s).len(),
        |i: int|
            expectation(
                v,
                task.spec_possibilities(s, task.spec_action_space(s)[i]),
                task.spec_gamma(),
            ),
    )
}

/// The Bellman optimality backup: the best expected return of one step
/// from `s`.
pub open spec fn backup<T: ValueIterationTask>(task: T, v: Map<u128, i64>, s: T::State) -> i64 {
    greatest(action_expectations(task, v, s))
}

/// The table after a sweep has replaced the values of the first `n` states,
/// and the greatest change so far.
pub open spec fn swept<T: ValueIterationTask>(
    task: T,
    v: Map<u128, i64>,
    n: nat,
) -> (Map<u128, i64>, u64)
    decreases n,
{
    if n == 0 {
        (v, 0)
    } else {
        let (table, delta) = swept(task, v, (n - 1) as nat);
        let s = task.spec_state_space()[n - 1];
        let old_v = value_at(table, s.state_index());
        let new_v = backup(task, table, s);
        let change = distance(new_v, old_v);
        (
            table.insert(s.state_index(), new_v),
            if change > delta {
                change
            } else {
                delta
            },
        )
    }
}

/// The table after one whole sweep.
pub open spec fn sweep_of<T: ValueIterationTask>(task: T, v: Map<u128, i64>) -> Map<u128, i64> {
    swept(task, v, task.spec_state_space().len()).0
}

/// The greatest change that one whole sweep makes to a value of `v`.
pub open spec fn sweep_delta<T: ValueIterationTask>(task: T, v: Map<u128, i64>) -> u64 {
    swept(task, v, task.spec_state_space().len()).1
}

/// The table after `k` sweeps.
pub open spec fn after_sweeps<T: ValueIterationTask>(
    task: T,
    v: Map<u128, i64>,
    k: nat,
) -> Map<u128, i64>
    decreases k,
{
    if k == 0 {
        v
    } else {
        sweep_of(task, after_sweeps(task, v, (k - 1) as nat))
    }
}

/// The table with the values of the first `n` terminal states set to zero.
pub open spec fn grounded<T: ValueIterationTask>(
    task: T,
    v: Map<u128, i64>,
    n: nat,
) -> Map<u128, i64>
    decreases n,
{
    if n == 0 {
        v
    } else {
        grounded(task, v, (n - 1) as nat).insert(
            task.spec_terminal_state_space()[n - 1].state_index(),
            0,
        )
    }
}

/// The table as value iteration starts from it: every terminal state at
/// zero.
pub open spec fn start_of<T: ValueIterationTask>(task: T, v: Map<u128, i64>) -> Map<u128, i64> {
    grounded(task, v, task.spec_terminal_state_space().len())
}

/// Whether `theta` still asks for another sweep after one that changed a
/// value by `delta`.
pub open spec fn unsettled(delta: u64, theta: i64) -> bool {
    delta >= theta
}

/// The most sweeps that one call makes.
pub const SWEEP_LIMIT: u64 = u64::MAX;

/// The first outcomes of a list carry no more mass than all of them.
proof fn lemma_total_probability_of_prefix<S>(outcomes: Seq<Probability<S>>, n: int)
    requires
        0 <= n <= outcomes.len(),
    ensures
        total_probability(outcomes.take(n)) <= total_probability(outcomes),
    decreases outcomes.len(),
{
    if n == outcomes.len() {
        assert(outcomes.take(n) =~= outcomes);
    } else {
        lemma_total_probability_of_prefix(outcomes.drop_last(), n);
        assert(outcomes.drop_last().take(n) =~= outcomes.take(n));
    }
}

/// A weighted return is no further from zero than its weight times the
/// greatest `i64`.
proof fn lemma_term_is_bounded(p: int, x: int)
    requires
        0 <= p,
        -0x8000_0000_0000_0000 <= x <= 0x7fff_ffff_ffff_ffff,
    ensures
        -(p * 0x8000_0000_0000_0000) <= p * x <= p * 0x8000_0000_0000_0000,
{
    assert(-(p * 0x8000_0000_0000_0000) <= p * x <= p * 0x8000_0000_0000_0000)
        by (nonlinear_arith)
        requires
            0 <= p,
            -0x8000_0000_0000_0000 <= x <= 0x7fff_ffff_ffff_ffff,
    ;
}

/// A solver that runs value iteration on a task.
pub struct ValueIteration<T: ValueIterationTask> {
    task: T,
}

impl<T: ValueIterationTask> ValueIteration<T> {
    /// The task that this solver works on.
    pub closed spec fn model(&self) -> T {
        self.task
    }

    /// A solver for `task`.
    pub fn new(task: T) -> (this: Self)
        ensures
            this.model() == task,
    {
        Self { task }
    }

    /// The task that this solver works on.
    pub fn task(&self) -> (t: &T)
        ensures
            *t == self.model(),
    {
        &self.task
    }

    /// The expected return over `outcomes` under the values of `v`.
    pub fn expected_value(
        &self,
        v: &HashMap<u128, i64>,
        outcomes: &Vec<Probability<T::State>>,
    ) -> (r: i64)
        requires
            total_probability(outcomes@) <= CERTAIN,
        ensures
            r == expectation(v@, outcomes@, self.model().spec_gamma()),
    {
        let gamma: i64 = self.task.gamma();
        let mut total: i128 = 0;
        let mut i: usize = 0;
        let ghost mut mass: nat = 0;
        while i < outcomes.len()
            invariant
                i <= outcomes.len(),
                gamma == self.model().spec_gamma(),
                total_probability(outcomes@) <= CERTAIN,
                mass == total_probability(outcomes@.take(i as int)),
                total == weighted_total(v@, outcomes@.take(i as int), gamma),
                -(mass * 0x8000_0000_0000_0000) <= total <= mass * 0x8000_0000_0000_0000,
            decreases outcomes.len() - i,
        {
            let outcome = &outcomes[i];
            let next: i64 = lookup(v, outcome.next_state.state_key());
            let x: i64 = fx_add(outcome.reward, fx_mul(gamma, next));
            proof {
                let now = outcomes@.take(i as int + 1);
                assert(now.drop_last() =~= outcomes@.take(i as int));
                lemma_total_probability_of_prefix(outcomes@, i as int + 1);
                lemma_term_is_bounded(outcome.probability as int, x as int);
                mass = mass + outcome.probability as nat;
            }
            let term: i128 = outcome.probability as i128 * x as i128;
            total = total + term;
            i += 1;
        }
        proof {
            assert(outcomes@.take(i as int) =~= outcomes@);
        }
        clamp(div_floor(total, CERTAIN as i128))
    }

    /// The best expected return of one step from `s` under the values of
    /// `v`, and every action that attains exactly that return, in the order
    /// of the action space.
    pub fn max_v_a(&self, v: &HashMap<u128, i64>, s: &T::State) -> (r: (i64, Vec<T::Action>))
        requires
            self.model().is_state(*s),
        ensures
            r.0 == backup(self.model(), v@, *s),
            r.1@ == achievers(
                self.model().spec_action_space(*s),
                action_expectations(self.model(), v@, *s),
                r.0,
            ),
    {
        let actions = self.task.action_space(s);
        let ghost all = action_expectations(self.model(), v@, *s);
        let mut max_v: i64 = i64::MIN;
        let mut max_a: Vec<T::Action> = Vec::new();
        let mut i: usize = 0;
        while i < actions.len()
            invariant
                i <= actions.len(),
                self.model().is_state(*s),
                actions@ == self.model().spec_action_space(*s),
                all == action_expectations(self.model(), v@, *s),
                max_v == greatest(all.take(i as int)),
                max_a@ == achievers(actions@.take(i as int), all.take(i as int), max_v),
            decreases actions.len() - i,
        {
            let a: T::Action = actions[i];
            proof {
                self.model().probabilities_are_conserved(*s, a);
            }
            let outcomes = self.task.possibilities(s, &a);
            let expected_v: i64 = self.expected_value(v, &outcomes);
            proof {
                let acts = actions@.take(i as int + 1);
                let vals = all.take(i as int + 1);
                assert(acts.drop_last() =~= actions@.take(i as int));
                assert(vals.drop_last() =~= all.take(i as int));
                lemma_tie_step_selects(acts, vals);
            }
            consider(&mut max_v, &mut max_a, a, expected_v);
            i += 1;
        }
        proof {
            assert(all.take(i as int) =~= all);
            assert(actions@.take(i as int) =~= actions@);
        }
        (max_v, max_a)
    }

    /// One sweep over the states that are not terminal. Returns the greatest
    /// change that it made to a value.
    pub fn sweep(&self, v: &mut HashMap<u128, i64>) -> (delta: u64)
        ensures
            final(v)@ == sweep_of(self.model(), old(v)@),
            delta == sweep_delta(self.model(), old(v)@),
    {
        let states = self.task.state_space();
        let mut delta: u64 = 0;
        let mut i: usize = 0;
        proof {
            self.model().state_space_is_sound();
        }
        while i < states.len()
            invariant
                i <= states.len(),
                states@ == self.model().spec_state_space(),
                forall|j: int|
                    0 <= j < states.len() ==> self.model().is_state(#[trigger] states@[j]),
                (v@, delta) == swept(self.model(), old(v)@, i as nat),
            decreases states.len() - i,
        {
            let s = &states[i];
            let key: u128 = s.state_key();
            let old_v: i64 = lookup(v, key);
            let (new_v, _) = self.max_v_a(v, s);
            v.insert(key, new_v);
            let change: u64 = fx_dist(new_v, old_v);
            if change > delta {
                delta = change;
            }
            i += 1;
        }
        delta
    }

    /// Sets the value of every terminal state to zero, then sweeps until a
    /// sweep changes no value by `theta` or more. Returns the number of
    /// sweeps made. At least one sweep is made and at most [`SWEEP_LIMIT`]:
    /// that many are made where no sweep settles, as with a `theta` that is
    /// not positive.
    pub fn value_iteration(&self, theta: i64, v: &mut HashMap<u128, i64>) -> (sweeps: u64)
        ensures
            sweeps >= 1,
            final(v)@ == after_sweeps(
                self.model(),
                start_of(self.model(), old(v)@),
                sweeps as nat,
            ),
            forall|k: nat|
                k + 1 < sweeps ==> unsettled(
                    sweep_delta(
                        self.model(),
                        #[trigger] after_sweeps(self.model(), start_of(self.model(), old(v)@), k),
                    ),
                    theta,
                ),
            sweeps < SWEEP_LIMIT ==> !unsettled(
                sweep_delta(
                    self.model(),
                    after_sweeps(
                        self.model(),
                        start_of(self.model(), old(v)@),
                        (sweeps - 1) as nat,
                    ),
                ),
                theta,
            ),
            forall|j: int|
                0 <= j < self.model().spec_terminal_state_space().len() ==> value_at(
                    final(v)@,
                    (#[trigger] self.model().spec_terminal_state_space()[j]).state_index(),
                ) == 0,
    {
        let terminals = self.task.terminal_state_space();
        let mut i: usize = 0;
        while i < terminals.len()
            invariant
                i <= terminals.len(),
                terminals@ == self.model().spec_terminal_state_space(),
                v@ == grounded(self.model(), old(v)@, i as nat),
            decreases terminals.len() - i,
        {
            v.insert(terminals[i].state_key(), 0);
            i += 1;
        }
        let ghost start = v@;
        let mut delta: u64 = self.sweep(v);
        let mut sweeps: u64 = 1;
        proof {
            assert(after_sweeps(self.model(), start, 0) == start);
        }
        while delta as i128 >= theta as i128 && sweeps < SWEEP_LIMIT
            invariant
                1 <= sweeps <= SWEEP_LIMIT,
                start == start_of(self.model(), old(v)@),
                v@ == after_sweeps(self.model(), start, sweeps as nat),
                delta == sweep_delta(
                    self.model(),
                    after_sweeps(self.model(), start, (sweeps - 1) as nat),
                ),
                forall|k: nat|
                    k + 1 < sweeps ==> unsettled(
                        sweep_delta(self.model(), #[trigger] after_sweeps(self.model(), start, k)),
                        theta,
                    ),
            decreases SWEEP_LIMIT - sweeps,
        {
            delta = self.sweep(v);
            sweeps += 1;
        }
        proof {
            assert forall|j: int|
                0 <= j < self.model().spec_terminal_state_space().len() implies value_at(
                v@,
                (#[trigger] self.model().spec_terminal_state_space()[j]).state_index(),
            ) == 0 by {
                lemma_terminal_states_stay_zero(self.model(), old(v)@, sweeps as nat, j);
            }
        }
        sweeps
    }
}

} // verus!
