//! Laws of value iteration.
//!
//! The Bellman backup brings no two tables further apart, so the changes
//! that successive sweeps make never grow. A table on which value iteration
//! has stopped is therefore left within `theta` of itself by another run,
//! which makes a single sweep. Terminal states keep the value zero.

use crate::fixed::{
    lemma_division_keeps_within, lemma_product_keeps_within, lemma_saturate_keeps_within,
    lemma_sum_keeps_within, product, within, CERTAIN, ONE,
};
use crate::value_iteration::{
    action_expectations, after_sweeps, backup, expectation, grounded, outcome_return, start_of,
    sweep_delta, sweep_of, swept, total_probability, unsettled, weighted_total, Probability,
    ValueIterationTask,
};
use crate::{greatest, value_at, StateKey};
use vstd::prelude::*;

verus! {

/// Whether no value of `v1` differs from the value of `v2` under the same
/// key by more than `d`.
pub open spec fn close(v1: Map<u128, i64>, v2: Map<u128, i64>, d: int) -> bool {
    forall|k: u128| within(#[trigger] value_at(v1, k) as int, value_at(v2, k) as int, d)
}

/// Weighted returns under close tables are close, in proportion to the
/// probability mass.
pub proof fn lemma_weighted_total_close<S: StateKey>(
    v1: Map<u128, i64>,
    v2: Map<u128, i64>,
    outcomes: Seq<Probability<S>>,
    gamma: i64,
    d: int,
)
    requires
        0 <= gamma <= ONE,
        d >= 0,
        close(v1, v2, d),
    ensures
        within(
            weighted_total(v1, outcomes, gamma),
            weighted_total(v2, outcomes, gamma),
            total_probability(outcomes) * d,
        ),
    decreases outcomes.len(),
{
    if outcomes.len() == 0 {
        assert(total_probability(outcomes) * d == 0) by (nonlinear_arith)
            requires
                total_probability(outcomes) == 0,
        ;
    } else {
        let front = outcomes.drop_last();
        let o = outcomes.last();
        lemma_weighted_total_close(v1, v2, front, gamma, d);
        let k = o.next_state.state_index();
        assert(within(value_at(v1, k) as int, value_at(v2, k) as int, d));
        lemma_product_keeps_within(gamma, value_at(v1, k), value_at(v2, k), d);
        lemma_sum_keeps_within(
            o.reward,
            product(gamma, value_at(v1, k)),
            product(gamma, value_at(v2, k)),
            d,
        );
        let x1 = outcome_return(v1, o, gamma) as int;
        let x2 = outcome_return(v2, o, gamma) as int;
        let p = o.probability as int;
        let mass = total_probability(front) as int;
        assert(within(p * x1, p * x2, p * d)) by (nonlinear_arith)
            requires
                p >= 0,
                within(x1, x2, d),
        ;
        assert((mass + p) * d == mass * d + p * d) by (nonlinear_arith);
    }
}

/// Expected returns under close tables are as close.
pub proof fn lemma_expectation_close<S: StateKey>(
    v1: Map<u128, i64>,
    v2: Map<u128, i64>,
    outcomes: Seq<Probability<S>>,
    gamma: i64,
    d: int,
)
    requires
        0 <= gamma <= ONE,
        d >= 0,
        close(v1, v2, d),
        total_probability(outcomes) <= CERTAIN,
    ensures
        within(
            expectation(v1, outcomes, gamma) as int,
            expectation(v2, outcomes, gamma) as int,
            d,
        ),
{
    lemma_weighted_total_close(v1, v2, outcomes, gamma, d);
    let mass = total_probability(outcomes) as int;
    assert(mass * d <= CERTAIN * d) by (nonlinear_arith)
        requires
            0 <= mass <= CERTAIN,
            d >= 0,
    ;
    let a1 = weighted_total(v1, outcomes, gamma);
    let a2 = weighted_total(v2, outcomes, gamma);
    lemma_division_keeps_within(a1, a2, CERTAIN as int, d);
    lemma_saturate_keeps_within(a1 / (CERTAIN as int), a2 / (CERTAIN as int), d);
}

/// The greatest of values that are close one by one are close.
pub proof fn lemma_greatest_close(a: Seq<i64>, b: Seq<i64>, d: int)
    requires
        a.len() == b.len(),
        d >= 0,
        forall|i: int| 0 <= i < a.len() ==> within(#[trigger] a[i] as int, b[i] as int, d),
    ensures
        within(greatest(a) as int, greatest(b) as int, d),
    decreases a.len(),
{
    if a.len() > 0 {
        assert forall|i: int| 0 <= i < a.drop_last().len() implies within(
            #[trigger] a.drop_last()[i] as int,
            b.drop_last()[i] as int,
            d,
        ) by {
            assert(within(a[i] as int, b[i] as int, d));
        }
        lemma_greatest_close(a.drop_last(), b.drop_last(), d);
        assert(within(a[a.len() - 1] as int, b[a.len() - 1] as int, d));
    }
}

/// The backup brings no two tables further apart.
pub proof fn lemma_backup_close<T: ValueIterationTask>(
    task: T,
    v1: Map<u128, i64>,
    v2: Map<u128, i64>,
    s: T::State,
    d: int,
)
    requires
        task.is_state(s),
        d >= 0,
        close(v1, v2, d),
    ensures
        within(backup(task, v1, s) as int, backup(task, v2, s) as int, d),
{
    let e1 = action_expectations(task, v1, s);
    let e2 = action_expectations(task, v2, s);
    task.discount_is_a_fraction();
    assert forall|i: int| 0 <= i < e1.len() implies within(
        #[trigger] e1[i] as int,
        e2[i] as int,
        d,
    ) by {
        let a = task.spec_action_space(s)[i];
        assert(task.spec_action_space(s).contains(a));
        task.probabilities_are_conserved(s, a);
        lemma_expectation_close(v1, v2, task.spec_possibilities(s, a), task.spec_gamma(), d);
    }
    lemma_greatest_close(e1, e2, d);
}

/// A sweep leaves alone what it holds under a key of no state that it has
/// visited.
pub proof fn lemma_swept_leaves_key<T: ValueIterationTask>(
    task: T,
    v: Map<u128, i64>,
    n: nat,
    key: u128,
)
    requires
        n <= task.spec_state_space().len(),
        forall|i: int| 0 <= i < n ==> (#[trigger] task.spec_state_space()[i]).state_index() != key,
    ensures
        swept(task, v, n).0.contains_key(key) == v.contains_key(key),
        swept(task, v, n).0[key] == v[key],
        value_at(swept(task, v, n).0, key) == value_at(v, key),
    decreases n,
{
    if n > 0 {
        lemma_swept_leaves_key(task, v, (n - 1) as nat, key);
        assert(task.spec_state_space()[n - 1].state_index() != key);
    }
}

/// Once a sweep has replaced the value of a state, it keeps that value.
pub proof fn lemma_swept_keeps_backup<T: ValueIterationTask>(
    task: T,
    v: Map<u128, i64>,
    n: nat,
    m: nat,
)
    requires
        n < m <= task.spec_state_space().len(),
    ensures
        value_at(swept(task, v, m).0, task.spec_state_space()[n as int].state_index()) == backup(
            task,
            swept(task, v, n).0,
            task.spec_state_space()[n as int],
        ),
    decreases m,
{
    task.state_space_is_sound();
    if m > n + 1 {
        lemma_swept_keeps_backup(task, v, n, (m - 1) as nat);
        assert(task.spec_state_space()[n as int].state_index() != task.spec_state_space()[m
            - 1].state_index());
    }
}

/// A sweep moves no value by more than the change that it reports.
pub proof fn lemma_swept_moves_by_delta<T: ValueIterationTask>(
    task: T,
    v: Map<u128, i64>,
    n: nat,
    key: u128,
)
    requires
        n <= task.spec_state_space().len(),
    ensures
        within(
            value_at(v, key) as int,
            value_at(swept(task, v, n).0, key) as int,
            swept(task, v, n).1 as int,
        ),
    decreases n,
{
    if n > 0 {
        task.state_space_is_sound();
        lemma_swept_moves_by_delta(task, v, (n - 1) as nat, key);
        let s = task.spec_state_space()[n - 1];
        if s.state_index() == key {
            assert forall|i: int| 0 <= i < n - 1 implies (
            #[trigger] task.spec_state_space()[i]).state_index() != key by {
                assert(task.spec_state_space()[i].state_index() != task.spec_state_space()[n
                    - 1].state_index());
            }
            lemma_swept_leaves_key(task, v, (n - 1) as nat, key);
        }
    }
}

/// The changes that successive sweeps make never grow: a sweep of a table
/// that a sweep has just left changes no value by more than that sweep
/// did.
pub proof fn lemma_sweeps_settle<T: ValueIterationTask>(task: T, v: Map<u128, i64>)
    ensures
        sweep_delta(task, sweep_of(task, v)) <= sweep_delta(task, v),
{
    lemma_second_sweep_follows(task, v, task.spec_state_space().len());
}

/// While a second sweep goes over the table, it stays close to what the
/// first sweep had at the same place, and changes nothing by more than the
/// first sweep did in all.
proof fn lemma_second_sweep_follows<T: ValueIterationTask>(task: T, v: Map<u128, i64>, n: nat)
    requires
        n <= task.spec_state_space().len(),
    ensures
        close(
            swept(task, v, n).0,
            swept(task, sweep_of(task, v), n).0,
            sweep_delta(task, v) as int,
        ),
        swept(task, sweep_of(task, v), n).1 <= sweep_delta(task, v),
    decreases n,
{
    let states = task.spec_state_space();
    let t = sweep_of(task, v);
    let d = sweep_delta(task, v) as int;
    if n == 0 {
        assert forall|k: u128|
            within(#[trigger] value_at(v, k) as int, value_at(t, k) as int, d) by {
            lemma_swept_moves_by_delta(task, v, states.len(), k);
        }
    } else {
        task.state_space_is_sound();
        lemma_second_sweep_follows(task, v, (n - 1) as nat);
        let s = states[n - 1];
        let key = s.state_index();
        let un = swept(task, v, (n - 1) as nat).0;
        let tn = swept(task, t, (n - 1) as nat).0;
        lemma_backup_close(task, un, tn, s, d);
        let new1 = backup(task, un, s);
        let new2 = backup(task, tn, s);
        assert(within(new1 as int, new2 as int, d));
        assert forall|i: int| 0 <= i < n - 1 implies (#[trigger] states[i]).state_index()
            != key by {
            assert(states[i].state_index() != states[n - 1].state_index());
        }
        lemma_swept_leaves_key(task, t, (n - 1) as nat, key);
        lemma_swept_keeps_backup(task, v, (n - 1) as nat, states.len());
        assert(value_at(tn, key) == new1);
        let u_next = swept(task, v, n).0;
        let t_next = swept(task, t, n).0;
        assert forall|k: u128| within(
            #[trigger] value_at(u_next, k) as int,
            value_at(t_next, k) as int,
            d,
        ) by {
            if k != key {
                assert(within(value_at(un, k) as int, value_at(tn, k) as int, d));
            }
        }
    }
}

/// Each terminal state has the value zero in a table that is set up for
/// value iteration.
pub proof fn lemma_grounded_holds_zero<T: ValueIterationTask>(
    task: T,
    v: Map<u128, i64>,
    n: nat,
    j: int,
)
    requires
        0 <= j < n <= task.spec_terminal_state_space().len(),
    ensures
        grounded(task, v, n).contains_key(task.spec_terminal_state_space()[j].state_index()),
        grounded(task, v, n)[task.spec_terminal_state_space()[j].state_index()] == 0,
    decreases n,
{
    if j < n - 1 {
        lemma_grounded_holds_zero(task, v, (n - 1) as nat, j);
    }
}

/// Sweeps leave alone what the table holds under a key of no state that is
/// swept.
pub proof fn lemma_sweeps_leave_key<T: ValueIterationTask>(
    task: T,
    v: Map<u128, i64>,
    k: nat,
    key: u128,
)
    requires
        forall|i: int|
            0 <= i < task.spec_state_space().len() ==> (
            #[trigger] task.spec_state_space()[i]).state_index() != key,
    ensures
        after_sweeps(task, v, k).contains_key(key) == v.contains_key(key),
        after_sweeps(task, v, k)[key] == v[key],
    decreases k,
{
    if k > 0 {
        lemma_sweeps_leave_key(task, v, (k - 1) as nat, key);
        lemma_swept_leaves_key(
            task,
            after_sweeps(task, v, (k - 1) as nat),
            task.spec_state_space().len(),
            key,
        );
    }
}

/// Terminal states keep the value zero through every sweep of value
/// iteration.
pub proof fn lemma_terminal_states_stay_zero<T: ValueIterationTask>(
    task: T,
    v: Map<u128, i64>,
    k: nat,
    j: int,
)
    requires
        0 <= j < task.spec_terminal_state_space().len(),
    ensures
        after_sweeps(task, start_of(task, v), k).contains_key(
            task.spec_terminal_state_space()[j].state_index(),
        ),
        after_sweeps(task, start_of(task, v), k)[task.spec_terminal_state_space()[j].state_index()]
            == 0,
{
    task.state_space_is_sound();
    let key = task.spec_terminal_state_space()[j].state_index();
    lemma_grounded_holds_zero(task, v, task.spec_terminal_state_space().len(), j);
    assert forall|i: int| 0 <= i < task.spec_state_space().len() implies (
    #[trigger] task.spec_state_space()[i]).state_index() != key by {
        assert(task.spec_state_space()[i].state_index()
            != task.spec_terminal_state_space()[j].state_index());
    }
    lemma_sweeps_leave_key(task, start_of(task, v), k, key);
}

/// Setting the terminal states to zero changes nothing in a table in which
/// they are zero.
proof fn lemma_grounded_again<T: ValueIterationTask>(task: T, v: Map<u128, i64>, n: nat)
    requires
        n <= task.spec_terminal_state_space().len(),
        forall|j: int|
            0 <= j < task.spec_terminal_state_space().len() ==> v.contains_key(
                (#[trigger] task.spec_terminal_state_space()[j]).state_index(),
            ) && v[task.spec_terminal_state_space()[j].state_index()] == 0,
    ensures
        grounded(task, v, n) == v,
    decreases n,
{
    if n > 0 {
        lemma_grounded_again(task, v, (n - 1) as nat);
        let key = task.spec_terminal_state_space()[n - 1].state_index();
        assert(v.contains_key(key) && v[key] == 0);
        assert(v.insert(key, 0) =~= v);
    }
}

/// Running value iteration again on a table on which it has stopped makes
/// one sweep and moves no value by `theta` or more: the table as the first
/// run left it is where the second run starts, the first sweep from there
/// changes nothing by more than the last sweep of the first run did, and
/// no value moves by more than that sweep's change.
pub proof fn lemma_second_run_is_settled<T: ValueIterationTask>(
    task: T,
    v: Map<u128, i64>,
    theta: i64,
    sweeps: nat,
    key: u128,
)
    requires
        sweeps >= 1,
        !unsettled(
            sweep_delta(task, after_sweeps(task, start_of(task, v), (sweeps - 1) as nat)),
            theta,
        ),
    ensures
        ({
            let result = after_sweeps(task, start_of(task, v), sweeps);
            &&& start_of(task, result) == result
            &&& !unsettled(sweep_delta(task, result), theta)
            &&& within(
                value_at(result, key) as int,
                value_at(sweep_of(task, result), key) as int,
                sweep_delta(task, result) as int,
            )
        }),
{
    let start = start_of(task, v);
    let before = after_sweeps(task, start, (sweeps - 1) as nat);
    let result = after_sweeps(task, start, sweeps);
    assert(result == sweep_of(task, before));
    lemma_sweeps_settle(task, before);
    assert forall|j: int|
        0 <= j < task.spec_terminal_state_space().len() implies result.contains_key(
        (#[trigger] task.spec_terminal_state_space()[j]).state_index(),
    ) && result[task.spec_terminal_state_space()[j].state_index()] == 0 by {
        lemma_terminal_states_stay_zero(task, v, sweeps, j);
    }
    lemma_grounded_again(task, result, task.spec_terminal_state_space().len());
    lemma_swept_moves_by_delta(task, result, task.spec_state_space().len(), key);
}

} // verus!
