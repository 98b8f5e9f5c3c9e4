//! Tabular reinforcement learning over finite Markov decision processes:
//! value iteration on an exact transition model, off-policy Monte Carlo
//! control with weighted importance sampling, and one-step Q-learning.
//!
//! All quantities are exact: values are fixed-point numbers (see [`fixed`]),
//! and a table is a hash map from the key of a state, or of a state and an
//! action, to a value. An entry that is absent counts as zero.

pub mod fixed;
pub mod games;
pub mod monte_carlo;
pub mod q_learning;
mod random;
pub mod value_iteration;

use std::collections::HashMap;
use vstd::prelude::*;

verus! {

/// State keys lie below this bound (2^96).
pub const STATE_KEYS: u128 = 0x1_0000_0000_0000_0000_0000_0000;

/// Action keys lie below this bound (2^32).
pub const ACTION_KEYS: u128 = 0x1_0000_0000;

/// A state that can index a table. Distinct states have distinct keys.
pub trait StateKey {
    /// The key that stands for this state.
    spec fn state_index(self) -> u128;

    /// The key lies below [`STATE_KEYS`].
    proof fn state_index_fits(self)
        ensures
            self.state_index() < STATE_KEYS,
    ;

    /// States with the same key are the same state.
    proof fn state_index_is_injective(self, other: Self)
        ensures
            self.state_index() == other.state_index() ==> self == other,
    ;

    /// Computes the key.
    fn state_key(&self) -> (k: u128)
        ensures
            k == self.state_index(),
    ;
}

/// An action that can index a table. Distinct actions have distinct keys.
pub trait ActionKey {
    /// The key that stands for this action.
    spec fn action_index(self) -> u128;

    /// The key lies below [`ACTION_KEYS`].
    proof fn action_index_fits(self)
        ensures
            self.action_index() < ACTION_KEYS,
    ;

    /// Actions with the same key are the same action.
    proof fn action_index_is_injective(self, other: Self)
        ensures
            self.action_index() == other.action_index() ==> self == other,
    ;

    /// Computes the key.
    fn action_key(&self) -> (k: u128)
        ensures
            k == self.action_index(),
    ;
}

impl StateKey for i32 {
    open spec fn state_index(self) -> u128 {
        (self + 0x8000_0000) as u128
    }

    proof fn state_index_fits(self) {
    }

    proof fn state_index_is_injective(self, other: Self) {
    }

    fn state_key(&self) -> (k: u128) {
        (*self as i64 + 0x8000_0000) as u128
    }
}

impl ActionKey for i32 {
    open spec fn action_index(self) -> u128 {
        (self + 0x8000_0000) as u128
    }

    proof fn action_index_fits(self) {
    }

    proof fn action_index_is_injective(self, other: Self) {
    }

    fn action_key(&self) -> (k: u128) {
        (*self as i64 + 0x8000_0000) as u128
    }
}

impl StateKey for (u32, u32) {
    open spec fn state_index(self) -> u128 {
        (self.0 * 0x1_0000_0000 + self.1) as u128
    }

    proof fn state_index_fits(self) {
    }

    proof fn state_index_is_injective(self, other: Self) {
    }

    fn state_key(&self) -> (k: u128) {
        self.0 as u128 * 0x1_0000_0000 + self.1 as u128
    }
}

/// The key of the pair of a state key and an action key.
pub open spec fn pair_index(state: u128, action: u128) -> u128 {
    (state * ACTION_KEYS + action) as u128
}

/// A state together with an action taken in it: what an action-value table
/// is indexed by.
#[derive(Debug, PartialEq, Eq, Hash, Copy)]
pub struct StateActionPair<S, A> {
    pub state: S,
    pub action: A,
}

impl<S: Copy, A: Copy> Clone for StateActionPair<S, A> {
    fn clone(&self) -> (r: Self)
        ensures
            r == *self,
    {
        *self
    }
}

impl<S: StateKey, A: ActionKey> StateActionPair<S, A> {
    /// The key that stands for this pair.
    pub open spec fn index(self) -> u128 {
        pair_index(self.state.state_index(), self.action.action_index())
    }

    /// The key under which an action-value table holds this pair.
    pub fn key(&self) -> (k: u128)
        ensures
            k == self.index(),
    {
        proof {
            self.state.state_index_fits();
            self.action.action_index_fits();
        }
        let s: u128 = self.state.state_key();
        let a: u128 = self.action.action_key();
        s * 0x1_0000_0000 + a
    }

    /// Distinct pairs have distinct keys.
    pub proof fn index_is_injective(self, other: Self)
        ensures
            self.index() == other.index() ==> self == other,
    {
        self.state.state_index_fits();
        self.action.action_index_fits();
        other.state.state_index_fits();
        other.action.action_index_fits();
        self.state.state_index_is_injective(other.state);
        self.action.action_index_is_injective(other.action);
    }
}

/// The value that `table` holds under `key`: zero where it holds none.
pub open spec fn value_at(table: Map<u128, i64>, key: u128) -> i64 {
    if table.contains_key(key) {
        table[key]
    } else {
        0
    }
}

/// Reads a table entry; an absent entry reads as zero.
pub fn lookup(table: &HashMap<u128, i64>, key: u128) -> (v: i64)
    ensures
        v == value_at(table@, key),
{
    match table.get(&key) {
        Some(x) => *x,
        None => 0,
    }
}

/// The larger of two values.
pub open spec fn larger(a: i64, b: i64) -> i64 {
    if a >= b {
        a
    } else {
        b
    }
}

/// The greatest of `values`; the least value there is, where there are none.
pub open spec fn greatest(values: Seq<i64>) -> i64
    decreases values.len(),
{
    if values.len() == 0 {
        i64::MIN
    } else {
        larger(greatest(values.drop_last()), values.last())
    }
}

/// The actions whose value is exactly `top`, in the order of `actions`.
/// `values[i]` is the value of `actions[i]`.
pub open spec fn achievers<A>(actions: Seq<A>, values: Seq<i64>, top: i64) -> Seq<A>
    recommends
        actions.len() == values.len(),
    decreases actions.len(),
{
    if actions.len() == 0 {
        Seq::empty()
    } else {
        let rest = achievers(actions.drop_last(), values.drop_last(), top);
        if values.last() == top {
            rest.push(actions.last())
        } else {
            rest
        }
    }
}

/// One step of the running selection: a strictly greater value starts a new
/// list, an equal value joins the list, a smaller one changes nothing.
pub open spec fn tie_step<A>(best: i64, kept: Seq<A>, action: A, value: i64) -> (i64, Seq<A>) {
    if best < value {
        (value, seq![action])
    } else if best == value {
        (best, kept.push(action))
    } else {
        (best, kept)
    }
}

/// No value exceeds the greatest, and some value attains it.
pub proof fn lemma_greatest_is_attained(values: Seq<i64>)
    ensures
        forall|i: int| 0 <= i < values.len() ==> values[i] <= greatest(values),
        values.len() > 0 ==> exists|i: int| 0 <= i < values.len() && values[i] == greatest(values),
    decreases values.len(),
{
    if values.len() > 0 {
        let front = values.drop_last();
        lemma_greatest_is_attained(front);
        assert forall|i: int| 0 <= i < values.len() implies values[i] <= greatest(values) by {
            if i < front.len() {
                assert(front[i] == values[i]);
            }
        }
        if greatest(values) == values.last() {
            assert(values[values.len() - 1] == greatest(values));
        } else {
            let i = choose|i: int| 0 <= i < front.len() && front[i] == greatest(front);
            assert(values[i] == greatest(values));
        }
    }
}

/// Ties are kept: every action whose value equals `top` is among the
/// achievers, however many there are.
pub proof fn lemma_achievers_hold_every_tie<A>(actions: Seq<A>, values: Seq<i64>, top: i64, i: int)
    requires
        actions.len() == values.len(),
        0 <= i < actions.len(),
        values[i] == top,
    ensures
        achievers(actions, values, top).contains(actions[i]),
    decreases actions.len(),
{
    let rest = achievers(actions.drop_last(), values.drop_last(), top);
    if i == actions.len() - 1 {
        assert(rest.push(actions.last())[rest.len() as int] == actions[i]);
    } else {
        lemma_achievers_hold_every_tie(actions.drop_last(), values.drop_last(), top, i);
        let j = choose|j: int| 0 <= j < rest.len() && rest[j] == actions.drop_last()[i];
        assert(achievers(actions, values, top)[j] == actions[i]);
    }
}

/// Only ties are kept: each achiever is an action whose value equals `top`.
pub proof fn lemma_achievers_hold_only_ties<A>(actions: Seq<A>, values: Seq<i64>, top: i64, j: int)
    requires
        actions.len() == values.len(),
        0 <= j < achievers(actions, values, top).len(),
    ensures
        exists|i: int|
            0 <= i < actions.len() && values[i] == top && actions[i] == achievers(
                actions,
                values,
                top,
            )[j],
    decreases actions.len(),
{
    let rest = achievers(actions.drop_last(), values.drop_last(), top);
    if j < rest.len() {
        lemma_achievers_hold_only_ties(actions.drop_last(), values.drop_last(), top, j);
        let i = choose|i: int|
            0 <= i < actions.len() - 1 && values.drop_last()[i] == top && actions.drop_last()[i]
                == rest[j];
        assert(values[i] == top && actions[i] == achievers(actions, values, top)[j]);
    } else {
        let i = actions.len() - 1;
        assert(values[i] == top && actions[i] == achievers(actions, values, top)[j]);
    }
}

/// There are no more achievers than actions.
pub proof fn lemma_achievers_are_few<A>(actions: Seq<A>, values: Seq<i64>, top: i64)
    ensures
        achievers(actions, values, top).len() <= actions.len(),
    decreases actions.len(),
{
    if actions.len() > 0 {
        lemma_achievers_are_few(actions.drop_last(), values.drop_last(), top);
    }
}

/// Nothing achieves a value above the greatest.
proof fn lemma_nothing_above_greatest<A>(actions: Seq<A>, values: Seq<i64>, top: i64)
    requires
        actions.len() == values.len(),
        top > greatest(values),
    ensures
        achievers(actions, values, top) == Seq::<A>::empty(),
    decreases actions.len(),
{
    if actions.len() > 0 {
        lemma_nothing_above_greatest(actions.drop_last(), values.drop_last(), top);
    }
}

/// The running selection computes the greatest value and its achievers:
/// one more step takes the result for all but the last action to the result
/// for all of them.
pub proof fn lemma_tie_step_selects<A>(actions: Seq<A>, values: Seq<i64>)
    requires
        actions.len() == values.len(),
        actions.len() > 0,
    ensures
        tie_step(
            greatest(values.drop_last()),
            achievers(actions.drop_last(), values.drop_last(), greatest(values.drop_last())),
            actions.last(),
            values.last(),
        ) == (greatest(values), achievers(actions, values, greatest(values))),
{
    let before = greatest(values.drop_last());
    if before < values.last() {
        lemma_nothing_above_greatest(actions.drop_last(), values.drop_last(), values.last());
    }
}

/// Takes one more action into a running selection.
pub fn consider<A>(best: &mut i64, kept: &mut Vec<A>, action: A, value: i64)
    ensures
        (*final(best), final(kept)@) == tie_step(*old(best), old(kept)@, action, value),
{
    if *best < value {
        let mut fresh: Vec<A> = Vec::new();
        fresh.push(action);
        *kept = fresh;
        *best = value;
    } else if *best == value {
        kept.push(action);
    }
}

/// The value of each of `actions` in state `state`, as `table` holds it.
pub open spec fn action_values<S: StateKey, A: ActionKey>(
    table: Map<u128, i64>,
    state: S,
    actions: Seq<A>,
) -> Seq<i64> {
    Seq::new(
        actions.len(),
        |i: int| value_at(table, pair_index(state.state_index(), actions[i].action_index())),
    )
}

/// The greatest value that `table` holds for `state` among the actions of
/// `action_space`, and every action that has exactly that value, in the
/// order of `action_space`. An action without an entry has value zero. With
/// no action at all the value is `i64::MIN` and the list is empty.
pub fn max_value_by_actions<S: StateKey, A: ActionKey + Copy>(
    value: &HashMap<u128, i64>,
    s: &S,
    action_space: &Vec<A>,
) -> (r: (i64, Vec<A>))
    ensures
        r.0 == greatest(action_values(value@, *s, action_space@)),
        r.1@ == achievers(action_space@, action_values(value@, *s, action_space@), r.0),
{
    let ghost all = action_values(value@, *s, action_space@);
    let mut max_v: i64 = i64::MIN;
    let mut max_a: Vec<A> = Vec::new();
    let state_key: u128 = s.state_key();
    let mut i: usize = 0;
    proof {
        s.state_index_fits();
    }
    while i < action_space.len()
        invariant
            i <= action_space.len(),
            all == action_values(value@, *s, action_space@),
            state_key == s.state_index(),
            state_key < STATE_KEYS,
            max_v == greatest(all.take(i as int)),
            max_a@ == achievers(action_space@.take(i as int), all.take(i as int), max_v),
        decreases action_space.len() - i,
    {
        let a: A = action_space[i];
        proof {
            a.action_index_fits();
        }
        let v: i64 = lookup(value, state_key * 0x1_0000_0000 + a.action_key());
        proof {
            let acts = action_space@.take(i as int + 1);
            let vals = all.take(i as int + 1);
            assert(acts.drop_last() =~= action_space@.take(i as int));
            assert(vals.drop_last() =~= all.take(i as int));
            lemma_tie_step_selects(acts, vals);
        }
        consider(&mut max_v, &mut max_a, a, v);
        i += 1;
    }
    proof {
        assert(all.take(i as int) =~= all);
        assert(action_space@.take(i as int) =~= action_space@);
    }
    (max_v, max_a)
}

} // verus!
