//! Off-policy Monte Carlo control with weighted importance sampling.
//!
//! Episodes are generated with an epsilon-greedy behaviour policy that is
//! derived from the target policy as it stands. A finished episode is then
//! walked from its last step to its first: each step moves the value of its
//! state and action toward the return that followed, by the share that the
//! step's importance weight has in all the weight seen for that pair, and
//! makes the target policy greedy in that state. The walk ends early at the
//! first step whose action the target policy would not have taken.

use crate::fixed::{
    fx_add, fx_div, fx_mul, fx_nudge, lemma_nudged_stays_between, lemma_share_is_a_fraction,
    nudged, product, quotient, scale_up, scaled_up, sum, CERTAIN, ONE,
};
use crate::random::{pick, uniform_below};
use crate::{
    achievers, action_values, greatest, lemma_achievers_are_few, lemma_achievers_hold_every_tie,
    lemma_achievers_hold_only_ties, lemma_greatest_is_attained, lookup, max_value_by_actions,
    pair_index, value_at, ActionKey, StateKey,
};
use std::collections::HashMap;
use vstd::prelude::*;

pub use crate::StateActionPair;

verus! {

/// The most steps that one episode is followed for.
pub const EPISODE_LIMIT: usize = usize::MAX;

/// A finite Markov decision process that can be sampled.
pub trait MonteCarloTask {
    /// The states of the task.
    type State: StateKey + Copy;

    /// The actions of the task.
    type Action: ActionKey + Copy;

    /// The discount factor.
    spec fn spec_gamma(&self) -> i64;

    /// Whether `s` is a state of the task, terminal or not.
    spec fn is_state(&self, s: Self::State) -> bool;

    /// The actions that can be taken in `s`.
    spec fn spec_action_space(&self, s: Self::State) -> Seq<Self::Action>;

    /// Whether an episode ends in `s`.
    spec fn is_terminal(&self, s: Self::State) -> bool;

    /// Whether an episode can start in `s`.
    spec fn may_start(&self, s: Self::State) -> bool;

    /// Whether taking `a` in `s` can lead to `next` with reward `reward`.
    spec fn may_follow(
        &self,
        s: Self::State,
        a: Self::Action,
        next: Self::State,
        reward: i64,
    ) -> bool;

    /// A state in which an episode goes on offers an action.
    proof fn live_states_have_actions(&self, s: Self::State)
        requires
            self.is_state(s),
            !self.is_terminal(s),
        ensures
            self.spec_action_space(s).len() > 0,
    ;

    /// The discount factor.
    fn gamma(&self) -> (g: i64)
        ensures
            g == self.spec_gamma(),
    ;

    /// The actions that can be taken in `s`.
    fn action_space(&self, s: &Self::State) -> (r: Vec<Self::Action>)
        requires
            self.is_state(*s),
        ensures
            r@ == self.spec_action_space(*s),
    ;

    /// The number of actions that can be taken in `s`.
    fn action_space_len(&self, s: &Self::State) -> (n: usize)
        requires
            self.is_state(*s),
        ensures
            n == self.spec_action_space(*s).len(),
    ;

    /// An action drawn from the action space of `s`.
    fn random_action(&self, s: &Self::State) -> (a: Self::Action)
        requires
            self.is_state(*s),
            self.spec_action_space(*s).len() > 0,
        ensures
            self.spec_action_space(*s).contains(a),
    ;

    /// A state to start an episode in.
    fn random_state(&self) -> (s: Self::State)
        ensures
            self.is_state(s),
            self.may_start(s),
    ;

    /// One sample of what taking `a` in `s` leads to: the next state and
    /// the reward.
    fn transit(&self, s: &Self::State, a: &Self::Action) -> (r: (Self::State, i64))
        requires
            self.is_state(*s),
            !self.is_terminal(*s),
            self.spec_action_space(*s).contains(*a),
        ensures
            self.is_state(r.0),
            self.may_follow(*s, *a, r.0, r.1),
    ;

    /// Whether an episode ends in `s`.
    fn in_terminal_state_space(&self, s: &Self::State) -> (b: bool)
        ensures
            b == self.is_terminal(*s),
    ;
}

/// One step of an episode: `action` was taken in `state` and gave `reward`.
pub struct Step<S, A> {
    pub state: S,
    pub action: A,
    pub reward: i64,
}

/// What the backward pass over an episode carries from step to step.
pub struct Learning<A> {
    /// The action values.
    pub value: Map<u128, i64>,
    /// The importance weight seen so far for each state and action.
    pub weight_sum: Map<u128, i64>,
    /// The target policy: the greedy actions of each state visited.
    pub policy: Map<u128, Seq<A>>,
    /// The discounted return from the step last handled to the end.
    pub step_return: i64,
    /// The importance weight of the steps handled so far.
    pub importance: i64,
    /// Whether the pass has met a step off the target policy.
    pub stopped: bool,
}

/// A policy table as a map from state keys to lists of actions.
pub open spec fn policy_view<A>(policy: Map<u128, Vec<A>>) -> Map<u128, Seq<A>> {
    policy.map_values(|actions: Vec<A>| actions@)
}

/// The actions that `value` rates best in `s`.
pub open spec fn greedy_actions<T: MonteCarloTask>(
    task: T,
    value: Map<u128, i64>,
    s: T::State,
) -> Seq<T::Action> {
    let actions = task.spec_action_space(s);
    let values = action_values(value, s, actions);
    achievers(actions, values, greatest(values))
}

/// The probability with which the behaviour policy, when it explores, takes
/// one of `num_best` greedy actions out of `num_all`.
pub open spec fn explored_share(prob_explore: u64, num_best: nat, num_all: nat) -> nat {
    ((prob_explore * num_best) / (num_all as int)) as nat
}

/// The backward pass handles one step.
pub open spec fn pass_step<T: MonteCarloTask>(
    task: T,
    before: Learning<T::Action>,
    step: Step<T::State, T::Action>,
    prob_explore: u64,
) -> Learning<T::Action> {
    if before.stopped {
        before
    } else {
        let key = pair_index(step.state.state_index(), step.action.action_index());
        let step_return = sum(product(task.spec_gamma(), before.step_return), step.reward);
        let weight = sum(value_at(before.weight_sum, key), before.importance);
        let rate = quotient(before.importance, weight);
        let old_q = value_at(before.value, key);
        let value = before.value.insert(key, nudged(old_q, step_return, rate));
        let best = greedy_actions(task, value, step.state);
        let on_policy = best.contains(step.action);
        Learning {
            value,
            weight_sum: before.weight_sum.insert(key, weight),
            policy: before.policy.insert(step.state.state_index(), best),
            step_return,
            importance: if on_policy {
                scaled_up(
                    before.importance,
                    explored_share(
                        prob_explore,
                        best.len(),
                        task.spec_action_space(step.state).len(),
                    ),
                )
            } else {
                before.importance
            },
            stopped: !on_policy,
        }
    }
}

/// The backward pass after it has handled the last `n` steps of `episode`,
/// the last one first.
pub open spec fn passed<T: MonteCarloTask>(
    task: T,
    start: Learning<T::Action>,
    episode: Seq<Step<T::State, T::Action>>,
    n: nat,
    prob_explore: u64,
) -> Learning<T::Action>
    decreases n,
{
    if n == 0 {
        start
    } else {
        pass_step(
            task,
            passed(task, start, episode, (n - 1) as nat, prob_explore),
            episode[episode.len() - n],
            prob_explore,
        )
    }
}

/// How a backward pass starts on the given tables: no return yet, and an
/// importance weight of one.
pub open spec fn opening<A>(
    value: Map<u128, i64>,
    weight_sum: Map<u128, i64>,
    policy: Map<u128, Seq<A>>,
) -> Learning<A> {
    Learning { value, weight_sum, policy, step_return: 0, importance: ONE, stopped: false }
}

/// The tables after a whole backward pass over `episode`.
pub open spec fn after_episode<T: MonteCarloTask>(
    task: T,
    before: Learning<T::Action>,
    episode: Seq<Step<T::State, T::Action>>,
    prob_explore: u64,
) -> Learning<T::Action> {
    passed(
        task,
        opening(before.value, before.weight_sum, before.policy),
        episode,
        episode.len(),
        prob_explore,
    )
}

/// The tables after a backward pass over each of `episodes` in turn.
pub open spec fn after_episodes<T: MonteCarloTask>(
    task: T,
    before: Learning<T::Action>,
    episodes: Seq<Seq<Step<T::State, T::Action>>>,
    prob_explore: u64,
) -> Learning<T::Action>
    decreases episodes.len(),
{
    if episodes.len() == 0 {
        before
    } else {
        after_episode(
            task,
            after_episodes(task, before, episodes.drop_last(), prob_explore),
            episodes.last(),
            prob_explore,
        )
    }
}

/// Whether the three tables hold what `learning` holds.
pub open spec fn tables_hold<A>(
    value: Map<u128, i64>,
    weight_sum: Map<u128, i64>,
    policy: Map<u128, Vec<A>>,
    learning: Learning<A>,
) -> bool {
    &&& value == learning.value
    &&& weight_sum == learning.weight_sum
    &&& policy_view(policy) == learning.policy
}

/// Whether `step` is a step that an episode of the task can hold: an action
/// of a state in which an episode goes on.
pub open spec fn plausible<T: MonteCarloTask>(task: T, step: Step<T::State, T::Action>) -> bool {
    &&& task.is_state(step.state)
    &&& !task.is_terminal(step.state)
    &&& task.spec_action_space(step.state).contains(step.action)
}

/// Whether every step of `episode` is plausible.
pub open spec fn plausible_episode<T: MonteCarloTask>(
    task: T,
    episode: Seq<Step<T::State, T::Action>>,
) -> bool {
    forall|i: int| 0 <= i < episode.len() ==> plausible(task, #[trigger] episode[i])
}

/// Whether `episode` is a whole episode of the task: it starts in a state
/// in which an episode can start, every step is plausible, each step can
/// lead to the state of the next, and unless the episode was cut off at
/// [`EPISODE_LIMIT`] steps its last step can lead to a terminal state. Only
/// an episode that starts in a terminal state has no step.
pub open spec fn is_episode<T: MonteCarloTask>(
    task: T,
    episode: Seq<Step<T::State, T::Action>>,
) -> bool {
    &&& plausible_episode(task, episode)
    &&& episode.len() > 0 ==> task.may_start(episode[0].state)
    &&& episode.len() == 0 ==> exists|s: T::State|
        task.is_state(s) && #[trigger] task.may_start(s) && task.is_terminal(s)
    &&& forall|i: int|
        0 <= i < episode.len() - 1 ==> task.may_follow(
            (#[trigger] episode[i]).state,
            episode[i].action,
            episode[i + 1].state,
            episode[i].reward,
        )
    &&& 0 < episode.len() < EPISODE_LIMIT ==> exists|end: T::State|
        task.is_state(end) && task.is_terminal(end) && #[trigger] task.may_follow(
            episode.last().state,
            episode.last().action,
            end,
            episode.last().reward,
        )
}

/// Whether every step of `episode` takes an action that `policy` holds for
/// the state of the step, where it holds any.
pub open spec fn follows_policy<S: StateKey, A>(
    policy: Map<u128, Seq<A>>,
    episode: Seq<Step<S, A>>,
) -> bool {
    forall|i: int|
        0 <= i < episode.len() && policy.contains_key(
            (#[trigger] episode[i]).state.state_index(),
        ) ==> policy[episode[i].state.state_index()].contains(episode[i].action)
}

/// Whether a policy table fits the task: where it has an entry for a state
/// in which an episode goes on, the entry is a list of actions of that
/// state, and not an empty one.
pub open spec fn policy_fits<T: MonteCarloTask>(
    task: T,
    policy: Map<u128, Seq<T::Action>>,
) -> bool {
    forall|s: T::State|
        task.is_state(s) && !task.is_terminal(s) && #[trigger] policy.contains_key(
            s.state_index(),
        ) ==> {
            &&& policy[s.state_index()].len() > 0
            &&& forall|j: int|
                0 <= j < policy[s.state_index()].len() ==> task.spec_action_space(s).contains(
                    #[trigger] policy[s.state_index()][j],
                )
        }
}

/// The greedy actions of a state in which an episode goes on are actions of
/// that state, and there is at least one.
pub proof fn lemma_greedy_actions_fit<T: MonteCarloTask>(
    task: T,
    value: Map<u128, i64>,
    s: T::State,
)
    requires
        task.is_state(s),
        !task.is_terminal(s),
    ensures
        0 < greedy_actions(task, value, s).len() <= task.spec_action_space(s).len(),
        forall|j: int|
            0 <= j < greedy_actions(task, value, s).len() ==> task.spec_action_space(s).contains(
                #[trigger] greedy_actions(task, value, s)[j],
            ),
{
    let actions = task.spec_action_space(s);
    let values = action_values(value, s, actions);
    let best = greedy_actions(task, value, s);
    task.live_states_have_actions(s);
    lemma_greatest_is_attained(values);
    let i = choose|i: int| 0 <= i < values.len() && values[i] == greatest(values);
    lemma_achievers_hold_every_tie(actions, values, greatest(values), i);
    lemma_achievers_are_few(actions, values, greatest(values));
    assert forall|j: int| 0 <= j < best.len() implies actions.contains(#[trigger] best[j]) by {
        lemma_achievers_hold_only_ties(actions, values, greatest(values), j);
    }
}

/// A step of the backward pass leaves the value of its state and action
/// between what it was and the return that followed, where the importance
/// weight is positive and the weight seen before is not negative.
pub proof fn lemma_pass_step_value_is_between<T: MonteCarloTask>(
    task: T,
    before: Learning<T::Action>,
    step: Step<T::State, T::Action>,
    prob_explore: u64,
)
    requires
        !before.stopped,
        before.importance > 0,
        value_at(
            before.weight_sum,
            pair_index(step.state.state_index(), step.action.action_index()),
        ) >= 0,
    ensures
        ({
            let key = pair_index(step.state.state_index(), step.action.action_index());
            let after = pass_step(task, before, step, prob_explore);
            let old_q = value_at(before.value, key);
            let new_q = value_at(after.value, key);
            &&& old_q <= after.step_return ==> old_q <= new_q <= after.step_return
            &&& after.step_return <= old_q ==> after.step_return <= new_q <= old_q
        }),
{
    let key = pair_index(step.state.state_index(), step.action.action_index());
    let step_return = sum(product(task.spec_gamma(), before.step_return), step.reward);
    lemma_share_is_a_fraction(before.importance, value_at(before.weight_sum, key));
    lemma_nudged_stays_between(
        value_at(before.value, key),
        step_return,
        quotient(before.importance, sum(value_at(before.weight_sum, key), before.importance)),
    );
}

/// Once the backward pass has stopped, further steps change nothing.
pub proof fn lemma_stopped_pass_stays<T: MonteCarloTask>(
    task: T,
    start: Learning<T::Action>,
    episode: Seq<Step<T::State, T::Action>>,
    n: nat,
    m: nat,
    prob_explore: u64,
)
    requires
        n <= m,
        passed(task, start, episode, n, prob_explore).stopped,
    ensures
        passed(task, start, episode, m, prob_explore) == passed(
            task,
            start,
            episode,
            n,
            prob_explore,
        ),
    decreases m,
{
    if n < m {
        lemma_stopped_pass_stays(task, start, episode, n, (m - 1) as nat, prob_explore);
    }
}

/// A step of the backward pass keeps a fitting policy fitting.
pub proof fn lemma_pass_step_keeps_policy<T: MonteCarloTask>(
    task: T,
    before: Learning<T::Action>,
    step: Step<T::State, T::Action>,
    prob_explore: u64,
)
    requires
        policy_fits(task, before.policy),
        plausible(task, step),
    ensures
        policy_fits(task, pass_step(task, before, step, prob_explore).policy),
{
    let after = pass_step(task, before, step, prob_explore);
    if !before.stopped {
        assert forall|s: T::State|
            task.is_state(s) && !task.is_terminal(s) && #[trigger] after.policy.contains_key(
                s.state_index(),
            ) implies {
            &&& after.policy[s.state_index()].len() > 0
            &&& forall|j: int|
                0 <= j < after.policy[s.state_index()].len() ==> task.spec_action_space(
                    s,
                ).contains(#[trigger] after.policy[s.state_index()][j])
        } by {
            if s.state_index() == step.state.state_index() {
                s.state_index_is_injective(step.state);
                lemma_greedy_actions_fit(task, after.value, s);
            } else {
                assert(before.policy.contains_key(s.state_index()));
            }
        }
    }
}

/// Whether `actions` holds `a`.
pub fn holds<A: ActionKey + Copy>(actions: &Vec<A>, a: &A) -> (b: bool)
    ensures
        b == actions@.contains(*a),
{
    let key: u128 = a.action_key();
    let mut i: usize = 0;
    while i < actions.len()
        invariant
            i <= actions.len(),
            key == a.action_index(),
            forall|j: int| 0 <= j < i ==> actions@[j] != *a,
        decreases actions.len() - i,
    {
        if actions[i].action_key() == key {
            proof {
                actions@[i as int].action_index_is_injective(*a);
            }
            return true;
        }
        i += 1;
    }
    false
}

/// A learner that runs Monte Carlo control on a task.
pub struct MonteCarlo<T: MonteCarloTask> {
    task: T,
}

impl<T: MonteCarloTask> MonteCarlo<T> {
    /// The task that this learner works on.
    pub closed spec fn model(&self) -> T {
        self.task
    }

    /// A learner for `task`.
    pub fn new(task: T) -> (this: Self)
        ensures
            this.model() == task,
    {
        Self { task }
    }

    /// The greatest value that `value` holds for `s`, and every action of
    /// `s` that has exactly that value.
    pub fn max_value_by_actions(
        &self,
        value: &HashMap<u128, i64>,
        s: &T::State,
    ) -> (r: (i64, Vec<T::Action>))
        requires
            self.model().is_state(*s),
        ensures
            r.0 == greatest(action_values(value@, *s, self.model().spec_action_space(*s))),
            r.1@ == greedy_actions(self.model(), value@, *s),
    {
        let actions = self.task.action_space(s);
        max_value_by_actions(value, s, &actions)
    }

    /// Generates one episode with the behaviour policy: in each state, with
    /// probability `prob_explore` any action, and otherwise one of the
    /// actions that `policy` holds for the state, or any action where it
    /// holds none. The episode ends in a terminal state, or after
    /// [`EPISODE_LIMIT`] steps.
    pub fn generate_episode(
        &self,
        policy: &HashMap<u128, Vec<T::Action>>,
        prob_explore: u64,
    ) -> (episode: Vec<Step<T::State, T::Action>>)
        requires
            policy_fits(self.model(), policy_view(policy@)),
        ensures
            is_episode(self.model(), episode@),
            prob_explore == 0 ==> follows_policy(policy_view(policy@), episode@),
    {
        let mut episode: Vec<Step<T::State, T::Action>> = Vec::new();
        let mut s: T::State = self.task.random_state();
        let ghost first = s;
        while !self.task.in_terminal_state_space(&s) && episode.len() < EPISODE_LIMIT
            invariant
                self.model().is_state(s),
                self.model().is_state(first),
                self.model().may_start(first),
                episode.len() == 0 ==> s == first,
                episode.len() > 0 ==> episode[0].state == first,
                policy_fits(self.model(), policy_view(policy@)),
                plausible_episode(self.model(), episode@),
                prob_explore == 0 ==> follows_policy(policy_view(policy@), episode@),
                forall|i: int|
                    0 <= i < episode.len() - 1 ==> self.model().may_follow(
                        (#[trigger] episode[i]).state,
                        episode[i].action,
                        episode[i + 1].state,
                        episode[i].reward,
                    ),
                episode.len() > 0 ==> self.model().may_follow(
                    episode[episode.len() - 1].state,
                    episode[episode.len() - 1].action,
                    s,
                    episode[episode.len() - 1].reward,
                ),
            decreases EPISODE_LIMIT - episode.len(),
        {
            proof {
                self.model().live_states_have_actions(s);
            }
            let rnd: u64 = uniform_below(CERTAIN);
            let a: T::Action = if rnd < prob_explore {
                self.task.random_action(&s)
            } else {
                match policy.get(&s.state_key()) {
                    Some(a) => {
                        assert(policy_view(policy@).contains_key(s.state_index()));
                        assert(policy_view(policy@)[s.state_index()] == a@);
                        let chosen: T::Action = pick(a).unwrap();
                        proof {
                            let j = choose|j: int| 0 <= j < a@.len() && a@[j] == chosen;
                            assert(policy_view(policy@)[s.state_index()][j] == chosen);
                        }
                        chosen
                    },
                    None => self.task.random_action(&s),
                }
            };
            let (s_next, r) = self.task.transit(&s, &a);
            episode.push(Step { state: s, action: a, reward: r });
            s = s_next;
        }
        proof {
            if 0 < episode.len() < EPISODE_LIMIT {
                assert(self.model().may_follow(
                    episode@.last().state,
                    episode@.last().action,
                    s,
                    episode@.last().reward,
                ));
            }
        }
        episode
    }

    /// The backward pass over one episode: from the last step to the first,
    /// until a step is off the target policy.
    pub fn learn_from_episode(
        &self,
        value: &mut HashMap<u128, i64>,
        l_importance_sum: &mut HashMap<u128, i64>,
        policy: &mut HashMap<u128, Vec<T::Action>>,
        episode: &Vec<Step<T::State, T::Action>>,
        prob_explore: u64,
    )
        requires
            plausible_episode(self.model(), episode@),
        ensures
            tables_hold(
                final(value)@,
                final(l_importance_sum)@,
                final(policy)@,
                after_episode(
                    self.model(),
                    opening(old(value)@, old(l_importance_sum)@, policy_view(old(policy)@)),
                    episode@,
                    prob_explore,
                ),
            ),
    {
        let ghost start = opening(old(value)@, old(l_importance_sum)@, policy_view(old(policy)@));
        let gamma: i64 = self.task.gamma();
        let mut step_ret: i64 = 0;
        let mut learning_importance: i64 = ONE;
        let mut stopped: bool = false;
        let mut i: usize = episode.len();
        while i > 0 && !stopped
            invariant
                i <= episode.len(),
                gamma == self.model().spec_gamma(),
                plausible_episode(self.model(), episode@),
                tables_hold(
                    value@,
                    l_importance_sum@,
                    policy@,
                    passed(self.model(), start, episode@, (episode.len() - i) as nat, prob_explore),
                ),
                passed(
                    self.model(),
                    start,
                    episode@,
                    (episode.len() - i) as nat,
                    prob_explore,
                ).step_return == step_ret,
                passed(
                    self.model(),
                    start,
                    episode@,
                    (episode.len() - i) as nat,
                    prob_explore,
                ).importance == learning_importance,
                passed(
                    self.model(),
                    start,
                    episode@,
                    (episode.len() - i) as nat,
                    prob_explore,
                ).stopped == stopped,
            decreases i,
        {
            i -= 1;
            let step = &episode[i];
            step_ret = fx_add(fx_mul(gamma, step_ret), step.reward);
            let state_then_action = StateActionPair { state: step.state, action: step.action };
            let key: u128 = state_then_action.key();
            let learning_rate: i64 = {
                let weight: i64 = fx_add(lookup(l_importance_sum, key), learning_importance);
                l_importance_sum.insert(key, weight);
                fx_div(learning_importance, weight)
            };
            {
                // move the value of this action toward the return that followed it
                let v: i64 = lookup(value, key);
                value.insert(key, fx_nudge(v, step_ret, learning_rate));
            }
            let (_, best_actions) = self.max_value_by_actions(value, &step.state);
            let on_policy: bool = holds(&best_actions, &step.action);
            let num_best: usize = best_actions.len();
            proof {
                assert(policy_view(policy@.insert(step.state.state_index(), best_actions))
                    =~= policy_view(policy@).insert(step.state.state_index(), best_actions@));
            }
            policy.insert(step.state.state_key(), best_actions);
            if !on_policy {
                stopped = true;
            } else {
                let num_all: usize = self.task.action_space_len(&step.state);
                proof {
                    lemma_greedy_actions_fit(self.model(), value@, step.state);
                    assert(0 <= prob_explore * num_best <= 0xffff_ffff_ffff_ffff
                        * 0xffff_ffff_ffff_ffff) by (nonlinear_arith)
                        requires
                            0 <= prob_explore <= 0xffff_ffff_ffff_ffff,
                            0 <= num_best <= 0xffff_ffff_ffff_ffff,
                    ;
                }
                let prob_explored_best_actions: u128 = prob_explore as u128 * num_best as u128
                    / num_all as u128;
                learning_importance = scale_up(learning_importance, prob_explored_best_actions);
            }
        }
        proof {
            lemma_stopped_or_done(
                self.model(),
                start,
                episode@,
                (episode.len() - i) as nat,
                prob_explore,
            );
        }
    }

    /// Generates `num_episodes` episodes, each with the behaviour policy
    /// that the target policy gives as it then stands, and makes the
    /// backward pass over each. Without exploration every episode follows
    /// the target policy as it stood when the episode began.
    pub fn policy_evaluation(
        &self,
        value: &mut HashMap<u128, i64>,
        l_importance_sum: &mut HashMap<u128, i64>,
        policy: &mut HashMap<u128, Vec<T::Action>>,
        prob_explore: u64,
        num_episodes: usize,
    )
        requires
            policy_fits(self.model(), policy_view(old(policy)@)),
        ensures
            policy_fits(self.model(), policy_view(final(policy)@)),
            exists|episodes: Seq<Seq<Step<T::State, T::Action>>>|
                {
                    &&& episodes.len() == num_episodes
                    &&& forall|i: int|
                        0 <= i < episodes.len() ==> is_episode(
                            self.model(),
                            #[trigger] episodes[i],
                        )
                    &&& tables_hold(
                        final(value)@,
                        final(l_importance_sum)@,
                        final(policy)@,
                        #[trigger] after_episodes(
                            self.model(),
                            opening(old(value)@, old(l_importance_sum)@, policy_view(old(policy)@)),
                            episodes,
                            prob_explore,
                        ),
                    )
                    &&& prob_explore == 0 ==> forall|k: int|
                        0 <= k < episodes.len() ==> follows_policy(
                            after_episodes(
                                self.model(),
                                opening(
                                    old(value)@,
                                    old(l_importance_sum)@,
                                    policy_view(old(policy)@),
                                ),
                                #[trigger] episodes.take(k),
                                prob_explore,
                            ).policy,
                            episodes[k],
                        )
                },
    {
        let ghost start = opening(old(value)@, old(l_importance_sum)@, policy_view(old(policy)@));
        let ghost mut episodes: Seq<Seq<Step<T::State, T::Action>>> = Seq::empty();
        let mut n: usize = 0;
        while n < num_episodes
            invariant
                n <= num_episodes,
                episodes.len() == n,
                policy_fits(self.model(), policy_view(policy@)),
                forall|i: int|
                    0 <= i < episodes.len() ==> is_episode(self.model(), #[trigger] episodes[i]),
                tables_hold(
                    value@,
                    l_importance_sum@,
                    policy@,
                    after_episodes(self.model(), start, episodes, prob_explore),
                ),
                prob_explore == 0 ==> forall|k: int|
                    0 <= k < episodes.len() ==> follows_policy(
                        after_episodes(
                            self.model(),
                            start,
                            #[trigger] episodes.take(k),
                            prob_explore,
                        ).policy,
                        episodes[k],
                    ),
            decreases num_episodes - n,
        {
            let episode = self.generate_episode(policy, prob_explore);
            let ghost before = after_episodes(self.model(), start, episodes, prob_explore);
            self.learn_from_episode(value, l_importance_sum, policy, &episode, prob_explore);
            proof {
                lemma_pass_keeps_policy(
                    self.model(),
                    opening(before.value, before.weight_sum, before.policy),
                    episode@,
                    episode@.len(),
                    prob_explore,
                );
                let more = episodes.push(episode@);
                assert(more.drop_last() =~= episodes);
                assert forall|k: int| 0 <= k <= episodes.len() implies #[trigger] more.take(k)
                    == episodes.take(k) by {
                    assert(more.take(k) =~= episodes.take(k));
                }
                assert(episodes.take(episodes.len() as int) =~= episodes);
                episodes = more;
            }
            n += 1;
        }
    }
}

/// After the loop of the backward pass, the pass over the whole episode has
/// the tables that the loop left.
proof fn lemma_stopped_or_done<T: MonteCarloTask>(
    task: T,
    start: Learning<T::Action>,
    episode: Seq<Step<T::State, T::Action>>,
    n: nat,
    prob_explore: u64,
)
    requires
        n <= episode.len(),
        n == episode.len() || passed(task, start, episode, n, prob_explore).stopped,
    ensures
        passed(task, start, episode, episode.len(), prob_explore) == passed(
            task,
            start,
            episode,
            n,
            prob_explore,
        ),
{
    if n < episode.len() {
        lemma_stopped_pass_stays(task, start, episode, n, episode.len(), prob_explore);
    }
}

/// The backward pass keeps a fitting policy fitting.
pub proof fn lemma_pass_keeps_policy<T: MonteCarloTask>(
    task: T,
    start: Learning<T::Action>,
    episode: Seq<Step<T::State, T::Action>>,
    n: nat,
    prob_explore: u64,
)
    requires
        n <= episode.len(),
        policy_fits(task, start.policy),
        plausible_episode(task, episode),
    ensures
        policy_fits(task, passed(task, start, episode, n, prob_explore).policy),
    decreases n,
{
    if n > 0 {
        lemma_pass_keeps_policy(task, start, episode, (n - 1) as nat, prob_explore);
        lemma_pass_step_keeps_policy(
            task,
            passed(task, start, episode, (n - 1) as nat, prob_explore),
            episode[episode.len() - n],
            prob_explore,
        );
    }
}

} // verus!
