//! One-step Q-learning: off-policy temporal-difference control.
//!
//! Episodes are generated with an epsilon-greedy behaviour policy. After
//! every transition the value of the state and action just left is moved
//! toward the reward plus the discounted value of the best action in the
//! state just entered.

use crate::fixed::{
    fx_add, fx_mul, fx_nudge, lemma_nudged_stays_between, nudged, product, sum, CERTAIN, ONE,
};
use crate::random::{pick, uniform_below};
use crate::{
    achievers, action_values, greatest, lemma_achievers_hold_every_tie,
    lemma_achievers_hold_only_ties, lemma_greatest_is_attained, lookup, max_value_by_actions,
    pair_index, value_at, ActionKey, StateActionPair, StateKey,
};
use std::collections::HashMap;
use vstd::prelude::*;

verus! {

/// The most steps that one episode is followed for.
pub const EPISODE_LIMIT: u64 = u64::MAX;

/// A finite Markov decision process that can be sampled.
pub trait QLearningTask {
    /// The states of the task.
    type State: StateKey + Copy;

    /// The actions of the task.
    type Action: ActionKey + Copy;

    /// The discount factor.
    spec fn spec_gamma(&self) -> i64;

    /// Whether `s` is a state of the task, terminal or not.
    spec fn is_state(&self, s: Self::State) -> bool;

    /// The actions that can be taken in `s`.
    spec fn spec_action_space(&self, s: Self::State) -> Seq<Self::Action>;

    /// Whether an episode ends in `s`.
    spec fn is_terminal(&self, s: Self::State) -> bool;

    /// Whether an episode can start in `s`.
    spec fn may_start(&self, s: Self::State) -> bool;

    /// Whether taking `a` in `s` can lead to `next` with reward `reward`.
    spec fn may_follow(
        &self,
        s: Self::State,
        a: Self::Action,
        next: Self::State,
        reward: i64,
    ) -> bool;

    /// A state in which an episode goes on offers an action.
    proof fn live_states_have_actions(&self, s: Self::State)
        requires
            self.is_state(s),
            !self.is_terminal(s),
        ensures
            self.spec_action_space(s).len() > 0,
    ;

    /// The discount factor.
    fn gamma(&self) -> (g: i64)
        ensures
            g == self.spec_gamma(),
    ;

    /// The actions that can be taken in `s`.
    fn action_space(&self, s: &Self::State) -> (r: Vec<Self::Action>)
        requires
            self.is_state(*s),
        ensures
            r@ == self.spec_action_space(*s),
    ;

    /// The number of actions that can be taken in `s`.
    fn action_space_len(&self, s: &Self::State) -> (n: usize)
        requires
            self.is_state(*s),
        ensures
            n == self.spec_action_space(*s).len(),
    ;

    /// An action drawn from the action space of `s`.
    fn random_action(&self, s: &Self::State) -> (a: Self::Action)
        requires
            self.is_state(*s),
            self.spec_action_space(*s).len() > 0,
        ensures
            self.spec_action_space(*s).contains(a),
    ;

    /// A state to start an episode in.
    fn random_state(&self) -> (s: Self::State)
        ensures
            self.is_state(s),
            self.may_start(s),
    ;

    /// One sample of what taking `a` in `s` leads to: the next state and
    /// the reward.
    fn transit(&self, s: &Self::State, a: &Self::Action) -> (r: (Self::State, i64))
        requires
            self.is_state(*s),
            !self.is_terminal(*s),
            self.spec_action_space(*s).contains(*a),
        ensures
            self.is_state(r.0),
            self.may_follow(*s, *a, r.0, r.1),
    ;

    /// Whether an episode ends in `s`.
    fn in_terminal_state_space(&self, s: &Self::State) -> (b: bool)
        ensures
            b == self.is_terminal(*s),
    ;
}

/// One observed step: `action` taken in `state` gave `reward` and led to
/// `next_state`.
pub struct Transition<S, A> {
    pub state: S,
    pub action: A,
    pub next_state: S,
    pub reward: i64,
}

/// The greatest value that `q` holds for `s` among the actions of the task.
pub open spec fn best_value<T: QLearningTask>(task: T, q: Map<u128, i64>, s: T::State) -> i64 {
    greatest(action_values(q, s, task.spec_action_space(s)))
}

/// What a step aims at: its reward plus the discounted best value of the
/// state that it leads to.
pub open spec fn target_of<T: QLearningTask>(
    task: T,
    q: Map<u128, i64>,
    step: Transition<T::State, T::Action>,
) -> i64 {
    sum(step.reward, product(task.spec_gamma(), best_value(task, q, step.next_state)))
}

/// The value that one step teaches: the old value moved by the fraction
/// `alpha` toward the target of the step.
pub open spec fn learned_value<T: QLearningTask>(
    task: T,
    q: Map<u128, i64>,
    step: Transition<T::State, T::Action>,
    alpha: i64,
) -> i64 {
    nudged(
        value_at(q, pair_index(step.state.state_index(), step.action.action_index())),
        target_of(task, q, step),
        alpha,
    )
}

/// With a learning rate between zero and one, a step leaves the value
/// between what it was and the target that the step aims at.
pub proof fn lemma_learned_value_is_between<T: QLearningTask>(
    task: T,
    q: Map<u128, i64>,
    step: Transition<T::State, T::Action>,
    alpha: i64,
)
    requires
        0 <= alpha <= ONE,
    ensures
        ({
            let old_q = value_at(
                q,
                pair_index(step.state.state_index(), step.action.action_index()),
            );
            let target = target_of(task, q, step);
            let new_q = learned_value(task, q, step, alpha);
            &&& old_q <= target ==> old_q <= new_q <= target
            &&& target <= old_q ==> target <= new_q <= old_q
        }),
{
    lemma_nudged_stays_between(
        value_at(q, pair_index(step.state.state_index(), step.action.action_index())),
        target_of(task, q, step),
        alpha,
    );
}

/// The table after it has learned from one step.
pub open spec fn learned<T: QLearningTask>(
    task: T,
    q: Map<u128, i64>,
    step: Transition<T::State, T::Action>,
    alpha: i64,
) -> Map<u128, i64> {
    q.insert(
        pair_index(step.state.state_index(), step.action.action_index()),
        learned_value(task, q, step, alpha),
    )
}

/// The table after it has learned from each step of `trace` in turn.
pub open spec fn replayed<T: QLearningTask>(
    task: T,
    q: Map<u128, i64>,
    trace: Seq<Transition<T::State, T::Action>>,
    alpha: i64,
) -> Map<u128, i64>
    decreases trace.len(),
{
    if trace.len() == 0 {
        q
    } else {
        learned(task, replayed(task, q, trace.drop_last(), alpha), trace.last(), alpha)
    }
}

/// Whether `step` is a step that the task allows: an action of a state in
/// which an episode goes on, with an outcome that the task can produce.
pub open spec fn allowed<T: QLearningTask>(task: T, step: Transition<T::State, T::Action>) -> bool {
    &&& task.is_state(step.state)
    &&& !task.is_terminal(step.state)
    &&& task.spec_action_space(step.state).contains(step.action)
    &&& task.is_state(step.next_state)
    &&& task.may_follow(step.state, step.action, step.next_state, step.reward)
}

/// Whether `walk` is a run of steps that the task allows, each starting
/// where the one before it ended.
pub open spec fn is_walk<T: QLearningTask>(
    task: T,
    walk: Seq<Transition<T::State, T::Action>>,
) -> bool {
    &&& forall|i: int| 0 <= i < walk.len() ==> allowed(task, #[trigger] walk[i])
    &&& forall|i: int|
        0 <= i < walk.len() - 1 ==> (#[trigger] walk[i]).next_state == walk[i + 1].state
}

/// Whether `walk` is a whole episode: it is a walk from a state in which
/// an episode can start, and it ends in a terminal state unless it was cut
/// off at [`EPISODE_LIMIT`] steps. Only an episode that starts in a
/// terminal state has no step.
pub open spec fn is_episode<T: QLearningTask>(
    task: T,
    walk: Seq<Transition<T::State, T::Action>>,
) -> bool {
    &&& is_walk(task, walk)
    &&& walk.len() > 0 ==> task.may_start(walk[0].state)
    &&& walk.len() == 0 ==> exists|s: T::State|
        task.is_state(s) && #[trigger] task.may_start(s) && task.is_terminal(s)
    &&& 0 < walk.len() < EPISODE_LIMIT ==> task.is_terminal(walk.last().next_state)
}

/// Whether the action of `step` is one that `q` rates best in the state of
/// the step.
pub open spec fn is_greedy<T: QLearningTask>(
    task: T,
    q: Map<u128, i64>,
    step: Transition<T::State, T::Action>,
) -> bool {
    achievers(
        task.spec_action_space(step.state),
        action_values(q, step.state, task.spec_action_space(step.state)),
        best_value(task, q, step.state),
    ).contains(step.action)
}

/// Whether every step of `walk` takes an action that the table rates best
/// as it stands when the step is made: the table `q` after it has learned
/// from the steps before.
pub open spec fn is_greedy_walk<T: QLearningTask>(
    task: T,
    q: Map<u128, i64>,
    walk: Seq<Transition<T::State, T::Action>>,
    alpha: i64,
) -> bool {
    forall|i: int|
        0 <= i < walk.len() ==> is_greedy(
            task,
            replayed(task, q, #[trigger] walk.take(i), alpha),
            walk[i],
        )
}

/// The table after it has learned from each step of each of `walks` in
/// turn.
pub open spec fn replayed_all<T: QLearningTask>(
    task: T,
    q: Map<u128, i64>,
    walks: Seq<Seq<Transition<T::State, T::Action>>>,
    alpha: i64,
) -> Map<u128, i64>
    decreases walks.len(),
{
    if walks.len() == 0 {
        q
    } else {
        replayed(task, replayed_all(task, q, walks.drop_last(), alpha), walks.last(), alpha)
    }
}

/// A learner that runs Q-learning on a task.
pub struct QLearning<T: QLearningTask> {
    task: T,
}

impl<T: QLearningTask> QLearning<T> {
    /// The task that this learner works on.
    pub closed spec fn model(&self) -> T {
        self.task
    }

    /// A learner for `task`.
    pub fn new(task: T) -> (this: Self)
        ensures
            this.model() == task,
    {
        Self { task }
    }

    /// The greatest value that `value` holds for `s`, and every action of
    /// `s` that has exactly that value.
    pub fn max_value_by_actions(
        &self,
        value: &HashMap<u128, i64>,
        s: &T::State,
    ) -> (r: (i64, Vec<T::Action>))
        requires
            self.model().is_state(*s),
        ensures
            r.0 == best_value(self.model(), value@, *s),
            r.1@ == achievers(
                self.model().spec_action_space(*s),
                action_values(value@, *s, self.model().spec_action_space(*s)),
                r.0,
            ),
    {
        let actions = self.task.action_space(s);
        max_value_by_actions(value, s, &actions)
    }

    /// The action that the behaviour policy takes in `s`: with probability
    /// `prob_explore` any action, and otherwise one of the actions that
    /// `value` rates best.
    pub fn choose_action(
        &self,
        value: &HashMap<u128, i64>,
        s: &T::State,
        prob_explore: u64,
    ) -> (a: T::Action)
        requires
            self.model().is_state(*s),
            !self.model().is_terminal(*s),
        ensures
            self.model().spec_action_space(*s).contains(a),
            prob_explore == 0 ==> achievers(
                self.model().spec_action_space(*s),
                action_values(value@, *s, self.model().spec_action_space(*s)),
                best_value(self.model(), value@, *s),
            ).contains(a),
    {
        proof {
            self.model().live_states_have_actions(*s);
        }
        let rnd: u64 = uniform_below(CERTAIN);
        if rnd < prob_explore {
            self.task.random_action(s)
        } else {
            let (top, best) = self.max_value_by_actions(value, s);
            proof {
                let actions = self.model().spec_action_space(*s);
                let values = action_values(value@, *s, actions);
                lemma_greatest_is_attained(values);
                let i = choose|i: int| 0 <= i < values.len() && values[i] == greatest(values);
                lemma_achievers_hold_every_tie(actions, values, top, i);
            }
            let a: T::Action = pick(&best).unwrap();
            proof {
                let actions = self.model().spec_action_space(*s);
                let values = action_values(value@, *s, actions);
                let j = choose|j: int| 0 <= j < best@.len() && best@[j] == a;
                lemma_achievers_hold_only_ties(actions, values, top, j);
            }
            a
        }
    }

    /// Learns from one step: moves the value of `a` in `s` toward the
    /// reward `r` plus the discounted best value of `s_next`.
    pub fn update(
        &self,
        value: &mut HashMap<u128, i64>,
        s: &T::State,
        a: &T::Action,
        s_next: &T::State,
        r: i64,
        alpha: i64,
    )
        requires
            self.model().is_state(*s_next),
        ensures
            final(value)@ == learned(
                self.model(),
                old(value)@,
                (Transition { state: *s, action: *a, next_state: *s_next, reward: r }),
                alpha,
            ),
    {
        let state_then_action = StateActionPair { state: *s, action: *a };
        let key: u128 = state_then_action.key();
        let q_sa: i64 = lookup(value, key);
        let (next_max_value, _) = self.max_value_by_actions(value, s_next);
        let target: i64 = fx_add(r, fx_mul(self.task.gamma(), next_max_value));
        let new_q_sa: i64 = fx_nudge(q_sa, target, alpha);
        value.insert(key, new_q_sa);
    }

    /// Runs `num_episodes` episodes, each from a state that the task draws
    /// to a terminal state (or for [`EPISODE_LIMIT`] steps), and learns from
    /// every step as it is made. The table ends as the one that has learned,
    /// in turn, from each step of that many episodes of the task. Without
    /// exploration every step takes an action that the table rates best
    /// as it then stands.
    pub fn value_evaluation(
        &self,
        value: &mut HashMap<u128, i64>,
        prob_explore: u64,
        alpha: i64,
        num_episodes: usize,
    )
        ensures
            exists|walks: Seq<Seq<Transition<T::State, T::Action>>>|
                {
                    &&& walks.len() == num_episodes
                    &&& forall|i: int|
                        0 <= i < walks.len() ==> is_episode(self.model(), #[trigger] walks[i])
                    &&& final(value)@ == #[trigger] replayed_all(
                        self.model(),
                        old(value)@,
                        walks,
                        alpha,
                    )
                    &&& prob_explore == 0 ==> forall|k: int|
                        0 <= k < walks.len() ==> is_greedy_walk(
                            self.model(),
                            replayed_all(
                                self.model(),
                                old(value)@,
                                #[trigger] walks.take(k),
                                alpha,
                            ),
                            walks[k],
                            alpha,
                        )
                },
    {
        let ghost mut walks: Seq<Seq<Transition<T::State, T::Action>>> = Seq::empty();
        let mut episode: usize = 0;
        while episode < num_episodes
            invariant
                episode <= num_episodes,
                walks.len() == episode,
                forall|i: int|
                    0 <= i < walks.len() ==> is_episode(self.model(), #[trigger] walks[i]),
                value@ == replayed_all(self.model(), old(value)@, walks, alpha),
                prob_explore == 0 ==> forall|k: int|
                    0 <= k < walks.len() ==> is_greedy_walk(
                        self.model(),
                        replayed_all(self.model(), old(value)@, #[trigger] walks.take(k), alpha),
                        walks[k],
                        alpha,
                    ),
            decreases num_episodes - episode,
        {
            let ghost mut walk: Seq<Transition<T::State, T::Action>> = Seq::empty();
            let ghost before = value@;
            // the behaviour policy is epsilon-greedy
            let mut s: T::State = self.task.random_state();
            let ghost first = s;
            let mut steps: u64 = 0;
            while !self.task.in_terminal_state_space(&s) && steps < EPISODE_LIMIT
                invariant
                    steps <= EPISODE_LIMIT,
                    walk.len() == steps,
                    self.model().is_state(first),
                    self.model().may_start(first),
                    walk.len() == 0 ==> s == first,
                    walk.len() > 0 ==> walk[0].state == first,
                    self.model().is_state(s),
                    is_walk(self.model(), walk),
                    walk.len() > 0 ==> walk.last().next_state == s,
                    value@ == replayed(self.model(), before, walk, alpha),
                    prob_explore == 0 ==> is_greedy_walk(self.model(), before, walk, alpha),
                decreases EPISODE_LIMIT - steps,
            {
                let a: T::Action = self.choose_action(value, &s, prob_explore);
                let (s_next, r) = self.task.transit(&s, &a);
                self.update(value, &s, &a, &s_next, r, alpha);
                proof {
                    let step = Transition { state: s, action: a, next_state: s_next, reward: r };
                    let longer = walk.push(step);
                    assert(longer.drop_last() =~= walk);
                    assert forall|i: int| 0 <= i <= walk.len() implies #[trigger] longer.take(i)
                        == walk.take(i) by {
                        assert(longer.take(i) =~= walk.take(i));
                    }
                    assert(walk.take(walk.len() as int) =~= walk);
                    walk = longer;
                }
                s = s_next;
                steps += 1;
            }
            proof {
                let more = walks.push(walk);
                assert(more.drop_last() =~= walks);
                assert forall|k: int| 0 <= k <= walks.len() implies #[trigger] more.take(k)
                    == walks.take(k) by {
                    assert(more.take(k) =~= walks.take(k));
                }
                assert(walks.take(walks.len() as int) =~= walks);
                walks = more;
            }
            episode += 1;
        }
    }
}

} // verus!
