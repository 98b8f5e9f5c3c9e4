//! The gambler's problem.
//!
//! A gambler holds a stake between 0 and 100 and bets a part of it on the
//! toss of a coin. Heads wins the amount bet, tails loses it. The game ends
//! when the stake is gone or has reached 100; only reaching 100 pays.

use crate::fixed::{CERTAIN, ONE};
use crate::monte_carlo::MonteCarloTask;
use crate::q_learning::QLearningTask;
use crate::random::uniform_below;
use crate::value_iteration::{total_probability, Probability, ValueIterationTask};
use vstd::prelude::*;

verus! {

/// The discount factor: 1.0.
pub const GAMMA: i64 = ONE;

/// The probability of heads: 0.4.
pub const HEAD_PROBABILITY: u64 = 4_000_000_000_000_000;

/// The stake at which the gambler has won.
pub const GOAL: i32 = 100;

/// The stake that the gambler holds.
pub type State = i32;

/// The amount that the gambler bets.
pub type Action = i32;

/// The game.
pub struct Gambler;

/// Whether `s` is a stake of the game, the two final ones included.
pub open spec fn is_stake(s: State) -> bool {
    0 <= s <= GOAL
}

/// Whether the game is over at stake `s`.
pub open spec fn is_final(s: State) -> bool {
    s == 0 || s == GOAL
}

/// The bets that can be made from stake `s`: nothing, or any part of it.
pub open spec fn bets(s: State) -> Seq<Action> {
    Seq::new(
        if s >= 0 {
            (s + 1) as nat
        } else {
            0
        },
        |i: int| i as i32,
    )
}

/// The stakes at which the game goes on, in rising order.
pub open spec fn open_stakes() -> Seq<State> {
    Seq::new(99, |i: int| (i + 1) as i32)
}

/// The stakes at which the game is over.
pub open spec fn final_stakes() -> Seq<State> {
    seq![0i32, GOAL]
}

/// The stake after betting `a` from `s`, and the reward: heads wins the
/// bet, and pays where the goal is reached; tails loses the bet.
pub open spec fn outcome(s: State, a: Action, heads: bool) -> (State, i64) {
    if heads {
        let won = if s + a < GOAL {
            (s + a) as i32
        } else {
            GOAL
        };
        (
            won,
            if won == GOAL {
                ONE
            } else {
                0
            },
        )
    } else {
        ((s - a) as i32, 0)
    }
}

/// The two outcomes of a bet with their probabilities, heads first.
pub open spec fn both_outcomes(s: State, a: Action) -> Seq<Probability<State>> {
    seq![
        Probability {
            probability: HEAD_PROBABILITY,
            next_state: outcome(s, a, true).0,
            reward: outcome(s, a, true).1,
        },
        Probability {
            probability: (CERTAIN - HEAD_PROBABILITY) as u64,
            next_state: outcome(s, a, false).0,
            reward: outcome(s, a, false).1,
        },
    ]
}

/// Whether `next` and `reward` are what one side of the coin gives.
pub open spec fn some_toss_gives(s: State, a: Action, next: State, reward: i64) -> bool {
    exists|heads: bool| #[trigger] outcome(s, a, heads) == (next, reward)
}

/// The two outcomes of a bet carry all of the probability mass.
pub proof fn lemma_outcomes_are_certain(s: State, a: Action)
    ensures
        total_probability(both_outcomes(s, a)) == CERTAIN,
{
    let both = both_outcomes(s, a);
    let first = both.drop_last();
    assert(total_probability(first.drop_last()) == 0);
    assert(total_probability(first) == HEAD_PROBABILITY);
}

/// A bet from a stake of the game leads to a stake of the game.
pub proof fn lemma_bets_stay_in_game(s: State, a: Action, heads: bool)
    requires
        is_stake(s),
        bets(s).contains(a),
    ensures
        is_stake(outcome(s, a, heads).0),
        0 <= a <= s,
{
    let i = choose|i: int| 0 <= i < bets(s).len() && bets(s)[i] == a;
    assert(a == i);
}

impl Gambler {
    /// What the toss of the coin makes of a bet of `a` from `s`.
    pub fn settle(&self, s: &State, a: &Action, heads: bool) -> (r: (State, i64))
        requires
            is_stake(*s),
            0 <= *a <= *s,
        ensures
            r == outcome(*s, *a, heads),
    {
        if heads {
            let s_: i32 = if *s + *a < GOAL {
                *s + *a
            } else {
                GOAL
            };
            let r: i64 = if s_ == GOAL {
                ONE
            } else {
                0
            };
            (s_, r)
        } else {
            let s_: i32 = *s - *a;
            (s_, 0)
        }
    }

    /// The two outcomes of betting `a` from `s`, heads first, with their
    /// probabilities.
    pub fn possibilities(&self, s: &State, a: &Action) -> (r: Vec<Probability<State>>)
        requires
            is_stake(*s),
            0 <= *a <= *s,
        ensures
            r@ == both_outcomes(*s, *a),
            total_probability(r@) == CERTAIN,
    {
        let mut possibilities: Vec<Probability<State>> = Vec::new();
        {
            let (s_, reward) = self.settle(s, a, true);
            let possibility = Probability { probability: HEAD_PROBABILITY, next_state: s_, reward };
            possibilities.push(possibility);
        }
        {
            let (s_, reward) = self.settle(s, a, false);
            let possibility = Probability {
                probability: CERTAIN - HEAD_PROBABILITY,
                next_state: s_,
                reward,
            };
            possibilities.push(possibility);
        }
        proof {
            lemma_outcomes_are_certain(*s, *a);
        }
        possibilities
    }

    /// The bets that can be made from `s`, in rising order.
    pub fn action_space(&self, s: &State) -> (r: Vec<Action>)
        requires
            *s < i32::MAX,
        ensures
            r@ == bets(*s),
    {
        let mut actions: Vec<Action> = Vec::new();
        let mut a: i32 = 0;
        while a < *s + 1
            invariant
                *s < i32::MAX,
                0 <= a,
                *s >= 0 ==> a <= *s + 1,
                actions@ == Seq::new(
                    if *s >= 0 {
                        a as nat
                    } else {
                        0
                    },
                    |i: int| i as i32,
                ),
            decreases *s + 1 - a,
        {
            actions.push(a);
            a += 1;
        }
        actions
    }

    /// The stakes at which the game goes on, in rising order.
    pub fn state_space(&self) -> (r: Vec<State>)
        ensures
            r@ == open_stakes(),
    {
        let mut states: Vec<State> = Vec::new();
        let mut s: i32 = 1;
        while s < 99 + 1
            invariant
                1 <= s <= 100,
                states@ == Seq::new((s - 1) as nat, |i: int| (i + 1) as i32),
            decreases 100 - s,
        {
            states.push(s);
            s += 1;
        }
        states
    }

    /// The stakes at which the game is over.
    pub fn terminal_state_space(&self) -> (r: Vec<State>)
        ensures
            r@ == final_stakes(),
    {
        vec![0, GOAL]
    }

    /// The number of bets that can be made from `s`.
    pub fn action_space_len(&self, s: &State) -> (n: usize)
        requires
            *s < i32::MAX,
        ensures
            n == bets(*s).len(),
    {
        if *s < 0 {
            0
        } else {
            (*s + 1) as usize
        }
    }

    /// A bet drawn from those that can be made from `s`.
    pub fn random_action(&self, s: &State) -> (a: Action)
        requires
            0 <= *s < i32::MAX,
        ensures
            0 <= a <= *s,
            bets(*s).contains(a),
    {
        let a: i32 = uniform_below((*s + 1) as u64) as i32;
        assert(bets(*s)[a as int] == a);
        a
    }

    /// A stake at which the game goes on, drawn at random.
    pub fn random_state(&self) -> (s: State)
        ensures
            is_stake(s),
            !is_final(s),
    {
        let n: u64 = 99;
        1 + uniform_below(n) as i32
    }

    /// Bets `a` from `s` on a coin that shows heads with probability
    /// [`HEAD_PROBABILITY`].
    pub fn transit(&self, s: &State, a: &Action) -> (r: (State, i64))
        requires
            is_stake(*s),
            0 <= *a <= *s,
        ensures
            some_toss_gives(*s, *a, r.0, r.1),
            is_stake(r.0),
    {
        let rnd: u64 = uniform_below(CERTAIN);
        let r = self.settle(s, a, rnd < HEAD_PROBABILITY);
        r
    }

    /// Whether the game is over at stake `s`.
    pub fn in_terminal_state_space(&self, s: &State) -> (b: bool)
        ensures
            b == is_final(*s),
    {
        *s == 0 || *s == GOAL
    }
}

impl ValueIterationTask for Gambler {
    type State = State;

    type Action = Action;

    open spec fn spec_gamma(&self) -> i64 {
        GAMMA
    }

    open spec fn is_state(&self, s: State) -> bool {
        is_stake(s)
    }

    open spec fn spec_state_space(&self) -> Seq<State> {
        open_stakes()
    }

    open spec fn spec_terminal_state_space(&self) -> Seq<State> {
        final_stakes()
    }

    open spec fn spec_action_space(&self, s: State) -> Seq<Action> {
        bets(s)
    }

    open spec fn spec_possibilities(&self, s: State, a: Action) -> Seq<Probability<State>> {
        both_outcomes(s, a)
    }

    proof fn discount_is_a_fraction(&self) {
    }

    proof fn state_space_is_sound(&self) {
    }

    proof fn probabilities_are_conserved(&self, s: State, a: Action) {
        lemma_outcomes_are_certain(s, a);
    }

    fn gamma(&self) -> (g: i64) {
        GAMMA
    }

    fn possibilities(&self, s: &State, a: &Action) -> (r: Vec<Probability<State>>) {
        proof {
            lemma_bets_stay_in_game(*s, *a, true);
        }
        self.possibilities(s, a)
    }

    fn action_space(&self, s: &State) -> (r: Vec<Action>) {
        self.action_space(s)
    }

    fn state_space(&self) -> (r: Vec<State>) {
        self.state_space()
    }

    fn terminal_state_space(&self) -> (r: Vec<State>) {
        self.terminal_state_space()
    }
}

impl MonteCarloTask for Gambler {
    type State = State;

    type Action = Action;

    open spec fn spec_gamma(&self) -> i64 {
        GAMMA
    }

    open spec fn is_state(&self, s: State) -> bool {
        is_stake(s)
    }

    open spec fn spec_action_space(&self, s: State) -> Seq<Action> {
        bets(s)
    }

    open spec fn may_start(&self, s: State) -> bool {
        is_stake(s) && !is_final(s)
    }

    open spec fn is_terminal(&self, s: State) -> bool {
        is_final(s)
    }

    open spec fn may_follow(&self, s: State, a: Action, next: State, reward: i64) -> bool {
        some_toss_gives(s, a, next, reward)
    }

    proof fn live_states_have_actions(&self, s: State) {
    }

    fn gamma(&self) -> (g: i64) {
        GAMMA
    }

    fn action_space(&self, s: &State) -> (r: Vec<Action>) {
        self.action_space(s)
    }

    fn action_space_len(&self, s: &State) -> (n: usize) {
        self.action_space_len(s)
    }

    fn random_action(&self, s: &State) -> (a: Action) {
        self.random_action(s)
    }

    fn random_state(&self) -> (s: State) {
        self.random_state()
    }

    fn transit(&self, s: &State, a: &Action) -> (r: (State, i64)) {
        proof {
            lemma_bets_stay_in_game(*s, *a, true);
        }
        self.transit(s, a)
    }

    fn in_terminal_state_space(&self, s: &State) -> (b: bool) {
        self.in_terminal_state_space(s)
    }
}

impl QLearningTask for Gambler {
    type State = State;

    type Action = Action;

    open spec fn spec_gamma(&self) -> i64 {
        GAMMA
    }

    open spec fn is_state(&self, s: State) -> bool {
        is_stake(s)
    }

    open spec fn spec_action_space(&self, s: State) -> Seq<Action> {
        bets(s)
    }

    open spec fn may_start(&self, s: State) -> bool {
        is_stake(s) && !is_final(s)
    }

    open spec fn is_terminal(&self, s: State) -> bool {
        is_final(s)
    }

    open spec fn may_follow(&self, s: State, a: Action, next: State, reward: i64) -> bool {
        some_toss_gives(s, a, next, reward)
    }

    proof fn live_states_have_actions(&self, s: State) {
    }

    fn gamma(&self) -> (g: i64) {
        GAMMA
    }

    fn action_space(&self, s: &State) -> (r: Vec<Action>) {
        self.action_space(s)
    }

    fn action_space_len(&self, s: &State) -> (n: usize) {
        self.action_space_len(s)
    }

    fn random_action(&self, s: &State) -> (a: Action) {
        self.random_action(s)
    }

    fn random_state(&self) -> (s: State) {
        self.random_state()
    }

    fn transit(&self, s: &State, a: &Action) -> (r: (State, i64)) {
        proof {
            lemma_bets_stay_in_game(*s, *a, true);
        }
        self.transit(s, a)
    }

    fn in_terminal_state_space(&self, s: &State) -> (b: bool) {
        self.in_terminal_state_space(s)
    }
}

} // verus!
