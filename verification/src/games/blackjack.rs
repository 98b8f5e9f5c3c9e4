//! A simplified game of blackjack.
//!
//! The player holds a sum of cards and sees one card of the dealer. To hit
//! is to draw a card; a sum above 21 loses unless an ace that counts as 11
//! can be counted as 1 instead. To stick ends the player's turn: the dealer
//! draws one card, and the higher sum that is not above 21 wins.

use crate::fixed::ONE;
use crate::monte_carlo::{is_episode, plausible, MonteCarloTask, Step};
use crate::q_learning::QLearningTask;
use crate::random::{pick, toss, uniform_below};
use crate::{ActionKey, StateKey};
use vstd::prelude::*;

verus! {

/// The discount factor of the game: 1.0.
pub const GAMMA: i64 = ONE;

/// The game.
pub struct Blackjack;

/// What the player knows: the dealer's sum, the player's own sum, whether
/// the player holds an ace that counts as 11, and whether the player has
/// stuck.
#[derive(Clone, Copy, Hash, PartialEq, Eq, Debug, Structural)]
pub struct State {
    pub dealer: u32,
    pub me: u32,
    pub useful_ace: bool,
    pub after_stick: bool,
}

/// What the player can do.
#[derive(Clone, Copy, Hash, PartialEq, Eq, Debug, Structural)]
pub enum Action {
    Hit,
    Stick,
}

impl State {
    /// Whether the player's sum is above 21.
    pub open spec fn spec_me_busted(&self) -> bool {
        21 < self.me
    }

    /// Whether the dealer's sum is above 21.
    pub open spec fn spec_dealer_busted(&self) -> bool {
        21 < self.dealer
    }

    /// The state after the player has drawn `card`. An ace is counted as 1
    /// where the sum would otherwise be above 21.
    pub open spec fn after_hit(self, card: u32) -> State {
        let total = self.me + card;
        let ace = self.useful_ace || card == 11;
        if total > 21 && ace {
            State { me: (total - 10) as u32, useful_ace: false, ..self }
        } else {
            State { me: total as u32, useful_ace: ace, ..self }
        }
    }

    /// The reward for drawing `card`: a loss where it busts the player.
    pub open spec fn reward_of_hit(self, card: u32) -> i64 {
        if self.after_hit(card).spec_me_busted() {
            (-ONE) as i64
        } else {
            0
        }
    }

    /// The state after the player has stuck and the dealer has drawn
    /// `card`. An ace of the dealer is counted as 1 where the dealer's sum
    /// would otherwise be above 21.
    pub open spec fn after_stick_with(self, card: u32) -> State {
        let total = self.dealer + card;
        let ace = card == 11 || self.dealer == 11;
        State {
            dealer: if total > 21 && ace {
                (total - 10) as u32
            } else {
                total as u32
            },
            after_stick: true,
            ..self
        }
    }

    /// The reward for sticking when the dealer then draws `card`: a win
    /// where the dealer busts or ends below the player, nothing on a draw,
    /// a loss where the dealer ends above the player.
    pub open spec fn reward_of_stick(self, card: u32) -> i64 {
        let end = self.after_stick_with(card);
        if end.spec_dealer_busted() || end.dealer < end.me {
            ONE
        } else if end.dealer == end.me {
            0
        } else {
            (-ONE) as i64
        }
    }

    /// The outcome of taking `a` when the card drawn is `card`.
    pub open spec fn outcome(self, a: Action, card: u32) -> (State, i64) {
        match a {
            Action::Hit => (self.after_hit(card), self.reward_of_hit(card)),
            Action::Stick => (self.after_stick_with(card), self.reward_of_stick(card)),
        }
    }

    /// Whether the player's sum is above 21.
    #[verifier::when_used_as_spec(spec_me_busted)]
    pub fn me_busted(&self) -> (b: bool)
        ensures
            b == self.spec_me_busted(),
    {
        21 < self.me
    }

    /// Whether the dealer's sum is above 21.
    #[verifier::when_used_as_spec(spec_dealer_busted)]
    pub fn dealer_busted(&self) -> (b: bool)
        ensures
            b == self.spec_dealer_busted(),
    {
        21 < self.dealer
    }

    /// The player draws `card`. Returns the reward.
    pub fn me_get_card(&mut self, card: u32) -> (reward: i64)
        requires
            old(self).me + card <= u32::MAX,
        ensures
            *final(self) == old(self).after_hit(card),
            reward == old(self).reward_of_hit(card),
    {
        self.me += card;
        if card == 11 {
            self.useful_ace = true;
        }
        // an ace saves the player
        if self.me_busted() && self.useful_ace {
            self.me -= 10;
            self.useful_ace = false;
        }
        if self.me_busted() {
            return -ONE;
        }
        0
    }

    /// The player sticks and the dealer draws `card`. Returns the reward.
    pub fn dealer_get_card(&mut self, card: u32) -> (reward: i64)
        requires
            old(self).dealer + card <= u32::MAX,
        ensures
            *final(self) == old(self).after_stick_with(card),
            reward == old(self).reward_of_stick(card),
    {
        self.after_stick = true;
        let prev: u32 = self.dealer;
        self.dealer += card;
        let useful_ace = card == 11 || prev == 11;
        // an ace saves the dealer
        if self.dealer_busted() && useful_ace {
            self.dealer -= 10;
        }
        if self.dealer_busted() {
            return ONE;
        }
        if self.dealer < self.me {
            ONE
        } else if self.dealer == self.me {
            0
        } else {
            -ONE
        }
    }
}

impl StateKey for State {
    open spec fn state_index(self) -> u128 {
        (self.dealer * 0x4_0000_0000 + self.me * 4 + if self.useful_ace {
            2int
        } else {
            0int
        } + if self.after_stick {
            1int
        } else {
            0int
        }) as u128
    }

    proof fn state_index_fits(self) {
    }

    proof fn state_index_is_injective(self, other: Self) {
    }

    fn state_key(&self) -> (k: u128) {
        let ace: u128 = if self.useful_ace {
            2
        } else {
            0
        };
        let stick: u128 = if self.after_stick {
            1
        } else {
            0
        };
        self.dealer as u128 * 0x4_0000_0000 + self.me as u128 * 4 + ace + stick
    }
}

impl ActionKey for Action {
    open spec fn action_index(self) -> u128 {
        match self {
            Action::Hit => 0,
            Action::Stick => 1,
        }
    }

    proof fn action_index_fits(self) {
    }

    proof fn action_index_is_injective(self, other: Self) {
    }

    fn action_key(&self) -> (k: u128) {
        match self {
            Action::Hit => 0,
            Action::Stick => 1,
        }
    }
}

/// Whether `card` is the value of a card: 2 to 10, or 11 for an ace.
pub open spec fn is_card(card: u32) -> bool {
    2 <= card <= 11
}

/// The states of the game: the player's sum is at least 12, no sum is more
/// than one card above 21, and before the player sticks the dealer shows a
/// single card.
pub open spec fn is_position(s: State) -> bool {
    &&& 12 <= s.me <= 32
    &&& s.dealer <= 32
    &&& !s.after_stick ==> s.dealer <= 11
}

/// An episode ends when the player has stuck or is bust.
pub open spec fn is_over(s: State) -> bool {
    s.after_stick || s.spec_me_busted()
}

/// The two actions, hit first.
pub open spec fn both_actions() -> Seq<Action> {
    seq![Action::Hit, Action::Stick]
}

/// Whether `next` and `reward` are the outcome of `a` in `s` for some card.
pub open spec fn some_card_gives(s: State, a: Action, next: State, reward: i64) -> bool {
    exists|card: u32| is_card(card) && #[trigger] s.outcome(a, card) == (next, reward)
}

/// A bound on the steps that an episode can still take from `s`.
pub open spec fn steps_left(s: State) -> nat {
    if is_over(s) {
        0
    } else {
        (22 - s.me + if s.useful_ace {
            10int
        } else {
            0int
        }) as nat
    }
}

/// The most steps that an episode can take.
pub const LONGEST_EPISODE: u32 = 20;

/// Every step of an episode brings its end nearer, whatever the action and
/// whatever the card: the outcome is a state of the game again, and fewer
/// steps are left from it.
pub proof fn lemma_step_nears_end(s: State, a: Action, card: u32)
    requires
        is_position(s),
        !is_over(s),
        is_card(card),
    ensures
        is_position(s.outcome(a, card).0),
        steps_left(s.outcome(a, card).0) < steps_left(s),
        steps_left(s) <= LONGEST_EPISODE,
{
}

/// Episodes end: a run of states, each following from the one before by
/// some action and some card, and none but the last one terminal, has at
/// most `LONGEST_EPISODE` steps.
pub proof fn lemma_episodes_end(states: Seq<State>, actions: Seq<Action>, cards: Seq<u32>)
    requires
        states.len() > 0,
        actions.len() == states.len() - 1,
        cards.len() == states.len() - 1,
        is_position(states[0]),
        forall|i: int|
            0 <= i < states.len() - 1 ==> !is_over(#[trigger] states[i]) && is_card(cards[i])
                && states[i + 1] == states[i].outcome(actions[i], cards[i]).0,
    ensures
        states.len() - 1 + steps_left(states.last()) <= steps_left(states[0]),
        states.len() - 1 <= LONGEST_EPISODE,
    decreases states.len(),
{
    if states.len() > 1 {
        let front = states.drop_last();
        assert forall|i: int| 0 <= i < front.len() - 1 implies !is_over(#[trigger] front[i])
            && is_card(cards.drop_last()[i]) && front[i + 1] == front[i].outcome(
            actions.drop_last()[i],
            cards.drop_last()[i],
        ).0 by {
            assert(!is_over(states[i]));
        }
        lemma_episodes_end(front, actions.drop_last(), cards.drop_last());
        lemma_positions_persist(front, actions.drop_last(), cards.drop_last());
        let k = states.len() - 2;
        assert(!is_over(states[k]));
        assert(front.last() == states[k]);
        lemma_step_nears_end(states[k], actions[k], cards[k]);
    }
    if !is_over(states[0]) {
        assert(steps_left(states[0]) <= LONGEST_EPISODE);
    }
}

/// Every state of a run that starts in a state of the game is a state of
/// the game.
proof fn lemma_positions_persist(states: Seq<State>, actions: Seq<Action>, cards: Seq<u32>)
    requires
        states.len() > 0,
        actions.len() == states.len() - 1,
        cards.len() == states.len() - 1,
        is_position(states[0]),
        forall|i: int|
            0 <= i < states.len() - 1 ==> !is_over(#[trigger] states[i]) && is_card(cards[i])
                && states[i + 1] == states[i].outcome(actions[i], cards[i]).0,
    ensures
        is_position(states.last()),
    decreases states.len(),
{
    if states.len() > 1 {
        let front = states.drop_last();
        assert forall|i: int| 0 <= i < front.len() - 1 implies !is_over(#[trigger] front[i])
            && is_card(cards.drop_last()[i]) && front[i + 1] == front[i].outcome(
            actions.drop_last()[i],
            cards.drop_last()[i],
        ).0 by {
            assert(!is_over(states[i]));
        }
        lemma_positions_persist(front, actions.drop_last(), cards.drop_last());
        let k = states.len() - 2;
        assert(!is_over(states[k]));
        assert(front.last() == states[k]);
        lemma_step_nears_end(states[k], actions[k], cards[k]);
    }
}

/// An episode that the Monte Carlo learner generates has at least one step
/// and at most `LONGEST_EPISODE`.
pub proof fn lemma_episodes_are_short(episode: Seq<Step<State, Action>>)
    requires
        is_episode(Blackjack, episode),
    ensures
        0 < episode.len() <= LONGEST_EPISODE,
{
    if episode.len() > 0 {
        lemma_steps_left_run_out(episode, episode.len() - 1);
        assert(plausible(Blackjack, episode[episode.len() - 1]));
    }
}

/// Each step of an episode leaves at least one step fewer than the step
/// before it.
proof fn lemma_steps_left_run_out(episode: Seq<Step<State, Action>>, i: int)
    requires
        is_episode(Blackjack, episode),
        0 <= i < episode.len(),
    ensures
        is_position(episode[i].state),
        i + steps_left(episode[i].state) <= LONGEST_EPISODE,
    decreases i,
{
    assert(plausible(Blackjack, episode[i]));
    if i == 0 {
        let a = episode[0].action;
        lemma_step_nears_end(episode[0].state, a, 2);
    } else {
        lemma_steps_left_run_out(episode, i - 1);
        let before = episode[i - 1];
        assert(plausible(Blackjack, before));
        assert(some_card_gives(before.state, before.action, episode[i].state, before.reward));
        let card = choose|card: u32|
            is_card(card) && #[trigger] before.state.outcome(before.action, card) == (
                episode[i].state,
                before.reward,
            );
        lemma_step_nears_end(before.state, before.action, card);
    }
}

/// Draws a card from a deck without the court cards' names: a ten is four
/// times as likely as any other value.
pub fn gen_card() -> (card: u32)
    ensures
        is_card(card),
{
    let deck: Vec<u32> = vec![2, 3, 4, 5, 6, 7, 8, 9, 10, 10, 10, 10, 11];
    let card: u32 = pick(&deck).unwrap();
    proof {
        let i = choose|i: int| 0 <= i < deck@.len() && deck@[i] == card;
        assert(is_card(deck@[i]));
    }
    card
}

impl Blackjack {
    /// The actions of a state: to hit and to stick, whatever the state.
    pub fn action_space(&self, _s: &State) -> (r: Vec<Action>)
        ensures
            r@ == both_actions(),
    {
        vec![Action::Hit, Action::Stick]
    }

    /// The number of actions of a state.
    pub fn action_space_len(&self, _s: &State) -> (n: usize)
        ensures
            n == both_actions().len(),
    {
        2
    }

    /// Either action, drawn at random.
    pub fn random_action(&self, _s: &State) -> (a: Action)
        ensures
            both_actions().contains(a),
    {
        let n: u64 = uniform_below(2);
        let a: Action = Action::numbered(n);
        proof {
            assert(both_actions()[n as int] == a);
        }
        a
    }

    /// A state to start from: the dealer shows a card, the player holds 12
    /// to 21, with or without an ace that counts as 11.
    pub fn random_state(&self) -> (s: State)
        ensures
            is_position(s),
            !is_over(s),
            is_card(s.dealer),
    {
        let range: u64 = 10;
        State {
            dealer: gen_card(),
            me: 12 + uniform_below(range) as u32,
            useful_ace: toss(),
            after_stick: false,
        }
    }

    /// Takes `a` in `s` with a card drawn at random.
    pub fn transit(&self, s: &State, a: &Action) -> (r: (State, i64))
        requires
            s.me + 11 <= u32::MAX,
            s.dealer + 11 <= u32::MAX,
        ensures
            some_card_gives(*s, *a, r.0, r.1),
            is_position(*s) && !is_over(*s) ==> is_position(r.0),
    {
        let mut s_next: State = *s;
        let card: u32 = gen_card();
        let r: i64 = match a {
            Action::Hit => s_next.me_get_card(card),
            Action::Stick => s_next.dealer_get_card(card),
        };
        proof {
            if is_position(*s) && !is_over(*s) {
                lemma_step_nears_end(*s, *a, card);
            }
        }
        (s_next, r)
    }

    /// Whether the game is over in `s`.
    pub fn in_terminal_state_space(&self, s: &State) -> (b: bool)
        ensures
            b == is_over(*s),
    {
        if s.after_stick {
            return true;
        }
        if s.me_busted() {
            return true;
        }
        false
    }
}

impl MonteCarloTask for Blackjack {
    type State = State;

    type Action = Action;

    open spec fn spec_gamma(&self) -> i64 {
        GAMMA
    }

    open spec fn is_state(&self, s: State) -> bool {
        is_position(s)
    }

    open spec fn spec_action_space(&self, s: State) -> Seq<Action> {
        both_actions()
    }

    open spec fn may_start(&self, s: State) -> bool {
        is_position(s) && !is_over(s) && is_card(s.dealer)
    }

    open spec fn is_terminal(&self, s: State) -> bool {
        is_over(s)
    }

    open spec fn may_follow(&self, s: State, a: Action, next: State, reward: i64) -> bool {
        some_card_gives(s, a, next, reward)
    }

    proof fn live_states_have_actions(&self, s: State) {
    }

    fn gamma(&self) -> (g: i64) {
        GAMMA
    }

    fn action_space(&self, s: &State) -> (r: Vec<Action>) {
        self.action_space(s)
    }

    fn action_space_len(&self, s: &State) -> (n: usize) {
        self.action_space_len(s)
    }

    fn random_action(&self, s: &State) -> (a: Action) {
        self.random_action(s)
    }

    fn random_state(&self) -> (s: State) {
        self.random_state()
    }

    fn transit(&self, s: &State, a: &Action) -> (r: (State, i64)) {
        self.transit(s, a)
    }

    fn in_terminal_state_space(&self, s: &State) -> (b: bool) {
        self.in_terminal_state_space(s)
    }
}

impl QLearningTask for Blackjack {
    type State = State;

    type Action = Action;

    open spec fn spec_gamma(&self) -> i64 {
        GAMMA
    }

    open spec fn is_state(&self, s: State) -> bool {
        is_position(s)
    }

    open spec fn spec_action_space(&self, s: State) -> Seq<Action> {
        both_actions()
    }

    open spec fn may_start(&self, s: State) -> bool {
        is_position(s) && !is_over(s) && is_card(s.dealer)
    }

    open spec fn is_terminal(&self, s: State) -> bool {
        is_over(s)
    }

    open spec fn may_follow(&self, s: State, a: Action, next: State, reward: i64) -> bool {
        some_card_gives(s, a, next, reward)
    }

    proof fn live_states_have_actions(&self, s: State) {
    }

    fn gamma(&self) -> (g: i64) {
        GAMMA
    }

    fn action_space(&self, s: &State) -> (r: Vec<Action>) {
        self.action_space(s)
    }

    fn action_space_len(&self, s: &State) -> (n: usize) {
        self.action_space_len(s)
    }

    fn random_action(&self, s: &State) -> (a: Action) {
        self.random_action(s)
    }

    fn random_state(&self) -> (s: State) {
        self.random_state()
    }

    fn transit(&self, s: &State, a: &Action) -> (r: (State, i64)) {
        self.transit(s, a)
    }

    fn in_terminal_state_space(&self, s: &State) -> (b: bool) {
        self.in_terminal_state_space(s)
    }
}

impl Action {
    /// The action at place `n` of the action space: to hit at 0, to stick
    /// at 1.
    pub fn numbered(n: u64) -> (a: Action)
        requires
            n < both_actions().len(),
        ensures
            a == both_actions()[n as int],
    {
        if n == 0 {
            Action::Hit
        } else {
            Action::Stick
        }
    }
}

} // verus!
