use reinforcement_learning::monte_carlo::{MonteCarlo, MonteCarloTask, Step};
use reinforcement_learning::q_learning::{QLearning, QLearningTask};
use reinforcement_learning::value_iteration::{Probability, ValueIteration, ValueIterationTask};
use reinforcement_learning::{StateActionPair, StateKey};
use std::collections::HashMap;
use vstd::seq::Seq;

const ONE: i64 = 1_000_000_000;
const CERTAIN: u64 = 10_000_000_000_000_000;

/// A corridor of five cells. Cell 0 and cell 4 end the walk; stepping into
/// cell 4 pays 1. A step goes where it is meant to go.
struct Corridor;

const LEFT: i32 = 0;
const RIGHT: i32 = 1;

fn step(s: i32, a: i32) -> (i32, i64) {
    let next = if a == RIGHT { s + 1 } else { s - 1 };
    (next, if next == 4 { ONE } else { 0 })
}

impl ValueIterationTask for Corridor {
    type State = i32;
    type Action = i32;

    fn spec_gamma(&self) -> i64 {
        unreachable!()
    }

    fn is_state(&self, _: i32) -> bool {
        unreachable!()
    }

    fn spec_state_space(&self) -> Seq<i32> {
        unreachable!()
    }

    fn spec_terminal_state_space(&self) -> Seq<i32> {
        unreachable!()
    }

    fn spec_action_space(&self, _: i32) -> Seq<i32> {
        unreachable!()
    }

    fn spec_possibilities(&self, _: i32, _: i32) -> Seq<Probability<i32>> {
        unreachable!()
    }

    fn discount_is_a_fraction(&self) {
    }

    fn state_space_is_sound(&self) {
    }

    fn probabilities_are_conserved(&self, _: i32, _: i32) {
    }

    fn gamma(&self) -> i64 {
        900_000_000
    }

    fn possibilities(&self, s: &i32, a: &i32) -> Vec<Probability<i32>> {
        let (next_state, reward) = step(*s, *a);
        vec![Probability { probability: CERTAIN, next_state, reward }]
    }

    fn action_space(&self, _s: &i32) -> Vec<i32> {
        vec![LEFT, RIGHT]
    }

    fn state_space(&self) -> Vec<i32> {
        vec![1, 2, 3]
    }

    fn terminal_state_space(&self) -> Vec<i32> {
        vec![0, 4]
    }
}

impl MonteCarloTask for Corridor {
    type State = i32;
    type Action = i32;

    fn spec_gamma(&self) -> i64 {
        unreachable!()
    }

    fn is_state(&self, _: i32) -> bool {
        unreachable!()
    }

    fn spec_action_space(&self, _: i32) -> Seq<i32> {
        unreachable!()
    }

    fn is_terminal(&self, _: i32) -> bool {
        unreachable!()
    }

    fn may_start(&self, _: i32) -> bool {
        unreachable!()
    }

    fn may_follow(&self, _: i32, _: i32, _: i32, _: i64) -> bool {
        unreachable!()
    }

    fn live_states_have_actions(&self, _: i32) {
    }

    fn gamma(&self) -> i64 {
        900_000_000
    }

    fn action_space(&self, _s: &i32) -> Vec<i32> {
        vec![LEFT, RIGHT]
    }

    fn action_space_len(&self, _s: &i32) -> usize {
        2
    }

    fn random_action(&self, _s: &i32) -> i32 {
        if rand::random::<bool>() { LEFT } else { RIGHT }
    }

    fn random_state(&self) -> i32 {
        2
    }

    fn transit(&self, s: &i32, a: &i32) -> (i32, i64) {
        step(*s, *a)
    }

    fn in_terminal_state_space(&self, s: &i32) -> bool {
        *s == 0 || *s == 4
    }
}

impl QLearningTask for Corridor {
    type State = i32;
    type Action = i32;

    fn spec_gamma(&self) -> i64 {
        unreachable!()
    }

    fn is_state(&self, _: i32) -> bool {
        unreachable!()
    }

    fn spec_action_space(&self, _: i32) -> Seq<i32> {
        unreachable!()
    }

    fn is_terminal(&self, _: i32) -> bool {
        unreachable!()
    }

    fn may_start(&self, _: i32) -> bool {
        unreachable!()
    }

    fn may_follow(&self, _: i32, _: i32, _: i32, _: i64) -> bool {
        unreachable!()
    }

    fn live_states_have_actions(&self, _: i32) {
    }

    fn gamma(&self) -> i64 {
        900_000_000
    }

    fn action_space(&self, _s: &i32) -> Vec<i32> {
        vec![LEFT, RIGHT]
    }

    fn action_space_len(&self, _s: &i32) -> usize {
        2
    }

    fn random_action(&self, _s: &i32) -> i32 {
        if rand::random::<bool>() { LEFT } else { RIGHT }
    }

    fn random_state(&self) -> i32 {
        2
    }

    fn transit(&self, s: &i32, a: &i32) -> (i32, i64) {
        step(*s, *a)
    }

    fn in_terminal_state_space(&self, s: &i32) -> bool {
        *s == 0 || *s == 4
    }
}

fn exact_values() -> (HashMap<u128, i64>, ValueIteration<Corridor>) {
    let solver = ValueIteration::new(Corridor);
    let mut v: HashMap<u128, i64> = HashMap::new();
    solver.value_iteration(1, &mut v);
    (v, solver)
}

#[test]
fn value_iteration_solves_the_corridor() {
    let (v, solver) = exact_values();
    assert_eq!(v[&1i32.state_key()], 810_000_000);
    assert_eq!(v[&2i32.state_key()], 900_000_000);
    assert_eq!(v[&3i32.state_key()], ONE);
    assert_eq!(v[&0i32.state_key()], 0);
    assert_eq!(v[&4i32.state_key()], 0);
    for s in [1, 2, 3] {
        assert_eq!(solver.max_v_a(&v, &s).1, vec![RIGHT]);
    }
}

#[test]
fn q_learning_agrees_with_value_iteration() {
    let (v, solver) = exact_values();
    let learner = QLearning::new(Corridor);
    let mut q: HashMap<u128, i64> = HashMap::new();
    learner.value_evaluation(&mut q, CERTAIN / 2, ONE / 2, 2_000);
    for s in [1, 2, 3] {
        let exact = solver.max_v_a(&v, &s);
        let learned = learner.max_value_by_actions(&q, &s);
        assert_eq!(learned.1, exact.1, "state {}", s);
        let gap = (learned.0 - exact.0).abs() as f64 / ONE as f64;
        assert!(gap < 0.01, "state {}: {} against {}", s, learned.0, exact.0);
    }
    let key = StateActionPair { state: 3i32, action: RIGHT }.key();
    assert!((q[&key] - ONE).abs() <= 10);
}

#[test]
fn monte_carlo_agrees_with_value_iteration() {
    let (v, solver) = exact_values();
    let learner = MonteCarlo::new(Corridor);
    let mut q: HashMap<u128, i64> = HashMap::new();
    let mut c: HashMap<u128, i64> = HashMap::new();
    let mut pi: HashMap<u128, Vec<i32>> = HashMap::new();
    learner.policy_evaluation(&mut q, &mut c, &mut pi, CERTAIN / 2, 2_000);
    for s in [1, 2, 3] {
        let exact = solver.max_v_a(&v, &s);
        assert_eq!(pi[&s.state_key()], exact.1, "state {}", s);
    }
    let key = StateActionPair { state: 3i32, action: RIGHT }.key();
    assert_eq!(q[&key], ONE);
}

#[test]
fn returns_are_discounted_step_by_step() {
    let learner = MonteCarlo::new(Corridor);
    let mut q: HashMap<u128, i64> = HashMap::new();
    let mut c: HashMap<u128, i64> = HashMap::new();
    let mut pi: HashMap<u128, Vec<i32>> = HashMap::new();
    let episode = vec![
        Step { state: 1, action: RIGHT, reward: 0 },
        Step { state: 2, action: RIGHT, reward: 0 },
        Step { state: 3, action: RIGHT, reward: ONE },
    ];
    learner.learn_from_episode(&mut q, &mut c, &mut pi, &episode, CERTAIN / 2);
    assert_eq!(q[&StateActionPair { state: 3i32, action: RIGHT }.key()], ONE);
    assert_eq!(q[&StateActionPair { state: 2i32, action: RIGHT }.key()], 900_000_000);
    assert_eq!(q[&StateActionPair { state: 1i32, action: RIGHT }.key()], 810_000_000);
    // each greedy step multiplies the weight by 1 / (0.5 * 1 / 2)
    assert_eq!(c[&StateActionPair { state: 3i32, action: RIGHT }.key()], ONE);
    assert_eq!(c[&StateActionPair { state: 2i32, action: RIGHT }.key()], 4 * ONE);
    assert_eq!(c[&StateActionPair { state: 1i32, action: RIGHT }.key()], 16 * ONE);
}

#[test]
fn the_target_of_a_step_is_discounted() {
    let learner = QLearning::new(Corridor);
    let mut q: HashMap<u128, i64> = HashMap::new();
    q.insert(StateActionPair { state: 3i32, action: RIGHT }.key(), ONE);
    learner.update(&mut q, &2, &RIGHT, &3, 0, ONE / 2);
    assert_eq!(q[&StateActionPair { state: 2i32, action: RIGHT }.key()], 450_000_000);
    learner.update(&mut q, &2, &RIGHT, &3, 0, ONE / 2);
    assert_eq!(q[&StateActionPair { state: 2i32, action: RIGHT }.key()], 675_000_000);
    learner.update(&mut q, &1, &RIGHT, &2, ONE, ONE);
    assert_eq!(
        q[&StateActionPair { state: 1i32, action: RIGHT }.key()],
        ONE + 607_500_000
    );
}
