use reinforcement_learning::games::blackjack::{Action, Blackjack, State};
use reinforcement_learning::games::gambler::Gambler;
use reinforcement_learning::q_learning::{QLearning, EPISODE_LIMIT};
use reinforcement_learning::StateActionPair;
use std::collections::HashMap;

const ONE: i64 = 1_000_000_000;
const CERTAIN: u64 = 10_000_000_000_000_000;

fn key(state: i32, action: i32) -> u128 {
    StateActionPair { state, action }.key()
}

#[test]
fn a_step_moves_the_value_toward_the_reward() {
    let learner = QLearning::new(Gambler);
    let mut q = HashMap::new();
    learner.update(&mut q, &90, &10, &100, ONE, ONE / 10);
    assert_eq!(q[&key(90, 10)], 100_000_000);
    assert_eq!(q.len(), 1);
    learner.update(&mut q, &90, &10, &100, ONE, ONE / 10);
    assert_eq!(q[&key(90, 10)], 190_000_000);
    assert_eq!(q[&key(90, 10)] as f64 / ONE as f64, 0.19);
}

#[test]
fn a_step_bootstraps_from_the_best_next_value() {
    let learner = QLearning::new(Gambler);
    let mut q = HashMap::new();
    q.insert(key(50, 10), ONE / 2);
    q.insert(key(60, 3), 800_000_000);
    q.insert(key(60, 70), 5 * ONE);
    q.insert(key(60, 4), 300_000_000);
    learner.update(&mut q, &50, &10, &60, 0, ONE / 10);
    // the target is 0.8: a bet of 70 cannot be made from 60
    assert_eq!(q[&key(50, 10)], 530_000_000);
    assert_eq!(q.len(), 4);
}

#[test]
fn a_step_can_lower_a_value() {
    let learner = QLearning::new(Gambler);
    let mut q = HashMap::new();
    q.insert(key(10, 10), ONE);
    learner.update(&mut q, &10, &10, &0, 0, ONE / 4);
    assert_eq!(q[&key(10, 10)], 750_000_000);
    learner.update(&mut q, &10, &10, &0, 0, ONE);
    assert_eq!(q[&key(10, 10)], 0);
}

#[test]
fn a_step_rounds_down() {
    let learner = QLearning::new(Gambler);
    let mut q = HashMap::new();
    q.insert(key(10, 10), 1);
    learner.update(&mut q, &10, &10, &0, 0, ONE / 2);
    // half of one unit down from 1 is a whole unit down
    assert_eq!(q[&key(10, 10)], 0);
    q.insert(key(10, 10), -1);
    learner.update(&mut q, &10, &10, &0, 0, ONE / 2);
    // half of one unit up from -1 is nothing
    assert_eq!(q[&key(10, 10)], -1);
}

#[test]
fn the_best_value_is_taken_over_the_actions_of_the_state() {
    let learner = QLearning::new(Gambler);
    let mut q = HashMap::new();
    q.insert(key(3, 2), 7);
    q.insert(key(3, 3), 7);
    q.insert(key(3, 4), 9);
    q.insert(key(4, 1), 8);
    assert_eq!(learner.max_value_by_actions(&q, &3), (7, vec![2, 3]));
    assert_eq!(learner.max_value_by_actions(&q, &2), (0, vec![0, 1, 2]));
}

#[test]
fn without_exploration_the_best_action_is_taken() {
    let learner = QLearning::new(Gambler);
    let mut q = HashMap::new();
    q.insert(key(5, 3), ONE);
    for _ in 0..200 {
        assert_eq!(learner.choose_action(&q, &5, 0), 3);
    }
    q.insert(key(5, 1), ONE);
    let mut ones = 0;
    for _ in 0..400 {
        let a = learner.choose_action(&q, &5, 0);
        assert!(a == 1 || a == 3);
        if a == 1 {
            ones += 1;
        }
    }
    assert!(ones > 100 && ones < 300, "{}", ones);
}

#[test]
fn with_exploration_any_action_is_taken() {
    let learner = QLearning::new(Gambler);
    let mut q = HashMap::new();
    q.insert(key(5, 3), ONE);
    let mut seen = [false; 6];
    for _ in 0..1_000 {
        let a = learner.choose_action(&q, &5, CERTAIN);
        assert!((0..=5).contains(&a));
        seen[a as usize] = true;
    }
    assert!(seen.iter().all(|x| *x));
    let mut others = 0;
    for _ in 0..1_000 {
        if learner.choose_action(&q, &5, CERTAIN / 2) != 3 {
            others += 1;
        }
    }
    assert!(others > 250 && others < 600, "{}", others);
}

#[test]
fn no_episode_changes_nothing() {
    let learner = QLearning::new(Blackjack);
    let mut q = HashMap::new();
    q.insert(17, 4);
    learner.value_evaluation(&mut q, CERTAIN / 10, ONE / 10, 0);
    assert_eq!(q.len(), 1);
    assert_eq!(q[&17], 4);
}

#[test]
fn blackjack_values_stay_between_a_loss_and_a_win() {
    assert_eq!(EPISODE_LIMIT, u64::MAX);
    let learner = QLearning::new(Blackjack);
    let mut q = HashMap::new();
    learner.value_evaluation(&mut q, CERTAIN / 10, ONE / 10, 3_000);
    assert!(q.len() > 100);
    for value in q.values() {
        assert!((-ONE..=ONE).contains(value));
    }
    // hitting on 21 without an ace always loses
    let mut worst = HashMap::new();
    let hopeless = State { dealer: 10, me: 21, useful_ace: false, after_stick: false };
    for _ in 0..50 {
        let mut next = hopeless;
        let reward = next.me_get_card(10);
        learner.update(&mut worst, &hopeless, &Action::Hit, &next, reward, ONE / 2);
    }
    let learned = worst[&StateActionPair { state: hopeless, action: Action::Hit }.key()];
    assert!(learned < -ONE + 10, "{}", learned);
    assert_eq!(learner.max_value_by_actions(&worst, &hopeless).1, vec![Action::Stick]);
}

#[test]
fn the_gambler_learns_that_staking_all_at_50_wins_four_times_in_ten() {
    let learner = QLearning::new(Gambler);
    let mut q = HashMap::new();
    learner.value_evaluation(&mut q, CERTAIN / 10, ONE / 20, 3_000);
    for value in q.values() {
        assert!((0..=ONE).contains(value));
    }
    let mut sampled = HashMap::new();
    for _ in 0..2_000 {
        let (next, reward) = Gambler.transit(&50, &50);
        learner.update(&mut sampled, &50, &50, &next, reward, ONE / 100);
    }
    let learned = sampled[&key(50, 50)] as f64 / ONE as f64;
    assert!((learned - 0.4).abs() < 0.2, "{}", learned);
}
