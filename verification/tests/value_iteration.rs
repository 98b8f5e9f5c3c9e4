use reinforcement_learning::games::gambler::Gambler;
use reinforcement_learning::games::jacks_car_rental::JacksCarRental;
use reinforcement_learning::value_iteration::{Probability, ValueIteration, SWEEP_LIMIT};
use reinforcement_learning::StateKey;
use std::collections::HashMap;

const ONE: i64 = 1_000_000_000;
const CERTAIN: u64 = 10_000_000_000_000_000;
const THETA: i64 = 10_000_000;

fn value(v: &HashMap<u128, i64>, s: i32) -> i64 {
    *v.get(&s.state_key()).unwrap_or(&0)
}

fn as_float(x: i64) -> f64 {
    x as f64 / ONE as f64
}

fn solved() -> (ValueIteration<Gambler>, HashMap<u128, i64>, u64) {
    let solver = ValueIteration::new(Gambler);
    let mut v = HashMap::new();
    for s in solver.task().state_space() {
        v.insert(s.state_key(), 0);
    }
    let sweeps = solver.value_iteration(THETA, &mut v);
    (solver, v, sweeps)
}

#[test]
fn the_gamblers_values_converge() {
    let (_, v, sweeps) = solved();
    assert!(sweeps >= 2 && sweeps < SWEEP_LIMIT);
    assert_eq!(as_float(THETA), 0.01);
    let v50 = as_float(value(&v, 50));
    let v99 = as_float(value(&v, 99));
    assert!(0.0 < v50 && v50 < v99, "{} {}", v50, v99);
    assert!(v99 < 1.0);
    assert_eq!(value(&v, 0), 0);
    assert_eq!(value(&v, 100), 0);
    assert_eq!(v.len(), 101);
}

#[test]
fn staking_all_at_50_is_worth_the_chance_of_heads() {
    let (solver, v, _) = solved();
    assert_eq!(value(&v, 50), 400_000_000);
    let (best, actions) = solver.max_v_a(&v, &50);
    assert_eq!(as_float(best), 0.4);
    assert!(actions.contains(&50));
}

#[test]
fn values_rise_with_the_stake() {
    let (_, v, _) = solved();
    for s in 1..99 {
        assert!(value(&v, s) <= value(&v, s + 1), "stake {}", s);
    }
    for s in 1..100 {
        assert!(value(&v, s) >= 0 && value(&v, s) <= ONE);
    }
}

#[test]
fn terminal_states_are_set_to_zero() {
    let solver = ValueIteration::new(Gambler);
    let mut v = HashMap::new();
    v.insert(0i32.state_key(), 5 * ONE);
    v.insert(100i32.state_key(), -7 * ONE);
    solver.value_iteration(THETA, &mut v);
    assert_eq!(v[&0i32.state_key()], 0);
    assert_eq!(v[&100i32.state_key()], 0);
    assert_eq!(value(&v, 50), 400_000_000);
}

#[test]
fn an_empty_table_counts_as_all_zero() {
    let (_, filled, sweeps) = solved();
    let solver = ValueIteration::new(Gambler);
    let mut v = HashMap::new();
    assert_eq!(solver.value_iteration(THETA, &mut v), sweeps);
    assert_eq!(v, filled);
}

#[test]
fn a_second_run_makes_one_sweep_and_changes_little() {
    let (solver, first, _) = solved();
    let mut second = first.clone();
    assert_eq!(solver.value_iteration(THETA, &mut second), 1);
    for s in 0..=100 {
        let moved = (value(&second, s) - value(&first, s)).abs();
        assert!(moved < THETA, "stake {} moved by {}", s, moved);
        assert!(as_float(moved) < 0.01);
    }
}

#[test]
fn the_first_sweep_after_convergence_is_below_theta() {
    let (solver, mut v, _) = solved();
    let delta = solver.sweep(&mut v);
    assert!((delta as i128) < THETA as i128);
}

#[test]
fn the_changes_of_sweeps_never_grow() {
    let solver = ValueIteration::new(Gambler);
    let mut v = HashMap::new();
    let mut last = u64::MAX;
    for _ in 0..12 {
        let delta = solver.sweep(&mut v);
        assert!(delta <= last, "{} after {}", delta, last);
        last = delta;
    }
    assert!(last < ONE as u64);
}

#[test]
fn a_sweep_reports_its_greatest_change() {
    let solver = ValueIteration::new(Gambler);
    let mut v = HashMap::new();
    let delta = solver.sweep(&mut v);
    let greatest = (1..100).map(|s| value(&v, s)).max().unwrap();
    assert_eq!(delta as i64, greatest);
    assert_eq!(value(&v, 50), 400_000_000);
    assert_eq!(value(&v, 0), 0);
    assert!(!v.contains_key(&0i32.state_key()));
}

#[test]
fn a_greater_theta_stops_sooner() {
    let solver = ValueIteration::new(Gambler);
    let mut v = HashMap::new();
    assert_eq!(solver.value_iteration(ONE, &mut v), 1);
    let (_, _, sweeps) = solved();
    assert!(sweeps > 1);
}

#[test]
fn every_bet_from_99_is_as_good_on_an_empty_table() {
    let solver = ValueIteration::new(Gambler);
    let v = HashMap::new();
    let (best, actions) = solver.max_v_a(&v, &99);
    assert_eq!(best, 400_000_000);
    let every_bet: Vec<i32> = (1..=99).collect();
    assert_eq!(actions, every_bet);
    let (best, actions) = solver.max_v_a(&v, &1);
    assert_eq!(best, 0);
    assert_eq!(actions, vec![0, 1]);
    let (best, actions) = solver.max_v_a(&v, &0);
    assert_eq!(best, 0);
    assert_eq!(actions, vec![0]);
}

#[test]
fn an_expected_value_weighs_reward_and_discounted_value() {
    let solver = ValueIteration::new(Gambler);
    let mut v = HashMap::new();
    let outcomes = Gambler.possibilities(&60, &50);
    assert_eq!(solver.expected_value(&v, &outcomes), 400_000_000);
    v.insert(10i32.state_key(), ONE / 2);
    assert_eq!(solver.expected_value(&v, &outcomes), 700_000_000);
    v.insert(100i32.state_key(), ONE / 4);
    assert_eq!(solver.expected_value(&v, &outcomes), 800_000_000);
}

#[test]
fn an_expected_value_is_discounted() {
    let solver = ValueIteration::new(JacksCarRental);
    let mut v = HashMap::new();
    v.insert((3u32, 4u32).state_key(), 10 * ONE);
    let outcomes =
        vec![Probability { probability: CERTAIN, next_state: (3u32, 4u32), reward: ONE }];
    assert_eq!(solver.expected_value(&v, &outcomes), 10 * ONE);
    let outcomes =
        vec![Probability { probability: CERTAIN / 2, next_state: (3u32, 4u32), reward: -ONE }];
    assert_eq!(solver.expected_value(&v, &outcomes), 4 * ONE);
}

#[test]
fn an_expected_value_is_rounded_down() {
    let solver = ValueIteration::new(Gambler);
    let v = HashMap::new();
    let third = CERTAIN / 3;
    let gain = vec![Probability { probability: third, next_state: 1, reward: ONE }];
    assert_eq!(solver.expected_value(&v, &gain), 333_333_333);
    let loss = vec![Probability { probability: third, next_state: 1, reward: -ONE }];
    assert_eq!(solver.expected_value(&v, &loss), -333_333_334);
    let none: Vec<Probability<i32>> = Vec::new();
    assert_eq!(solver.expected_value(&v, &none), 0);
}

#[test]
fn an_expected_value_saturates() {
    let solver = ValueIteration::new(Gambler);
    let mut v = HashMap::new();
    v.insert(1i32.state_key(), i64::MAX);
    let outcomes = vec![Probability { probability: CERTAIN, next_state: 1, reward: i64::MAX }];
    assert_eq!(solver.expected_value(&v, &outcomes), i64::MAX);
    v.insert(1i32.state_key(), i64::MIN);
    let outcomes = vec![Probability { probability: CERTAIN, next_state: 1, reward: i64::MIN }];
    assert_eq!(solver.expected_value(&v, &outcomes), i64::MIN);
}

#[test]
fn leaving_the_cars_is_best_on_an_empty_table() {
    let solver = ValueIteration::new(JacksCarRental);
    let v = HashMap::new();
    let (best, actions) = solver.max_v_a(&v, &(10, 10));
    assert_eq!(best, 66_314_817_839);
    assert_eq!(actions, vec![0]);
    let outcomes = JacksCarRental.possibilities(&(10, 10), &1);
    assert_eq!(solver.expected_value(&v, &outcomes), 64_387_251_155);
}

#[test]
fn the_solver_hands_out_its_task() {
    let solver = ValueIteration::new(JacksCarRental);
    assert_eq!(solver.task().state_space().len(), 440);
    assert_eq!(solver.task().terminal_state_space(), vec![(0, 0)]);
}
