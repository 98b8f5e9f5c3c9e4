use reinforcement_learning::games::jacks_car_rental::{
    poisson_2, poisson_3, poisson_4, JacksCarRental, GAMMA, MASS, OUTCOMES,
};
use reinforcement_learning::value_iteration::{ValueIteration, ValueIterationTask};
use reinforcement_learning::StateKey;
use std::collections::HashMap;

const ONE: i64 = 1_000_000_000;
const CERTAIN: u64 = 10_000_000_000_000_000;

#[test]
fn the_distributions_are_cut_off() {
    assert_eq!(poisson_2(), vec![1353, 2707, 2707, 1804, 902, 361, 120]);
    assert_eq!(poisson_3().len(), 8);
    assert_eq!(poisson_4().len(), 10);
    assert_eq!(poisson_2().iter().sum::<u64>(), 9954);
    assert_eq!(poisson_3().iter().sum::<u64>(), 9880);
    assert_eq!(poisson_4().iter().sum::<u64>(), 9919);
    assert_eq!(poisson_3()[2] as f64 / 10_000.0, 0.224);
    assert_eq!(GAMMA as f64 / ONE as f64, 0.9);
}

#[test]
fn up_to_five_cars_move_either_way() {
    let all: Vec<i32> = (-5..=5).collect();
    assert_eq!(JacksCarRental.action_space(&(10, 10)), all);
    assert_eq!(JacksCarRental.action_space(&(0, 3)), vec![-3, -2, -1, 0]);
    assert_eq!(JacksCarRental.action_space(&(20, 0)), vec![0, 1, 2, 3, 4, 5]);
    assert_eq!(JacksCarRental.action_space(&(20, 20)), vec![0]);
    assert_eq!(JacksCarRental.action_space(&(0, 0)), vec![0]);
    assert_eq!(JacksCarRental.action_space(&(18, 19)), vec![-2, -1, 0, 1]);
    assert_eq!(JacksCarRental.action_space(&(2, 7)), vec![-5, -4, -3, -2, -1, 0, 1, 2]);
}

#[test]
fn every_stock_but_the_empty_one_is_swept() {
    let states = JacksCarRental.state_space();
    assert_eq!(states.len(), 440);
    assert_eq!(states[0], (0, 1));
    assert_eq!(states[19], (0, 20));
    assert_eq!(states[20], (1, 0));
    assert_eq!(states[439], (20, 20));
    assert!(!states.contains(&(0, 0)));
    let mut sorted = states.clone();
    sorted.sort();
    sorted.dedup();
    assert_eq!(sorted, states);
    assert_eq!(JacksCarRental.terminal_state_space(), vec![(0, 0)]);
}

#[test]
fn a_day_has_4480_outcomes() {
    assert_eq!(OUTCOMES, 4480);
    let outcomes = JacksCarRental.possibilities(&(10, 10), &0);
    assert_eq!(outcomes.len(), 4480);
    let first = &outcomes[0];
    assert_eq!(first.probability, 498 * 498 * 1353 * 183);
    assert_eq!(first.probability, 61_405_542_396);
    assert_eq!(first.next_state, (10, 10));
    assert_eq!(first.reward, 0);
    let last = &outcomes[4479];
    assert_eq!(last.probability, 216 * 216 * 120 * 132);
    assert_eq!(last.next_state, (10, 7));
    assert_eq!(last.reward, 160 * ONE);
}

#[test]
fn the_outcomes_come_in_the_order_of_the_four_counts() {
    let outcomes = JacksCarRental.possibilities(&(10, 10), &0);
    // one more car asked for at the second lot
    assert_eq!(outcomes[1].probability, 498 * 498 * 1353 * 733);
    assert_eq!(outcomes[1].next_state, (10, 9));
    assert_eq!(outcomes[1].reward, 10 * ONE);
    // one more car brought back to the second lot
    assert_eq!(outcomes[10].probability, 498 * 498 * 2707 * 183);
    assert_eq!(outcomes[10].next_state, (10, 11));
    assert_eq!(outcomes[10].reward, 0);
    // one more car asked for at the first lot
    assert_eq!(outcomes[70].probability, 498 * 1494 * 1353 * 183);
    assert_eq!(outcomes[70].next_state, (9, 10));
    assert_eq!(outcomes[70].reward, 10 * ONE);
    // one more car brought back to the first lot
    assert_eq!(outcomes[560].probability, 1494 * 498 * 1353 * 183);
    assert_eq!(outcomes[560].next_state, (11, 10));
    assert_eq!(outcomes[560].reward, 0);
}

#[test]
fn moving_cars_costs_two_a_car() {
    let outcomes = JacksCarRental.possibilities(&(10, 10), &2);
    assert_eq!(outcomes[0].next_state, (8, 12));
    assert_eq!(outcomes[0].reward, -4 * ONE);
    let outcomes = JacksCarRental.possibilities(&(10, 10), &-3);
    assert_eq!(outcomes[0].next_state, (13, 7));
    assert_eq!(outcomes[0].reward, -6 * ONE);
    assert_eq!(outcomes[4479].next_state, (13, 6));
    assert_eq!(outcomes[4479].reward, (7 + 7) * 10 * ONE - 6 * ONE);
}

#[test]
fn no_more_cars_are_rented_than_there_are() {
    let outcomes = JacksCarRental.possibilities(&(1, 0), &0);
    let last = &outcomes[4479];
    assert_eq!(last.next_state, (7, 6));
    assert_eq!(last.reward, 10 * ONE);
    let outcomes = JacksCarRental.possibilities(&(20, 20), &0);
    // nothing asked for, seven and six cars brought back: the lots are full
    let full = &outcomes[7 * 560 + 6 * 10];
    assert_eq!(full.next_state, (20, 20));
    assert_eq!(full.reward, 0);
}

#[test]
fn the_outcomes_of_a_day_carry_the_mass_of_the_kept_tails() {
    assert_eq!(MASS, 9880 * 9880 * 9954 * 9919);
    let share = MASS as f64 / CERTAIN as f64;
    assert!(share > 0.96 && share < 0.97);
    let states = JacksCarRental.state_space();
    for (i, s) in states.iter().enumerate() {
        if i % 40 != 0 {
            continue;
        }
        for a in JacksCarRental.action_space(s) {
            let outcomes = ValueIterationTask::possibilities(&JacksCarRental, s, &a);
            let mass: u64 = outcomes.iter().map(|x| x.probability).sum();
            assert_eq!(mass, MASS, "stock {:?} move {}", s, a);
            for outcome in &outcomes {
                assert!(outcome.next_state.0 <= 20 && outcome.next_state.1 <= 20);
            }
        }
    }
}

#[test]
fn a_sweep_values_every_stock() {
    let solver = ValueIteration::new(JacksCarRental);
    let mut v = HashMap::new();
    let delta = solver.sweep(&mut v);
    assert_eq!(v.len(), 440);
    assert!(delta > 0);
    assert!(v.values().all(|value| *value > 0));
}

#[test]
fn the_lots_are_valued() {
    let solver = ValueIteration::new(JacksCarRental);
    let mut v = HashMap::new();
    let theta = 10 * ONE;
    let sweeps = solver.value_iteration(theta, &mut v);
    assert!(sweeps >= 2 && sweeps <= 50, "{} sweeps", sweeps);
    let value = |s: (u32, u32)| v[&s.state_key()];
    assert_eq!(value((0, 0)), 0);
    assert!(0 < value((1, 1)));
    assert!(value((1, 1)) < value((10, 10)));
    assert!(value((10, 10)) < value((20, 20)));
    // cars go from a full lot to an empty one
    assert!(solver.max_v_a(&v, &(20, 0)).1.iter().all(|a| *a > 0));
    assert!(solver.max_v_a(&v, &(0, 20)).1.iter().all(|a| *a < 0));
    let mut again = v.clone();
    assert!((solver.sweep(&mut again) as i128) < theta as i128);
}
