use reinforcement_learning::games::gambler::{Gambler, GAMMA, GOAL, HEAD_PROBABILITY};
use reinforcement_learning::monte_carlo::MonteCarloTask;
use reinforcement_learning::value_iteration::ValueIterationTask;

const ONE: i64 = 1_000_000_000;
const CERTAIN: u64 = 10_000_000_000_000_000;

#[test]
fn the_coin_shows_heads_four_times_in_ten() {
    assert_eq!(HEAD_PROBABILITY as f64 / CERTAIN as f64, 0.4);
    assert_eq!(GAMMA, ONE);
    assert_eq!(GOAL, 100);
    assert_eq!(ValueIterationTask::gamma(&Gambler), ONE);
    assert_eq!(MonteCarloTask::gamma(&Gambler), ONE);
}

#[test]
fn a_gambler_bets_nothing_or_any_part_of_the_stake() {
    assert_eq!(Gambler.action_space(&5), vec![0, 1, 2, 3, 4, 5]);
    assert_eq!(Gambler.action_space(&0), vec![0]);
    assert_eq!(Gambler.action_space(&100).len(), 101);
    assert!(Gambler.action_space(&-3).is_empty());
    assert_eq!(Gambler.action_space_len(&7), 8);
    for s in 0..=100 {
        assert_eq!(Gambler.action_space_len(&s), Gambler.action_space(&s).len());
    }
}

#[test]
fn the_open_stakes_run_from_1_to_99() {
    let states = Gambler.state_space();
    assert_eq!(states.len(), 99);
    assert_eq!(states[0], 1);
    assert_eq!(states[98], 99);
    for i in 0..99 {
        assert_eq!(states[i], i as i32 + 1);
    }
    assert_eq!(Gambler.terminal_state_space(), vec![0, 100]);
}

#[test]
fn the_game_ends_at_0_and_at_100() {
    assert!(Gambler.in_terminal_state_space(&0));
    assert!(Gambler.in_terminal_state_space(&100));
    for s in 1..100 {
        assert!(!Gambler.in_terminal_state_space(&s));
    }
}

#[test]
fn heads_wins_the_bet_and_tails_loses_it() {
    assert_eq!(Gambler.settle(&10, &5, true), (15, 0));
    assert_eq!(Gambler.settle(&10, &5, false), (5, 0));
    assert_eq!(Gambler.settle(&10, &10, false), (0, 0));
    assert_eq!(Gambler.settle(&10, &0, true), (10, 0));
    assert_eq!(Gambler.settle(&10, &0, false), (10, 0));
}

#[test]
fn reaching_the_goal_pays_one_and_the_stake_stops_there() {
    assert_eq!(Gambler.settle(&50, &50, true), (100, ONE));
    assert_eq!(Gambler.settle(&60, &50, true), (100, ONE));
    assert_eq!(Gambler.settle(&99, &1, true), (100, ONE));
    assert_eq!(Gambler.settle(&98, &1, true), (99, 0));
    assert_eq!(Gambler.settle(&100, &0, true), (100, ONE));
}

#[test]
fn a_bet_has_two_outcomes() {
    let outcomes = Gambler.possibilities(&60, &50);
    assert_eq!(outcomes.len(), 2);
    assert_eq!(outcomes[0].probability, 4_000_000_000_000_000);
    assert_eq!(outcomes[0].next_state, 100);
    assert_eq!(outcomes[0].reward, ONE);
    assert_eq!(outcomes[1].probability, 6_000_000_000_000_000);
    assert_eq!(outcomes[1].next_state, 10);
    assert_eq!(outcomes[1].reward, 0);
    let outcomes = Gambler.possibilities(&10, &5);
    assert_eq!((outcomes[0].next_state, outcomes[0].reward), (15, 0));
    assert_eq!((outcomes[1].next_state, outcomes[1].reward), (5, 0));
}

#[test]
fn the_outcomes_of_every_bet_carry_all_the_mass() {
    for s in 0..=100 {
        for a in Gambler.action_space(&s) {
            let outcomes = ValueIterationTask::possibilities(&Gambler, &s, &a);
            let mass: u64 = outcomes.iter().map(|x| x.probability).sum();
            assert_eq!(mass, CERTAIN, "stake {} bet {}", s, a);
            assert_eq!(mass as f64 / CERTAIN as f64, 1.0);
        }
    }
}

#[test]
fn a_transition_is_one_of_the_two_outcomes() {
    let mut heads = 0;
    let mut tails = 0;
    for _ in 0..2_000 {
        let r = Gambler.transit(&50, &20);
        if r == (70, 0) {
            heads += 1;
        } else {
            assert_eq!(r, (30, 0));
            tails += 1;
        }
    }
    assert!(heads > 500, "heads {}", heads);
    assert!(tails > 800, "tails {}", tails);
    for _ in 0..100 {
        let r = Gambler.transit(&90, &10);
        assert!(r == (100, ONE) || r == (80, 0));
    }
}

#[test]
fn random_bets_can_be_made() {
    let mut seen = [false; 6];
    for _ in 0..1_000 {
        let a = Gambler.random_action(&5);
        assert!((0..=5).contains(&a));
        seen[a as usize] = true;
    }
    assert!(seen.iter().all(|x| *x));
    assert_eq!(Gambler.random_action(&0), 0);
}

#[test]
fn random_stakes_are_open() {
    let mut least = 100;
    let mut most = 0;
    for _ in 0..5_000 {
        let s = Gambler.random_state();
        assert!((1..=99).contains(&s));
        assert!(!Gambler.in_terminal_state_space(&s));
        least = least.min(s);
        most = most.max(s);
    }
    assert!(least <= 5 && most >= 95);
}
