use reinforcement_learning::games::blackjack::{Action, State};
use reinforcement_learning::{
    consider, lookup, max_value_by_actions, ActionKey, StateActionPair, StateKey,
};
use std::collections::HashMap;

const ONE: i64 = 1_000_000_000;

fn table_of(state: i32, values: &[(i32, i64)]) -> HashMap<u128, i64> {
    let mut table = HashMap::new();
    for (action, value) in values {
        table.insert(StateActionPair { state, action: *action }.key(), *value);
    }
    table
}

#[test]
fn ties_share_the_maximum() {
    let table = table_of(7, &[(0, ONE), (1, 2 * ONE), (2, 2 * ONE)]);
    let (best, achievers) = max_value_by_actions(&table, &7, &vec![0, 1, 2]);
    assert_eq!(best as f64 / ONE as f64, 2.0);
    assert_eq!(achievers, vec![1, 2]);
}

#[test]
fn two_equal_maxima_are_both_returned() {
    let table = table_of(3, &[(10, 5), (20, 5)]);
    let (best, achievers) = max_value_by_actions(&table, &3, &vec![10, 20]);
    assert_eq!(best, 5);
    assert_eq!(achievers, vec![10, 20]);
}

#[test]
fn a_difference_of_one_unit_is_no_tie() {
    let table = table_of(3, &[(10, 5), (20, 6), (30, 5)]);
    let (best, achievers) = max_value_by_actions(&table, &3, &vec![10, 20, 30]);
    assert_eq!(best, 6);
    assert_eq!(achievers, vec![20]);
}

#[test]
fn a_greater_value_replaces_the_list() {
    let table = table_of(0, &[(0, 1), (1, 1), (2, 3), (3, 2), (4, 3)]);
    let (best, achievers) = max_value_by_actions(&table, &0, &vec![0, 1, 2, 3, 4]);
    assert_eq!(best, 3);
    assert_eq!(achievers, vec![2, 4]);
}

#[test]
fn an_empty_table_ties_every_action_at_zero() {
    let table: HashMap<u128, i64> = HashMap::new();
    let (best, achievers) = max_value_by_actions(&table, &42, &vec![5, 6, 7]);
    assert_eq!(best, 0);
    assert_eq!(achievers, vec![5, 6, 7]);
}

#[test]
fn absent_entries_count_as_zero() {
    let table = table_of(1, &[(0, -ONE), (2, -3)]);
    let (best, achievers) = max_value_by_actions(&table, &1, &vec![0, 1, 2, 3]);
    assert_eq!(best, 0);
    assert_eq!(achievers, vec![1, 3]);
    assert_eq!(lookup(&table, StateActionPair { state: 1, action: 0 }.key()), -ONE);
    assert_eq!(lookup(&table, StateActionPair { state: 1, action: 1 }.key()), 0);
}

#[test]
fn entries_of_other_states_do_not_count() {
    let table = table_of(1, &[(0, 9 * ONE)]);
    let (best, achievers) = max_value_by_actions(&table, &2, &vec![0, 1]);
    assert_eq!(best, 0);
    assert_eq!(achievers, vec![0, 1]);
}

#[test]
fn no_action_gives_the_least_value() {
    let table = table_of(1, &[(0, ONE)]);
    let none: Vec<i32> = Vec::new();
    let (best, achievers) = max_value_by_actions(&table, &1, &none);
    assert_eq!(best, i64::MIN);
    assert!(achievers.is_empty());
}

#[test]
fn the_least_value_still_ties_with_itself() {
    let table = table_of(1, &[(0, i64::MIN), (1, i64::MIN)]);
    let (best, achievers) = max_value_by_actions(&table, &1, &vec![0, 1]);
    assert_eq!(best, i64::MIN);
    assert_eq!(achievers, vec![0, 1]);
}

#[test]
fn an_action_listed_twice_is_kept_twice() {
    let table = table_of(1, &[(4, 7)]);
    let (best, achievers) = max_value_by_actions(&table, &1, &vec![4, 4]);
    assert_eq!(best, 7);
    assert_eq!(achievers, vec![4, 4]);
}

#[test]
fn selection_works_on_the_states_of_a_game() {
    let state = State { dealer: 10, me: 15, useful_ace: false, after_stick: false };
    let mut table = HashMap::new();
    table.insert(StateActionPair { state, action: Action::Stick }.key(), -ONE / 2);
    table.insert(StateActionPair { state, action: Action::Hit }.key(), -ONE / 4);
    let (best, achievers) =
        max_value_by_actions(&table, &state, &vec![Action::Hit, Action::Stick]);
    assert_eq!(best, -ONE / 4);
    assert_eq!(achievers, vec![Action::Hit]);
}

#[test]
fn consider_follows_the_tie_rule() {
    let mut best = i64::MIN;
    let mut kept: Vec<i32> = Vec::new();
    consider(&mut best, &mut kept, 1, 10);
    assert_eq!((best, kept.clone()), (10, vec![1]));
    consider(&mut best, &mut kept, 2, 10);
    assert_eq!((best, kept.clone()), (10, vec![1, 2]));
    consider(&mut best, &mut kept, 3, 9);
    assert_eq!((best, kept.clone()), (10, vec![1, 2]));
    consider(&mut best, &mut kept, 4, 11);
    assert_eq!((best, kept.clone()), (11, vec![4]));
}

#[test]
fn integer_keys_keep_the_order_of_the_integers() {
    assert_eq!(0i32.state_key(), 1 << 31);
    assert_eq!((-1i32).state_key(), (1 << 31) - 1);
    assert_eq!(i32::MIN.state_key(), 0);
    assert_eq!(i32::MAX.state_key(), (1u128 << 32) - 1);
    assert_eq!(5i32.action_key(), (1 << 31) + 5);
    assert_eq!(i32::MIN.action_key(), 0);
}

#[test]
fn pair_keys_hold_both_parts() {
    let pair = StateActionPair { state: 3i32, action: -2i32 };
    assert_eq!(pair.key(), (((1u128 << 31) + 3) << 32) + (1 << 31) - 2);
    let lots: (u32, u32) = (3, 4);
    assert_eq!(lots.state_key(), (3u128 << 32) + 4);
    assert_eq!((u32::MAX, u32::MAX).state_key(), u64::MAX as u128);
}

#[test]
fn distinct_pairs_have_distinct_keys() {
    let mut seen = std::collections::HashSet::new();
    for state in -20..20 {
        for action in -20..20 {
            assert!(seen.insert(StateActionPair { state, action }.key()));
        }
    }
    assert_eq!(seen.len(), 1600);
}

#[test]
fn distinct_positions_have_distinct_keys() {
    let mut seen = std::collections::HashSet::new();
    for dealer in [0, 1, 11, 22, u32::MAX] {
        for me in [0, 12, 21, 32, u32::MAX] {
            for useful_ace in [false, true] {
                for after_stick in [false, true] {
                    let state = State { dealer, me, useful_ace, after_stick };
                    assert!(seen.insert(state.state_key()));
                    assert!(state.state_key() < 1u128 << 96);
                }
            }
        }
    }
    assert_eq!(Action::Hit.action_key(), 0);
    assert_eq!(Action::Stick.action_key(), 1);
}

#[test]
fn pairs_compare_by_their_parts() {
    let a = StateActionPair { state: 1i32, action: 2i32 };
    let b = StateActionPair { state: 1i32, action: 2i32 };
    let c = StateActionPair { state: 1i32, action: 3i32 };
    assert_eq!(a, b);
    assert_ne!(a, c);
    let copy = a;
    assert_eq!(copy.state, a.state);
}
