use std::collections::HashSet;

use finite_automata::state::{copy_states, members, same_states, sorted_members, StateSet};

#[test]
fn check_hash_of_empty() {
    let empty = HashSet::new();

    let empty1 = StateSet::new(empty.clone());
    let empty2 = StateSet::new(empty);
    assert_eq!(empty1, empty2);
}

#[test]
fn state_sets_are_compared_by_what_they_hold() {
    let first = StateSet::new(HashSet::from([3, 1, 2]));
    let second = StateSet::new(HashSet::from([2, 3, 1]));
    let third = StateSet::new(HashSet::from([1, 2]));
    let fourth = StateSet::new(HashSet::from([1, 2, 4]));
    assert_eq!(first, second);
    assert_ne!(first, third);
    assert_ne!(first, fourth);
    assert_eq!(first.clone(), first);
    assert!(first.states().contains(&3));
}

#[test]
fn copies_and_lists_hold_the_same_states() {
    let set = HashSet::from([5, 7, 9]);
    let copy = copy_states(&set);
    assert_eq!(copy, set);
    assert!(same_states(&copy, &set));
    let mut list = members(&set);
    list.sort();
    assert_eq!(list, vec![5, 7, 9]);
    assert!(!same_states(&set, &HashSet::from([5, 7])));
    assert!(!same_states(&set, &HashSet::from([5, 7, 8])));
}

#[test]
fn the_sorted_states_stand_for_the_set() {
    let first = StateSet::new(HashSet::from([9, 3, 7, 1]));
    let second = StateSet::new(HashSet::from([1, 7, 3, 9]));
    assert_eq!(first.sorted(), vec![1, 3, 7, 9]);
    assert_eq!(first.sorted(), second.sorted());
    assert_eq!(sorted_members(&HashSet::new()), Vec::<usize>::new());
    assert_eq!(sorted_members(&HashSet::from([4])), vec![4]);
}
