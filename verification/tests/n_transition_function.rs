use std::collections::HashSet;

use finite_automata::symbol_table::Symbol;
use finite_automata::transition_function::{BasicFunctionsForTransitions, NTransitionFunction};

#[test]
fn check_normal_and_multiple_transitions() {
    let mut nt = NTransitionFunction::new();
    let _ = nt
        .add_transition(&0, &Symbol::Character('a'), &1)
        .unwrap_or_else(|err| panic!("Error in adding transition : {}", err.to_string()));
    let _ = nt
        .add_transition(&0, &Symbol::Character('a'), &2)
        .unwrap_or_else(|err| panic!("Error in adding transition : {}", err.to_string()));

    assert!(nt.is_valid_transition(&0, &Symbol::Character('a')));
    assert!(nt.contains_transition(&0, &Symbol::Character('a'), &1));
    assert!(nt.contains_transition(&0, &Symbol::Character('a'), &2));
    assert_eq!(
        nt.get_transition(&0, &Symbol::Character('a')),
        Some(HashSet::from([1, 2]))
    );
}

#[test]
fn n_transition_function_check_adding_epsilon_transition() {
    let mut nt = NTransitionFunction::new();

    let _ = nt
        .add_transition(&0, &Symbol::Epsilon, &2)
        .unwrap_or_else(|err| panic!("Error in adding transition : {}", err.to_string()));
    assert!(nt.is_valid_transition(&0, &Symbol::Epsilon));
    assert!(nt.contains_transition(&0, &Symbol::Epsilon, &2));
    assert_eq!(nt.get_transition(&0, &Symbol::Epsilon), Some(HashSet::from([2])));
}

#[test]
fn check_adding_same_transition() {
    let mut nt = NTransitionFunction::new();
    let _ = nt
        .add_transition(&0, &Symbol::Character('a'), &1)
        .unwrap_or_else(|err| panic!("Error in adding transition : {}", err.to_string()));
    let result = nt.add_transition(&0, &Symbol::Character('a'), &1);

    assert!(result.is_err_and(|err| err.to_string().contains("Existing Transition")));
}

#[test]
fn check_adding_transitions_from_another_function() {
    let mut nt1 = NTransitionFunction::new();
    let _ = nt1
        .add_transition(&0, &Symbol::Character('a'), &1)
        .unwrap_or_else(|err| panic!("Error in adding transition : {}", err.to_string()));

    let mut nt2 = NTransitionFunction::new();
    let _ = nt2
        .add_transition(&0, &Symbol::Character('b'), &1)
        .unwrap_or_else(|err| panic!("Error in adding transition : {}", err.to_string()));

    let mut nt3 = NTransitionFunction::new();
    let _ = nt3
        .add_transition(&1, &Symbol::Character('b'), &4)
        .unwrap_or_else(|err| panic!("Error in adding transition : {}", err.to_string()));

    let mut nt4 = NTransitionFunction::new();
    let _ = nt4
        .add_transition(&5, &Symbol::Character('d'), &6)
        .unwrap_or_else(|err| panic!("Error in adding transition : {}", err.to_string()));

    let mut nt5 = NTransitionFunction::new();
    let _ = nt5
        .add_transition(&0, &Symbol::Character('a'), &5)
        .unwrap_or_else(|err| panic!("Error in adding transition : {}", err.to_string()));

    let nt = nt1.combine_transition(&nt2);
    let nt = nt.combine_transition(&nt3);
    let nt = nt.combine_transition(&nt4);
    let nt = nt.combine_transition(&nt5);

    assert!(nt.contains_transition(&0, &Symbol::Character('a'), &1));
    assert!(nt.contains_transition(&0, &Symbol::Character('a'), &5));
    assert!(nt.contains_transition(&0, &Symbol::Character('b'), &1));

    assert!(nt.contains_transition(&1, &Symbol::Character('b'), &4));

    assert!(nt.contains_transition(&5, &Symbol::Character('d'), &6));
}

#[test]
fn the_relation_moves_up_with_its_states() {
    let mut nt = NTransitionFunction::new();
    let _ = nt.add_transition(&0, &Symbol::Epsilon, &1);
    let _ = nt.add_transition(&1, &Symbol::Character('a'), &0);
    nt.extend(3);
    assert!(nt.contains_transition(&3, &Symbol::Epsilon, &4));
    assert!(nt.contains_transition(&4, &Symbol::Character('a'), &3));
    assert!(!nt.contains_transition(&0, &Symbol::Epsilon, &1));
    assert!(!nt.is_valid_transition(&0, &Symbol::Epsilon));
    assert_eq!(nt.get_transition(&0, &Symbol::Epsilon), None);
    assert_eq!(nt.clone().get_transition(&3, &Symbol::Epsilon), Some(HashSet::from([4])));
}

#[test]
fn the_text_of_the_error_of_the_relation() {
    let mut nt = NTransitionFunction::new();
    let _ = nt.add_transition(&0, &Symbol::Character('a'), &1);
    let error = nt.add_transition(&0, &Symbol::Character('a'), &1).unwrap_err();
    assert_eq!(error.to_string(), "NFA Error Already Existing Transition ");
    assert!(nt.contains_transition(&0, &Symbol::Character('a'), &1));
}
