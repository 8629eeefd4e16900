use finite_automata::symbol_table::Symbol;
use finite_automata::transition_function::{BasicFunctionsForTransitions, DTransitionFunction};

#[test]
fn check_normal_transition() {
    let mut dt = DTransitionFunction::new();

    let _ = dt
        .add_transition(&0, &Symbol::Character('a'), &1)
        .unwrap_or_else(|err| panic!("Error in adding transition : {}", err.to_string()));

    assert!(dt.contains_state(&0));
    assert!(dt.is_valid_transition(&0, &Symbol::Character('a')));
    assert_eq!(dt.get_transition(&0, &Symbol::Character('a')), Some(1));
}

#[test]
fn check_multiple_transition() {
    let mut dt = DTransitionFunction::new();

    let _ = dt
        .add_transition(&0, &Symbol::Character('a'), &1)
        .unwrap_or_else(|err| panic!("Error in adding transition : {}", err.to_string()));

    let result = dt.add_transition(&0, &Symbol::Character('a'), &2);
    assert!(result.is_err_and(|err| err.to_string().contains("Adding more than one state")));
}

#[test]
fn d_transition_function_check_adding_epsilon_transition() {
    let mut dt = DTransitionFunction::new();

    let result = dt.add_transition(&0, &Symbol::Epsilon, &2);
    assert!(result.is_err_and(|err| err.to_string().contains("Epsilon should not be present")));
}

#[test]
fn d_transition_function_check_extending() {
    let mut dt = DTransitionFunction::new();

    // (0, 'a') -> 1
    let _ = dt
        .add_transition(&0, &Symbol::Character('a'), &1)
        .unwrap_or_else(|err| panic!("Error in adding transition : {}", err.to_string()));

    dt.extend(2);
    println!("{:#?}", dt);
    // (2, 'a') -> 3
    assert!(!dt.contains_state(&0));
    assert!(dt.contains_state(&2));

    assert!(dt.is_valid_transition(&2, &Symbol::Character('a')));
    assert_eq!(dt.get_transition(&2, &Symbol::Character('a')), Some(3));
}

#[test]
fn a_refused_transition_leaves_the_table_as_it_is() {
    let mut dt = DTransitionFunction::new();
    assert!(dt.add_transition(&0, &Symbol::Character('a'), &1).is_ok());
    assert!(dt.add_transition(&0, &Symbol::Character('a'), &2).is_err());
    assert_eq!(dt.next(0, 'a'), Some(1));
    assert!(dt.add_transition(&0, &Symbol::Epsilon, &2).is_err());
    assert!(!dt.is_valid_transition(&0, &Symbol::Epsilon));
    assert_eq!(dt.get_transition(&0, &Symbol::Epsilon), None);
    assert_eq!(dt.next(0, 'b'), None);
    assert_eq!(dt.next(1, 'a'), None);
    assert!(!dt.contains_state(&1));
}

#[test]
fn the_texts_of_the_errors_of_the_deterministic_table() {
    let mut dt = DTransitionFunction::new();
    let error = dt.add_transition(&0, &Symbol::Epsilon, &2).unwrap_err();
    assert_eq!(
        error.to_string(),
        "DFA Error Invalid transition: Epsilon should not be present in DFA Transitions"
    );
    let _ = dt.add_transition(&0, &Symbol::Character('a'), &1);
    let error = dt.add_transition(&0, &Symbol::Character('a'), &1).unwrap_err();
    assert_eq!(
        error.to_string(),
        "DFA Error Invalid transition: Adding more than one state for the same transition for DFA"
    );
}

#[test]
fn a_row_holds_one_transition_for_every_character() {
    let mut dt = DTransitionFunction::new();
    let symbols = vec![Symbol::Epsilon, Symbol::Character('a'), Symbol::Character('b')];
    dt.add_row(4, &symbols, &vec![0, 7, 9]);
    assert_eq!(dt.next(4, 'a'), Some(7));
    assert_eq!(dt.next(4, 'b'), Some(9));
    assert_eq!(dt.next(4, 'c'), None);
    let copy = dt.clone();
    assert_eq!(copy.next(4, 'b'), Some(9));
}
