use finite_automata::custom_errors::DFAError;
use finite_automata::dfa::DFA;
use finite_automata::symbol_table::{Symbol, SymbolTable};

fn alphabet_of(characters: &str) -> SymbolTable {
    let mut symbol_table = SymbolTable::new();
    for c in characters.chars() {
        symbol_table.add_character(c);
    }
    symbol_table
}

#[test]
fn dfa_check_acceptance_of_dfa_constructed_from_string() {
    let mut symbol_table = SymbolTable::new();
    symbol_table.add_character('a');
    symbol_table.add_character('b');
    symbol_table.add_character('c');
    symbol_table.add_character('d');

    let dfa = DFA::from_string("abc", &symbol_table);

    let result = dfa.run("abc");
    assert!(result.is_ok_and(|res| res));

    let result = dfa.run("abd");
    assert!(result.is_ok_and(|res| !res));
}

#[test]
fn dfa_check_acceptance_of_dfa_for_empty_string() {
    let mut symbol_table = SymbolTable::new();
    symbol_table.add_character('a');
    symbol_table.add_character('b');
    symbol_table.add_character('c');
    symbol_table.add_character('d');

    let dfa = DFA::from_string("", &symbol_table);

    let result = dfa.run("");
    assert!(result.is_ok_and(|res| res));

    let result = dfa.run("abd");
    assert!(result.is_ok_and(|res| !res));
}

#[test]
fn dfa_check_invalid_transition() {
    let mut symbol_table = SymbolTable::new();
    symbol_table.add_character('a');
    symbol_table.add_character('b');

    let dfa = DFA::from_string("abc", &symbol_table);

    let result = dfa.run("abc");
    assert!(result.is_err_and(|res| res.to_string().contains("Invalid Transition")));
}

#[test]
fn dfa_check_extending() {
    let mut symbol_table = SymbolTable::new();
    symbol_table.add_character('a');
    symbol_table.add_character('b');
    symbol_table.add_character('c');
    symbol_table.add_character('d');

    let mut dfa = DFA::from_string("abc", &symbol_table);

    dfa.extend(2);

    let result = dfa.run("abc");
    assert!(result.is_ok_and(|res| res));

    let result = dfa.run("abd");
    assert!(result.is_ok_and(|res| !res));

    for state in 0..=1 {
        assert!(!dfa.states().contains(&state));
    }

    for state in 2..=6 {
        assert!(dfa.states().contains(&state));
    }
}

#[test]
fn check_minimization() {
    let mut symbol_table = SymbolTable::new();
    symbol_table.add_character('a');
    symbol_table.add_character('b');
    symbol_table.add_character('c');
    symbol_table.add_character('d');

    let dfa = DFA::from_string("abc", &symbol_table);

    let dfa = dfa.minimized_dfa();

    let result = dfa.run("abc");
    assert!(result.is_ok_and(|res| res));

    let result = dfa.run("abd");
    assert!(result.is_ok_and(|res| !res));
}

#[test]
fn check_minimization_single_alphabet() {
    let mut symbol_table = SymbolTable::new();
    symbol_table.add_character('a');
    let dfa = DFA::from_string("aa", &symbol_table);

    let dfa = dfa.minimized_dfa();

    let result = dfa.run("aa");
    assert!(result.is_ok_and(|res| res));

    let result = dfa.run("aaa");
    assert!(result.is_ok_and(|res| !res));
}

#[test]
fn check_minimization_empty_string() {
    let mut symbol_table = SymbolTable::new();
    symbol_table.add_character('a');

    let dfa = DFA::from_string("", &symbol_table);
    let dfa = dfa.minimized_dfa();

    let result = dfa.run("");
    assert!(result.is_ok_and(|res| res));
}

#[test]
fn check_complementation_of_dfa() {
    let mut symbol_table = SymbolTable::new();
    symbol_table.add_character('a');
    symbol_table.add_character('b');
    symbol_table.add_character('c');
    symbol_table.add_character('d');

    let dfa = DFA::from_string("abc", &symbol_table);
    let dfa = dfa.complement();

    let result = dfa.run("abc");
    assert!(result.is_ok_and(|res| !res));

    let result = dfa.run("abd");
    assert!(result.is_ok_and(|res| res));
}

#[test]
fn check_simple_intersection_of_dfa() {
    let mut symbol_table = SymbolTable::new();
    symbol_table.add_character('a');
    symbol_table.add_character('b');
    symbol_table.add_character('c');
    symbol_table.add_character('d');

    let dfa1 = DFA::from_string("a", &symbol_table);
    let dfa2 = DFA::from_string("a", &symbol_table);
    let dfa = dfa1.intersection(dfa2);

    let result = dfa.run("a");
    assert!(result.is_ok_and(|res| res));

    let result = dfa.run("abd");
    assert!(result.is_ok_and(|res| !res));

    let dfa1 = DFA::from_string("a", &symbol_table);
    let dfa2 = DFA::from_string("", &symbol_table);
    let dfa = dfa1.intersection(dfa2);

    let result = dfa.run("a");
    assert!(result.is_ok_and(|res| !res));

    let result = dfa.run("abd");
    assert!(result.is_ok_and(|res| !res));
}

#[test]
fn the_literal_automaton_has_a_chain_and_a_sink() {
    let dfa = DFA::from_string("abc", &alphabet_of("abcd"));
    assert_eq!(dfa.num_states(), 5);
    assert_eq!(dfa.begin_state_num(), 0);
    assert_eq!(dfa.end_state_num(), 4);
    assert_eq!(dfa.start_state(), 0);
    assert_eq!(dfa.final_states().len(), 1);
    assert!(dfa.final_states().contains(&3));
    assert_eq!(dfa.symbol_table().len(), 5);
    let a = Symbol::Character('a');
    let b = Symbol::Character('b');
    let c = Symbol::Character('c');
    let d = Symbol::Character('d');
    assert_eq!(dfa.get_transition(&0, &a), Some(1));
    assert_eq!(dfa.get_transition(&0, &b), Some(4));
    assert_eq!(dfa.get_transition(&1, &b), Some(2));
    assert_eq!(dfa.get_transition(&1, &a), Some(4));
    assert_eq!(dfa.get_transition(&2, &c), Some(3));
    assert_eq!(dfa.get_transition(&2, &d), Some(4));
    for symbol in [a, b, c, d] {
        assert_eq!(dfa.get_transition(&3, &symbol), Some(4));
        assert_eq!(dfa.get_transition(&4, &symbol), Some(4));
    }
    assert_eq!(dfa.get_transition(&0, &Symbol::Epsilon), None);
    assert_eq!(dfa.get_transition(&5, &a), None);
    assert_eq!(dfa.get_transition(&0, &Symbol::Character('e')), None);
}

#[test]
fn the_literal_automaton_accepts_its_word_only() {
    let dfa = DFA::from_string("abc", &alphabet_of("abcd"));
    assert!(dfa.run("abc").is_ok_and(|res| res));
    assert!(dfa.run("abd").is_ok_and(|res| !res));
    assert!(dfa.run("ab").is_ok_and(|res| !res));
    assert!(dfa.run("abcd").is_ok_and(|res| !res));
    assert!(dfa.run("").is_ok_and(|res| !res));
}

#[test]
fn the_literal_automaton_of_the_empty_word_accepts_it_only() {
    let dfa = DFA::from_string("", &alphabet_of("ab"));
    assert_eq!(dfa.num_states(), 2);
    assert!(dfa.final_states().contains(&0));
    assert_eq!(dfa.get_transition(&0, &Symbol::Character('a')), Some(1));
    assert_eq!(dfa.get_transition(&1, &Symbol::Character('b')), Some(1));
    assert!(dfa.run("").is_ok_and(|res| res));
    for word in ["a", "b", "ab", "ba", "aaaa"] {
        assert!(dfa.run(word).is_ok_and(|res| !res));
    }
    let opposite = dfa.complement();
    assert!(opposite.run("").is_ok_and(|res| !res));
    for word in ["a", "b", "ab", "ba", "aaaa"] {
        assert!(opposite.run(word).is_ok_and(|res| res));
    }
}

#[test]
fn a_run_fails_where_a_character_cannot_be_read() {
    let dfa = DFA::from_string("ab", &alphabet_of("ab"));
    match dfa.run("axb") {
        Err(DFAError::InvalidTransition(detail)) => {
            assert_eq!(detail, "Invalid Transition from 1 on symbol Character('x')");
        }
        _ => panic!("a transition on x is missing"),
    }
    let error = dfa.run("axb").unwrap_err();
    assert_eq!(
        error.to_string(),
        "Invalid transition: Invalid Transition from 1 on symbol Character('x')"
    );
    let bare = DFA::from_string("", &SymbolTable::new());
    assert!(bare.run("").is_ok_and(|res| res));
    match bare.run("a") {
        Err(DFAError::InvalidState(detail)) => assert_eq!(detail, "{current_state}"),
        _ => panic!("no transition leaves the state"),
    }
    assert_eq!(bare.run("a").unwrap_err().to_string(), "Invalid state: {current_state}");
    assert_eq!(
        DFAError::InvalidSymbol("x".to_string()).to_string(),
        "Invalid symbol: x"
    );
}

#[test]
fn moving_the_states_up_keeps_the_language() {
    let mut dfa = DFA::from_string("ab", &alphabet_of("ab"));
    let words = ["", "a", "ab", "abb", "b", "ba"];
    let before: Vec<bool> = words.iter().map(|w| dfa.run(w).unwrap()).collect();
    dfa.extend(7);
    let after: Vec<bool> = words.iter().map(|w| dfa.run(w).unwrap()).collect();
    assert_eq!(before, after);
    assert_eq!(dfa.begin_state_num(), 7);
    assert_eq!(dfa.end_state_num(), 10);
    assert_eq!(dfa.start_state(), 7);
    assert_eq!(dfa.num_states(), 4);
    assert!(dfa.final_states().contains(&9));
    assert_eq!(dfa.final_states().len(), 1);
    assert_eq!(dfa.get_transition(&7, &Symbol::Character('a')), Some(8));
    assert_eq!(dfa.get_transition(&8, &Symbol::Character('a')), Some(10));
    assert_eq!(dfa.get_transition(&0, &Symbol::Character('a')), None);
}

#[test]
fn cleanup_drops_what_cannot_be_reached() {
    let mut dfa = DFA::from_string("ab", &alphabet_of("ab"));
    dfa.extend(3);
    dfa.cleanup();
    assert_eq!(dfa.begin_state_num(), 0);
    assert_eq!(dfa.start_state(), 0);
    assert_eq!(dfa.num_states(), 4);
    assert_eq!(dfa.end_state_num(), 3);
    assert_eq!(dfa.states().len(), 4);
    assert!(dfa.run("ab").is_ok_and(|res| res));
    assert!(dfa.run("abb").is_ok_and(|res| !res));
    // The product of two automata holds pairs that cannot be reached.
    let first = DFA::from_string("ab", &alphabet_of("ab"));
    let second = DFA::from_string("ab", &alphabet_of("ab"));
    let mut both = first.product(&second);
    assert_eq!(both.num_states(), 16);
    both.cleanup();
    assert_eq!(both.num_states(), 4);
    assert!(both.run("ab").is_ok_and(|res| res));
    assert!(both.run("a").is_ok_and(|res| !res));
    let order = both.reachable_order();
    assert_eq!(order, vec![0, 1, 2, 3]);
}

#[test]
fn minimization_joins_the_states_that_do_the_same() {
    // Every state of the chain accepts another word: nothing can be joined.
    let dfa = DFA::from_string("aa", &alphabet_of("a"));
    assert_eq!(dfa.num_states(), 4);
    let smallest = dfa.minimized_dfa();
    assert_eq!(smallest.num_states(), 4);
    assert_eq!(smallest.start_state(), 0);
    assert_eq!(smallest.begin_state_num(), 0);
    let again = smallest.clone().minimized_dfa();
    assert_eq!(again.num_states(), smallest.num_states());
    for word in ["", "a", "aa", "aaa", "aaaa"] {
        assert_eq!(again.run(word).unwrap(), word == "aa");
        assert_eq!(smallest.run(word).unwrap(), word == "aa");
    }
    // Two copies of one automaton side by side shrink to one.
    let first = DFA::from_string("ab", &alphabet_of("ab"));
    let second = DFA::from_string("ab", &alphabet_of("ab"));
    let both = first.product(&second);
    assert_eq!(both.num_states(), 16);
    let smallest = both.minimized_dfa();
    assert_eq!(smallest.num_states(), 4);
    // An automaton that accepts nothing needs one state, and so does its complement.
    let nothing = DFA::from_string("a", &alphabet_of("a")).intersection(DFA::from_string(
        "aa",
        &alphabet_of("a"),
    ));
    assert_eq!(nothing.num_states(), 1);
    assert!(nothing.run("a").is_ok_and(|res| !res));
    let everything = nothing.complement();
    assert_eq!(everything.num_states(), 1);
    assert!(everything.run("aaa").is_ok_and(|res| res));
}

#[test]
fn the_complement_accepts_what_is_rejected() {
    let dfa = DFA::from_string("ab", &alphabet_of("ab"));
    let opposite = dfa.complement();
    for word in ["", "a", "b", "ab", "ba", "abb", "aab"] {
        assert_eq!(opposite.run(word).unwrap(), !dfa.run(word).unwrap());
    }
    assert!(opposite.run("abc").is_err());
    assert!(dfa.run("abc").is_err());
}

#[test]
fn the_intersection_accepts_what_both_accept() {
    let table = alphabet_of("ab");
    let first = DFA::from_string("ab", &table).complement();
    let second = DFA::from_string("ba", &table).complement();
    let both = first.intersection(second.clone());
    for word in ["", "a", "b", "ab", "ba", "abb", "aab", "bab"] {
        assert_eq!(
            both.run(word).unwrap(),
            first.run(word).unwrap() && second.run(word).unwrap()
        );
    }
}

#[test]
fn the_product_numbers_the_pair_of_the_start_states_first() {
    let table = alphabet_of("ab");
    let first = DFA::from_string("a", &table);
    let second = DFA::from_string("b", &table);
    let both = first.product(&second);
    // Pairs of three states each: (0,0) is 0, then (0,1), (0,2), (1,0), ...
    assert_eq!(both.num_states(), 9);
    assert_eq!(both.start_state(), 0);
    // On a: (0,0) -> (1,2), the sixth pair; on b: (0,0) -> (2,1), the eighth.
    assert_eq!(both.get_transition(&0, &Symbol::Character('a')), Some(5));
    assert_eq!(both.get_transition(&0, &Symbol::Character('b')), Some(7));
    // (1,1) is the pair of the accepting states.
    assert_eq!(both.final_states().len(), 1);
    assert!(both.final_states().contains(&4));
    assert!(both.run("a").is_ok_and(|res| !res));
    let smallest = first.intersection(second);
    assert_eq!(smallest.num_states(), 1);
}
