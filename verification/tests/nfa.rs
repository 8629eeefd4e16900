use std::collections::HashSet;

use finite_automata::dfa::DFA;
use finite_automata::nfa::NFA;
use finite_automata::symbol_table::{Symbol, SymbolTable};

#[test]
fn check_single_symbol_nfa() {
    let mut symbol_table = SymbolTable::new();
    symbol_table.add_character('a');

    let nfa = NFA::from_symbol(&Symbol::Character('a'), &symbol_table);
    assert!(nfa.contains_transition(&0, &Symbol::Character('a'), &1));

    let nfa = NFA::from_symbol(&Symbol::Epsilon, &symbol_table);

    // nfa transitions are empty
    let mut transition_keys: Vec<usize> = Vec::new();
    for state in 0..nfa.num_states() {
        for symbol in symbol_table.symbols() {
            if nfa.is_valid_transition(&state, &symbol) {
                transition_keys.push(state);
            }
        }
    }
    assert_eq!(transition_keys, Vec::<usize>::new());
}

#[test]
fn check_union_of_two_nfas() {
    let mut symbol_table = SymbolTable::new();
    symbol_table.add_character('a');
    symbol_table.add_character('b');

    let epsilon = Symbol::Epsilon;
    let a = Symbol::Character('a');
    let b = Symbol::Character('b');

    let nfa1 = NFA::from_symbol(&a, &symbol_table);
    let nfa2 = NFA::from_symbol(&b, &symbol_table);

    let nfa_union = nfa1.union(nfa2);

    assert!(nfa_union.contains_transition(&0, &epsilon, &1));
    assert!(nfa_union.contains_transition(&0, &epsilon, &3));
    assert!(nfa_union.contains_transition(&1, &a, &2));
    assert!(nfa_union.contains_transition(&3, &b, &4));
    assert!(nfa_union.contains_transition(&2, &epsilon, &5));
    assert!(nfa_union.contains_transition(&4, &epsilon, &5));

    let dfa_union = DFA::convert_to_dfa(nfa_union);

    let result = dfa_union.run("a");
    assert!(result.is_ok_and(|res| res));

    let result = dfa_union.run("b");
    assert!(result.is_ok_and(|res| res));
}

#[test]
fn check_epsilon_closure() {
    let mut symbol_table = SymbolTable::new();
    symbol_table.add_character('a');
    symbol_table.add_character('b');

    let a = Symbol::Character('a');
    let b = Symbol::Character('b');

    let nfa1 = NFA::from_symbol(&a, &symbol_table);
    let nfa2 = NFA::from_symbol(&b, &symbol_table);

    let nfa_union = nfa1.union(nfa2);
    let epsilon_closure_check = nfa_union.epsilon_closure(&0);

    assert!(epsilon_closure_check.len() == 3);
    assert!(epsilon_closure_check.contains(&0));
    assert!(epsilon_closure_check.contains(&1));
    assert!(epsilon_closure_check.contains(&3));
}

#[test]
fn check_conversion_to_dfa() {
    let mut symbol_table = SymbolTable::new();
    symbol_table.add_character('a');
    symbol_table.add_character('b');

    let a = Symbol::Character('a');
    let b = Symbol::Character('b');

    let nfa = NFA::from_symbol(&a, &symbol_table);
    let dfa = DFA::convert_to_dfa(nfa);

    let result = dfa.run("a");
    assert!(result.is_ok_and(|res| res));

    let result = dfa.run("aaa");
    assert!(result.is_ok_and(|res| !res));

    let nfa1 = NFA::from_symbol(&a, &symbol_table);
    let nfa2 = NFA::from_symbol(&b, &symbol_table);

    let nfa_union = nfa1.union(nfa2);
    let dfa = DFA::convert_to_dfa(nfa_union);

    let result = dfa.run("a");
    assert!(result.is_ok_and(|res| res));

    let result = dfa.run("b");
    assert!(result.is_ok_and(|res| res));

    let result = dfa.run("aaa");
    assert!(result.is_ok_and(|res| !res));
}

#[test]
fn check_conversion_of_dfa_to_nfa() {
    let mut symbol_table = SymbolTable::new();
    symbol_table.add_character('a');
    symbol_table.add_character('b');
    symbol_table.add_character('c');
    symbol_table.add_character('d');

    let dfa = DFA::from_string("abc", &symbol_table);
    let nfa = NFA::convert_dfa_to_nfa(dfa);
    let dfa = DFA::convert_to_dfa(nfa);

    let result = dfa.run("abc");
    assert!(result.is_ok_and(|res| res));

    let result = dfa.run("abd");
    assert!(result.is_ok_and(|res| !res));
}

#[test]
fn check_concatenation() {
    let mut symbol_table = SymbolTable::new();
    symbol_table.add_character('a');
    symbol_table.add_character('b');

    let a = Symbol::Character('a');
    let b = Symbol::Character('b');

    let nfa1 = NFA::from_symbol(&a, &symbol_table);
    let nfa2 = NFA::from_symbol(&b, &symbol_table);

    let nfa_concat = nfa1.concat(nfa2);
    let dfa = DFA::convert_to_dfa(nfa_concat);

    let result = dfa.run("ab");
    assert!(result.is_ok_and(|res| res));

    let result = dfa.run("aa");
    assert!(result.is_ok_and(|res| !res));
}

#[test]
fn check_kleene_star() {
    let mut symbol_table = SymbolTable::new();
    symbol_table.add_character('a');
    symbol_table.add_character('b');

    let a = Symbol::Character('a');

    let nfa = NFA::from_symbol(&a, &symbol_table);
    let nfa_kleene = nfa.kleene_star();

    let dfa = DFA::convert_to_dfa(nfa_kleene);

    let mut check_string = String::new();

    // check that dfa accepts epsilon string since its kleene star
    let result = dfa.run(&check_string);
    assert!(result.is_ok_and(|res| res));

    // check that dfa accepts all strings of 'a' upto length 100
    for _ in 0..100 {
        check_string.push('a');

        let result = dfa.run(&check_string);
        assert!(result.is_ok_and(|res| res));
    }

    let result = dfa.run("ab");
    assert!(result.is_ok_and(|res| !res));
}

#[test]
fn check_sample_regular_expression() {
    // check for (a + b)*c
    let mut symbol_table = SymbolTable::new();
    symbol_table.add_character('a');
    symbol_table.add_character('b');
    symbol_table.add_character('c');

    let a = Symbol::Character('a');
    let b = Symbol::Character('b');
    let c = Symbol::Character('c');

    let nfa_a = NFA::from_symbol(&a, &symbol_table);
    let nfa_b = NFA::from_symbol(&b, &symbol_table);
    let nfa_c = NFA::from_symbol(&c, &symbol_table);

    let nfa_a_plus_b = nfa_a.union(nfa_b);
    let nfa_a_plus_b_kleene_star = nfa_a_plus_b.kleene_star();

    let nfa = nfa_a_plus_b_kleene_star.concat(nfa_c);

    let dfa = DFA::convert_to_dfa(nfa);

    let result = dfa.run("abc");
    assert!(result.is_ok_and(|res| res));

    let result = dfa.run("abbaabc");
    assert!(result.is_ok_and(|res| res));

    let result = dfa.run("abcabc");
    assert!(result.is_ok_and(|res| !res));
}

#[test]
fn check_intersection() {
    // check for (a + b)*c intersection abc
    let mut symbol_table = SymbolTable::new();
    symbol_table.add_character('a');
    symbol_table.add_character('b');
    symbol_table.add_character('c');

    let a = Symbol::Character('a');
    let b = Symbol::Character('b');
    let c = Symbol::Character('c');

    let nfa_a = NFA::from_symbol(&a, &symbol_table);
    let nfa_b = NFA::from_symbol(&b, &symbol_table);
    let nfa_c = NFA::from_symbol(&c, &symbol_table);

    let nfa_a_plus_b = nfa_a.union(nfa_b);
    let nfa_a_plus_b_kleene_star = nfa_a_plus_b.kleene_star();

    let nfa = nfa_a_plus_b_kleene_star.concat(nfa_c);

    let dfa1 = DFA::convert_to_dfa(nfa);
    let dfa2 = DFA::from_string("abc", &symbol_table);
    let dfa = dfa1.intersection(dfa2);

    let result = dfa.run("abc");
    assert!(result.is_ok_and(|res| res));

    let result = dfa.run("abbaabc");
    assert!(result.is_ok_and(|res| !res));

    let result = dfa.run("abcabc");
    assert!(result.is_ok_and(|res| !res));

    // now checking for (a + b)*c intersection b*c
    let mut symbol_table = SymbolTable::new();
    symbol_table.add_character('a');
    symbol_table.add_character('b');
    symbol_table.add_character('c');

    let a = Symbol::Character('a');
    let b = Symbol::Character('b');
    let c = Symbol::Character('c');

    let nfa_a = NFA::from_symbol(&a, &symbol_table);
    let nfa_b = NFA::from_symbol(&b, &symbol_table);
    let nfa_c = NFA::from_symbol(&c, &symbol_table);

    let nfa_a_plus_b = nfa_a.union(nfa_b.clone());
    let nfa_a_plus_b_kleene_star = nfa_a_plus_b.kleene_star();

    let nfa1 = nfa_a_plus_b_kleene_star.concat(nfa_c.clone());

    let nfa_b_kleene_star = nfa_b.kleene_star();
    let nfa2 = nfa_b_kleene_star.concat(nfa_c);

    let dfa1 = DFA::convert_to_dfa(nfa1);
    let dfa2 = DFA::convert_to_dfa(nfa2);

    // this should accept b*c
    let dfa = dfa1.intersection(dfa2);
    let result = dfa.run("bc");
    assert!(result.is_ok_and(|res| res));

    let result = dfa.run("abc");
    assert!(result.is_ok_and(|res| !res));

    let mut check_string = String::from("c");
    let result = dfa.run(&check_string);
    assert!(result.is_ok_and(|res| res));

    // this for loop checks the acceptance of the strings bc, bbc, bbbc,....
    for _ in 0..100 {
        check_string.pop();
        check_string.push('b');
        check_string.push('c');

        let result = dfa.run(&check_string);
        assert!(result.is_ok_and(|res| res));
    }
}

fn two_letters() -> SymbolTable {
    let mut symbol_table = SymbolTable::new();
    symbol_table.add_character('a');
    symbol_table.add_character('b');
    symbol_table
}

#[test]
fn the_atoms_have_one_or_two_states() {
    let table = two_letters();
    let empty = NFA::from_symbol(&Symbol::Epsilon, &table);
    assert_eq!(empty.num_states(), 1);
    assert_eq!(empty.start_state(), 0);
    assert_eq!(empty.final_state(), 0);
    assert_eq!(empty.states(), &HashSet::from([0]));
    let a = NFA::from_symbol(&Symbol::Character('a'), &table);
    assert_eq!(a.num_states(), 2);
    assert_eq!(a.begin_state_num(), 0);
    assert_eq!(a.end_state_num(), 1);
    assert_eq!(a.start_state(), 0);
    assert_eq!(a.final_state(), 1);
    assert_eq!(a.states(), &HashSet::from([0, 1]));
    assert_eq!(a.symbol_table().len(), 3);
    assert_eq!(a.get_transition(&0, &Symbol::Character('a')), Some(HashSet::from([1])));
    assert_eq!(a.get_transition(&0, &Symbol::Character('b')), None);
    assert!(a.is_valid_transition(&0, &Symbol::Character('a')));
    assert!(!a.is_valid_transition(&1, &Symbol::Character('a')));
}

#[test]
fn concatenation_puts_the_second_behind_the_first() {
    let table = two_letters();
    let a = NFA::from_symbol(&Symbol::Character('a'), &table);
    let b = NFA::from_symbol(&Symbol::Character('b'), &table);
    let both = a.concat(b);
    assert_eq!(both.num_states(), 5);
    assert_eq!(both.start_state(), 0);
    assert_eq!(both.final_state(), 4);
    assert_eq!(both.end_state_num(), 4);
    assert!(both.contains_transition(&0, &Symbol::Epsilon, &1));
    assert!(both.contains_transition(&1, &Symbol::Character('a'), &2));
    assert!(both.contains_transition(&2, &Symbol::Epsilon, &3));
    assert!(both.contains_transition(&3, &Symbol::Character('b'), &4));
    assert!(!both.contains_transition(&4, &Symbol::Epsilon, &0));
}

#[test]
fn the_star_goes_round_and_past() {
    let table = two_letters();
    let a = NFA::from_symbol(&Symbol::Character('a'), &table);
    let star = a.kleene_star();
    assert_eq!(star.num_states(), 4);
    assert_eq!(star.start_state(), 0);
    assert_eq!(star.final_state(), 3);
    assert!(star.contains_transition(&0, &Symbol::Epsilon, &1));
    assert!(star.contains_transition(&1, &Symbol::Character('a'), &2));
    assert!(star.contains_transition(&2, &Symbol::Epsilon, &3));
    assert!(star.contains_transition(&3, &Symbol::Epsilon, &0));
    assert!(star.contains_transition(&0, &Symbol::Epsilon, &3));
    assert_eq!(star.epsilon_closure(&2), HashSet::from([0, 1, 2, 3]));
    assert_eq!(star.epsilon_closure(&1), HashSet::from([1]));
    assert_eq!(
        star.epsilon_closure_of_set_of_states(&HashSet::from([1, 3])),
        HashSet::from([0, 1, 3])
    );
    assert_eq!(star.epsilon_closure_of_set_of_states(&HashSet::new()), HashSet::new());
}

#[test]
fn the_star_of_the_empty_word_accepts_the_empty_word_only() {
    let table = two_letters();
    let star = NFA::from_symbol(&Symbol::Epsilon, &table).kleene_star();
    assert_eq!(star.num_states(), 3);
    let dfa = DFA::convert_to_dfa(star);
    assert!(dfa.run("").is_ok_and(|res| res));
    assert!(dfa.run("a").is_ok_and(|res| !res));
    assert!(dfa.run("ab").is_ok_and(|res| !res));
    // Without any character in the table there is nothing to read.
    let bare = NFA::from_symbol(&Symbol::Epsilon, &SymbolTable::new()).kleene_star();
    let dfa = DFA::convert_to_dfa(bare);
    assert_eq!(dfa.num_states(), 1);
    assert!(dfa.run("").is_ok_and(|res| res));
    assert!(dfa.run("a").is_err());
}

#[test]
fn moving_an_automaton_up_moves_all_of_it() {
    let table = two_letters();
    let mut a = NFA::from_symbol(&Symbol::Character('a'), &table);
    a.extend(5);
    assert_eq!(a.begin_state_num(), 5);
    assert_eq!(a.end_state_num(), 6);
    assert_eq!(a.start_state(), 5);
    assert_eq!(a.final_state(), 6);
    assert_eq!(a.num_states(), 2);
    assert_eq!(a.states(), &HashSet::from([5, 6]));
    assert!(a.contains_transition(&5, &Symbol::Character('a'), &6));
    assert!(!a.contains_transition(&0, &Symbol::Character('a'), &1));
    let dfa = DFA::convert_to_dfa(a);
    assert!(dfa.run("a").is_ok_and(|res| res));
    assert!(dfa.run("").is_ok_and(|res| !res));
    assert!(dfa.run("aa").is_ok_and(|res| !res));
}

#[test]
fn a_lifted_automaton_has_one_more_state() {
    let table = two_letters();
    let dfa = DFA::from_string("ab", &table);
    let nfa = NFA::convert_dfa_to_nfa(dfa.clone());
    assert_eq!(nfa.num_states(), 5);
    assert_eq!(nfa.start_state(), 0);
    assert_eq!(nfa.final_state(), 4);
    assert_eq!(nfa.end_state_num(), 4);
    assert!(nfa.contains_transition(&2, &Symbol::Epsilon, &4));
    assert!(!nfa.contains_transition(&1, &Symbol::Epsilon, &4));
    assert!(nfa.contains_transition(&0, &Symbol::Character('a'), &1));
    assert!(nfa.contains_transition(&0, &Symbol::Character('b'), &3));
    assert_eq!(nfa.get_transition(&1, &Symbol::Character('b')), Some(HashSet::from([2])));
    let back = DFA::convert_to_dfa(nfa);
    for word in ["", "a", "ab", "abb", "b", "ba", "aab"] {
        assert_eq!(back.run(word).unwrap(), dfa.run(word).unwrap());
    }
    assert_eq!(back.num_states(), 4);
}

#[test]
fn the_complement_of_a_union() {
    let table = two_letters();
    let a = NFA::from_symbol(&Symbol::Character('a'), &table);
    let b = NFA::from_symbol(&Symbol::Character('b'), &table);
    let dfa = DFA::convert_to_dfa(a.union(b)).complement();
    for word in ["", "aa", "ab"] {
        assert!(dfa.run(word).is_ok_and(|res| res));
    }
    for word in ["a", "b"] {
        assert!(dfa.run(word).is_ok_and(|res| !res));
    }
}

#[test]
fn the_subset_automaton_numbers_the_sets_as_it_finds_them() {
    let table = two_letters();
    let a = NFA::from_symbol(&Symbol::Character('a'), &table);
    let b = NFA::from_symbol(&Symbol::Character('b'), &table);
    let found = DFA::subset_construction(&a.union(b));
    // {0,1,3}, then on a {2,5}, on b {4,5}, and the empty set.
    assert_eq!(found.num_states(), 4);
    assert_eq!(found.start_state(), 0);
    assert_eq!(found.get_transition(&0, &Symbol::Character('a')), Some(1));
    assert_eq!(found.get_transition(&0, &Symbol::Character('b')), Some(2));
    assert_eq!(found.get_transition(&1, &Symbol::Character('a')), Some(3));
    assert_eq!(found.get_transition(&3, &Symbol::Character('b')), Some(3));
    assert_eq!(found.final_states(), &HashSet::from([1, 2]));
    let smallest = found.minimized_dfa();
    assert_eq!(smallest.num_states(), 3);
}
