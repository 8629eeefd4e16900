use finite_automata::symbol_table::{Symbol, SymbolTable};

#[test]
fn test_epsilon_present() {
    let st = SymbolTable::new();
    assert!(st.contains(Symbol::Epsilon));
    assert_eq!(0, st.number(Symbol::Epsilon));
}

#[test]
fn test_adding_symbol() {
    let mut st = SymbolTable::new();
    st.add_character('c');

    assert!(st.contains(Symbol::Character('c')));
    assert_eq!(st.number(Symbol::Character('c')), 1);
    assert_eq!(st.symbol(1), Symbol::Character('c'));

    assert_eq!(st.len(), 2);
}

#[test]
fn adding_a_symbol_twice_changes_nothing() {
    let mut st = SymbolTable::new();
    st.add_character('a');
    st.add_character('b');
    st.add_character('a');
    st.add_symbol(Symbol::Epsilon);
    assert_eq!(st.len(), 3);
    assert_eq!(st.number(Symbol::Character('a')), 1);
    assert_eq!(st.number(Symbol::Character('b')), 2);
    assert_eq!(
        st.symbols(),
        vec![Symbol::Epsilon, Symbol::Character('a'), Symbol::Character('b')]
    );
}

#[test]
fn numbers_and_symbols_lead_back_to_each_other() {
    let mut st = SymbolTable::new();
    for c in ['x', 'y', 'z', '0', '('] {
        st.add_character(c);
    }
    for n in 0..st.len() {
        assert_eq!(st.number(st.symbol(n)), n);
    }
    for s in st.symbols() {
        assert_eq!(st.symbol(st.number(s)), s);
    }
    assert_eq!(st.symbol(0), Symbol::Epsilon);
}

#[test]
fn tables_are_compared_by_their_symbols() {
    let mut first = SymbolTable::new();
    first.add_character('a');
    first.add_character('b');
    let mut second = SymbolTable::new();
    second.add_character('b');
    second.add_character('a');
    let mut third = SymbolTable::new();
    third.add_character('a');
    assert!(first.same_symbols(&second));
    assert!(!first.same_symbols(&third));
    assert!(!third.same_symbols(&first));
    assert!(first.clone().same_symbols(&first));
}
