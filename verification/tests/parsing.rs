use finite_automata::custom_errors::DFAError;
use finite_automata::dfa::DFA;
use finite_automata::parsing::{
    create_dfa_from_reg_ex, create_nfa_from_reg_ex, create_symbol_table, extract_symbols,
    token_at, token_length, ParsingError, Token,
};
use finite_automata::symbol_table::Symbol;

#[test]
fn check_extracting_symbols() {
    let input = "concat(concat(symbol(a),symbol(1)),star(union(symbol(0),symbol(1))))";
    let symbols = extract_symbols(input).unwrap();
    assert!(symbols.contains(&'a'));
    assert!(symbols.contains(&'0'));
    assert!(symbols.contains(&'1'));
}

#[test]
fn check_dfa() {
    let input = "star(symbol(a))";
    let nfa = create_nfa_from_reg_ex(input).unwrap();

    let dfa = DFA::convert_to_dfa(nfa);
    let result = dfa.run("aaaa");
    assert!(result.is_ok_and(|res| res));

    let input = "concat(concat(symbol(0),symbol(1)),star(union(symbol(0),symbol(1))))";
    let nfa = create_nfa_from_reg_ex(input).unwrap();

    let dfa = DFA::convert_to_dfa(nfa);
    let result = dfa.run("1011");
    assert!(result.is_ok_and(|res| !res));
    let result = dfa.run("01");
    assert!(result.is_ok_and(|res| res));
    let result = dfa.run("010011");
    assert!(result.is_ok_and(|res| res));
}

#[test]
fn the_star_of_a_symbol() {
    let dfa = create_dfa_from_reg_ex("star(symbol(a))").unwrap();
    for word in ["", "a", "aaaaa"] {
        assert!(dfa.run(word).is_ok_and(|res| res));
    }
    // The expression knows no `b`: the word is not accepted, the run fails on it.
    assert!(!dfa.run("ab").is_ok_and(|res| res));
    assert!(matches!(dfa.run("ab"), Err(DFAError::InvalidTransition(_))));
    assert_eq!(dfa.num_states(), 1);
}

#[test]
fn a_word_of_zeros_and_ones_that_begins_with_zero_one() {
    let dfa = create_dfa_from_reg_ex(
        "concat(concat(symbol(0),symbol(1)),star(union(symbol(0),symbol(1))))",
    )
    .unwrap();
    assert!(dfa.run("01").is_ok_and(|res| res));
    assert!(dfa.run("010011").is_ok_and(|res| res));
    assert!(dfa.run("1011").is_ok_and(|res| !res));
    assert!(dfa.run("").is_ok_and(|res| !res));
    assert!(dfa.run("0").is_ok_and(|res| !res));
    assert_eq!(dfa.num_states(), 4);
}

#[test]
fn an_expression_meets_a_literal_word() {
    let dfa = create_dfa_from_reg_ex("concat(star(union(symbol(a),symbol(b))),symbol(c))")
        .unwrap();
    assert!(dfa.run("abbaabc").is_ok_and(|res| res));
    let literal = DFA::from_string("abc", dfa.symbol_table());
    let both = dfa.intersection(literal);
    assert!(both.run("abc").is_ok_and(|res| res));
    assert!(both.run("abbaabc").is_ok_and(|res| !res));
    assert!(both.run("abcabc").is_ok_and(|res| !res));
}

#[test]
fn the_words_of_the_text() {
    let text = "concat(union(star(symbol(x)),)";
    let bytes = text.as_bytes();
    assert_eq!(token_at(bytes, 0), Some(Token::Concat));
    assert_eq!(token_at(bytes, 7), Some(Token::Union));
    assert_eq!(token_at(bytes, 13), Some(Token::Star));
    assert_eq!(token_at(bytes, 18), Some(Token::Atom('x')));
    assert_eq!(token_at(bytes, 27), Some(Token::Close));
    assert_eq!(token_at(bytes, 28), Some(Token::Comma));
    assert_eq!(token_at(bytes, 1), None);
    assert_eq!(token_at(bytes, 19), None);
    assert_eq!(token_at("symbol(ab".as_bytes(), 0), None);
    assert_eq!(token_at("symbol(a".as_bytes(), 0), None);
    assert_eq!(token_at("star".as_bytes(), 0), None);
    assert_eq!(token_at("symbol())".as_bytes(), 0), Some(Token::Atom(')')));
    assert_eq!(token_length(Token::Concat), 7);
    assert_eq!(token_length(Token::Union), 6);
    assert_eq!(token_length(Token::Star), 5);
    assert_eq!(token_length(Token::Atom('x')), 9);
    assert_eq!(token_length(Token::Close), 1);
    assert_eq!(token_length(Token::Comma), 1);
}

#[test]
fn the_table_holds_the_symbols_in_the_order_of_the_text() {
    let table = create_symbol_table("union(symbol(b),concat(symbol(a),symbol(b)))").unwrap();
    assert_eq!(
        table.symbols(),
        vec![Symbol::Epsilon, Symbol::Character('b'), Symbol::Character('a')]
    );
    assert_eq!(
        extract_symbols("union(symbol(b),concat(symbol(a),symbol(b)))").unwrap(),
        vec!['b', 'a']
    );
    assert!(matches!(create_symbol_table("union(symbol(ab))"), Err(ParsingError::ParseError)));
    assert!(matches!(extract_symbols("symbol(a) "), Err(ParsingError::ParseError)));
    assert_eq!(extract_symbols("").unwrap(), Vec::<char>::new());
}

#[test]
fn what_is_no_expression_is_refused() {
    for text in [
        "",
        "symbol(a",
        "symbol(ab)",
        "star(symbol(a)",
        "symbol(a))",
        "star()",
        "union(symbol(a))",
        "concat(symbol(a))",
        "symbol(a),symbol(b)",
        "Star(symbol(a))",
        "star (symbol(a))",
        "union(symbol(a),symbol(b)",
        ")",
        ",",
        "concat(",
    ] {
        assert!(matches!(create_nfa_from_reg_ex(text), Err(ParsingError::ParseError)));
        assert!(matches!(create_dfa_from_reg_ex(text), Err(ParsingError::ParseError)));
    }
    assert_eq!(ParsingError::ParseError.to_string(), "Parsing Error");
}

#[test]
fn the_automaton_of_an_expression_is_built_from_the_inside() {
    let nfa = create_nfa_from_reg_ex("union(symbol(a),symbol(b))").unwrap();
    assert_eq!(nfa.num_states(), 6);
    assert_eq!(nfa.start_state(), 0);
    assert_eq!(nfa.final_state(), 5);
    assert!(nfa.contains_transition(&1, &Symbol::Character('a'), &2));
    assert!(nfa.contains_transition(&3, &Symbol::Character('b'), &4));
    let nfa = create_nfa_from_reg_ex("concat(symbol(a),symbol(b))").unwrap();
    assert_eq!(nfa.num_states(), 5);
    assert!(nfa.contains_transition(&1, &Symbol::Character('a'), &2));
    assert!(nfa.contains_transition(&3, &Symbol::Character('b'), &4));
    let nfa = create_nfa_from_reg_ex("symbol(a)").unwrap();
    assert_eq!(nfa.num_states(), 2);
    let dfa = create_dfa_from_reg_ex("symbol(()").unwrap();
    assert!(dfa.run("(").is_ok_and(|res| res));
}
