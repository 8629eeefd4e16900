//! From the text of a regular expression to an automaton.
//!
//! The text is made of the words `concat(`, `union(`, `star(` and
//! `symbol(x)`, where `x` is any one character, of `)` and of `,`. It is read
//! as bytes, one character for every byte.

use vstd::prelude::*;
use vstd::string::*;

use crate::dfa::{code_units, DFA};
use crate::nfa::{atom_view, concat_view, star_view, union_view, NFA};
use crate::nfa_model::NfaView;
use crate::symbol_table::{Symbol, SymbolTable};

verus! {

/// What can go wrong when a regular expression is read.
#[derive(Clone, Copy, Debug)]
pub enum ParsingError {
    ParseError,
}

impl ParsingError {
    pub open spec fn text(&self) -> Seq<char> {
        "Parsing Error"@
    }

    pub fn to_string(&self) -> (text: String)
        ensures
            text@ == self.text(),
    {
        String::from_str("Parsing Error")
    }
}

/// A word of the text.
#[derive(Clone, Copy, Debug, PartialEq, Eq, Structural)]
pub enum Token {
    Concat,
    Union,
    Star,
    Atom(char),
    Close,
    Comma,
}

/// What waits on the stack of operators for its closing bracket.
#[derive(Clone, Copy, Debug, PartialEq, Eq, Structural)]
pub enum Operator {
    Open,
    Concat,
    Union,
    Star,
}

/// Whether `concat(` stands at `i`.
pub open spec fn concat_at(w: Seq<char>, i: int) -> bool {
    &&& 0 <= i
    &&& i + 7 <= w.len()
    &&& w[i] == 'c'
    &&& w[i + 1] == 'o'
    &&& w[i + 2] == 'n'
    &&& w[i + 3] == 'c'
    &&& w[i + 4] == 'a'
    &&& w[i + 5] == 't'
    &&& w[i + 6] == '('
}

/// Whether `union(` stands at `i`.
pub open spec fn union_at(w: Seq<char>, i: int) -> bool {
    &&& 0 <= i
    &&& i + 6 <= w.len()
    &&& w[i] == 'u'
    &&& w[i + 1] == 'n'
    &&& w[i + 2] == 'i'
    &&& w[i + 3] == 'o'
    &&& w[i + 4] == 'n'
    &&& w[i + 5] == '('
}

/// Whether `star(` stands at `i`.
pub open spec fn star_at(w: Seq<char>, i: int) -> bool {
    &&& 0 <= i
    &&& i + 5 <= w.len()
    &&& w[i] == 's'
    &&& w[i + 1] == 't'
    &&& w[i + 2] == 'a'
    &&& w[i + 3] == 'r'
    &&& w[i + 4] == '('
}

/// Whether `symbol(`, one character and `)` stand at `i`.
pub open spec fn symbol_at(w: Seq<char>, i: int) -> bool {
    &&& 0 <= i
    &&& i + 9 <= w.len()
    &&& w[i] == 's'
    &&& w[i + 1] == 'y'
    &&& w[i + 2] == 'm'
    &&& w[i + 3] == 'b'
    &&& w[i + 4] == 'o'
    &&& w[i + 5] == 'l'
    &&& w[i + 6] == '('
    &&& w[i + 8] == ')'
}

/// The word that stands at `i`, if one does.
pub open spec fn word_at(w: Seq<char>, i: int) -> Option<Token> {
    if concat_at(w, i) {
        Some(Token::Concat)
    } else if union_at(w, i) {
        Some(Token::Union)
    } else if star_at(w, i) {
        Some(Token::Star)
    } else if symbol_at(w, i) {
        Some(Token::Atom(w[i + 7]))
    } else if 0 <= i < w.len() && w[i] == ')' {
        Some(Token::Close)
    } else if 0 <= i < w.len() && w[i] == ',' {
        Some(Token::Comma)
    } else {
        None
    }
}

/// How many characters a word takes.
pub open spec fn length_of(token: Token) -> int {
    match token {
        Token::Concat => 7,
        Token::Union => 6,
        Token::Star => 5,
        Token::Atom(_) => 9,
        Token::Close => 1,
        Token::Comma => 1,
    }
}

/// The table with `symbol` added, unless it is there already.
pub open spec fn with_symbol(table: Seq<Symbol>, symbol: Symbol) -> Seq<Symbol> {
    if table.contains(symbol) {
        table
    } else {
        table.push(symbol)
    }
}

/// The table that holds the symbols of `table` and then the characters of the
/// `symbol(x)` words from `i` on, in the order in which they first occur; or
/// nothing, if the text from `i` on is not made of words.
pub open spec fn table_from(w: Seq<char>, i: int, table: Seq<Symbol>) -> Option<Seq<Symbol>>
    decreases w.len() - i,
{
    if i >= w.len() || i < 0 {
        Some(table)
    } else {
        match word_at(w, i) {
            None => None,
            Some(Token::Atom(c)) => table_from(w, i + 9, with_symbol(table, Symbol::Character(c))),
            Some(token) => table_from(w, i + length_of(token), table),
        }
    }
}

/// The table of the symbols of a regular expression: the empty word and the
/// characters of its `symbol(x)` words.
pub open spec fn table_of(w: Seq<char>) -> Option<Seq<Symbol>> {
    table_from(w, 0, seq![Symbol::Epsilon])
}

/// What a closing bracket does to the two stacks: the operators down to the
/// next opening bracket are taken off and applied, each to the automata on top
/// of the other stack, the upper one of two as the second. Nothing, if there is
/// no opening bracket or an operator lacks an automaton.
pub open spec fn closed(ops: Seq<Operator>, nfas: Seq<NfaView>) -> Option<
    (Seq<Operator>, Seq<NfaView>),
>
    decreases ops.len(),
{
    if ops.len() == 0 {
        None
    } else {
        let rest = ops.drop_last();
        match ops.last() {
            Operator::Open => Some((rest, nfas)),
            Operator::Star => if nfas.len() >= 1 {
                closed(rest, nfas.drop_last().push(star_view(nfas.last())))
            } else {
                None
            },
            Operator::Union => if nfas.len() >= 2 {
                closed(
                    rest,
                    nfas.drop_last().drop_last().push(
                        union_view(nfas[nfas.len() - 2], nfas[nfas.len() - 1]),
                    ),
                )
            } else {
                None
            },
            Operator::Concat => if nfas.len() >= 2 {
                closed(
                    rest,
                    nfas.drop_last().drop_last().push(
                        concat_view(nfas[nfas.len() - 2], nfas[nfas.len() - 1]),
                    ),
                )
            } else {
                None
            },
        }
    }
}

/// The automaton that the text from `i` on leaves as the only one on the
/// stack of automata, with no operator left on the other stack, when it is
/// read word by word: an operator is put on its stack over an opening
/// bracket, a symbol puts its automaton on the other stack, a closing bracket
/// applies the operators down to the next opening bracket, and a comma does
/// nothing. Nothing, if the text is not made of words, if a closing bracket
/// cannot do its work, or if the stacks are not left like this.
pub open spec fn parse_from(
    w: Seq<char>,
    table: Seq<Symbol>,
    i: int,
    ops: Seq<Operator>,
    nfas: Seq<NfaView>,
) -> Option<NfaView>
    decreases w.len() - i,
{
    if i >= w.len() || i < 0 {
        if ops.len() == 0 && nfas.len() == 1 {
            Some(nfas[0])
        } else {
            None
        }
    } else {
        match word_at(w, i) {
            None => None,
            Some(Token::Concat) => parse_from(
                w,
                table,
                i + 7,
                ops.push(Operator::Open).push(Operator::Concat),
                nfas,
            ),
            Some(Token::Union) => parse_from(
                w,
                table,
                i + 6,
                ops.push(Operator::Open).push(Operator::Union),
                nfas,
            ),
            Some(Token::Star) => parse_from(
                w,
                table,
                i + 5,
                ops.push(Operator::Open).push(Operator::Star),
                nfas,
            ),
            Some(Token::Atom(c)) => parse_from(
                w,
                table,
                i + 9,
                ops,
                nfas.push(atom_view(Symbol::Character(c), table)),
            ),
            Some(Token::Close) => match closed(ops, nfas) {
                None => None,
                Some((left, built)) => parse_from(w, table, i + 1, left, built),
            },
            Some(Token::Comma) => parse_from(w, table, i + 1, ops, nfas),
        }
    }
}

/// The automaton of a regular expression, if the text is one.
pub open spec fn parsed(w: Seq<char>) -> Option<NfaView> {
    match table_of(w) {
        None => None,
        Some(table) => parse_from(w, table, 0, Seq::empty(), Seq::empty()),
    }
}

/// The word that stands at `i`.
pub fn token_at(bytes: &[u8], i: usize) -> (token: Option<Token>)
    requires
        i < bytes@.len(),
    ensures
        token == word_at(code_units(bytes@), i as int),
        token matches Some(t) ==> i + length_of(t) <= bytes@.len(),
{
    let n = bytes.len();
    let first = bytes[i] as char;
    if first == 'c' {
        if n - i >= 7 && bytes[i + 1] as char == 'o' && bytes[i + 2] as char == 'n' && bytes[i
            + 3] as char == 'c' && bytes[i + 4] as char == 'a' && bytes[i + 5] as char == 't'
            && bytes[i + 6] as char == '(' {
            return Some(Token::Concat);
        }
        None
    } else if first == 'u' {
        if n - i >= 6 && bytes[i + 1] as char == 'n' && bytes[i + 2] as char == 'i' && bytes[i
            + 3] as char == 'o' && bytes[i + 4] as char == 'n' && bytes[i + 5] as char == '(' {
            return Some(Token::Union);
        }
        None
    } else if first == 's' {
        if n - i >= 5 && bytes[i + 1] as char == 't' && bytes[i + 2] as char == 'a' && bytes[i
            + 3] as char == 'r' && bytes[i + 4] as char == '(' {
            return Some(Token::Star);
        }
        if n - i >= 9 && bytes[i + 1] as char == 'y' && bytes[i + 2] as char == 'm' && bytes[i
            + 3] as char == 'b' && bytes[i + 4] as char == 'o' && bytes[i + 5] as char == 'l'
            && bytes[i + 6] as char == '(' && bytes[i + 8] as char == ')' {
            return Some(Token::Atom(bytes[i + 7] as char));
        }
        None
    } else if first == ')' {
        Some(Token::Close)
    } else if first == ',' {
        Some(Token::Comma)
    } else {
        None
    }
}

/// How many bytes a word takes.
pub fn token_length(token: Token) -> (n: usize)
    ensures
        n == length_of(token),
{
    match token {
        Token::Concat => 7,
        Token::Union => 6,
        Token::Star => 5,
        Token::Atom(_) => 9,
        Token::Close => 1,
        Token::Comma => 1,
    }
}

/// The table of the symbols of a regular expression: the empty word and the
/// characters of its `symbol(x)` words, in the order in which they first occur.
pub fn create_symbol_table(input: &str) -> (result: Result<SymbolTable, ParsingError>)
    ensures
        match result {
            Ok(table) => table.wf() && table_of(code_units(input.spec_bytes())) == Some(table@),
            Err(_) => table_of(code_units(input.spec_bytes())) is None,
        },
{
    let bytes = input.as_bytes();
    let ghost w = code_units(bytes@);
    let mut table = SymbolTable::new();
    let mut i: usize = 0;
    while i < bytes.len()
        invariant
            i <= bytes@.len(),
            w == code_units(bytes@),
            bytes@ == input.spec_bytes(),
            table.wf(),
            table_of(w) == table_from(w, i as int, table@),
        decreases bytes.len() - i,
    {
        match token_at(bytes, i) {
            None => {
                return Err(ParsingError::ParseError);
            },
            Some(token) => {
                match token {
                    Token::Atom(c) => {
                        table.add_character(c);
                    },
                    _ => {},
                }
                i += token_length(token);
            },
        }
    }
    Ok(table)
}

/// The characters of the `symbol(x)` words of a regular expression, each
/// once, in the order in which they first occur.
pub fn extract_symbols(input: &str) -> (result: Result<Vec<char>, ParsingError>)
    ensures
        match result {
            Ok(symbols) => match table_of(code_units(input.spec_bytes())) {
                Some(table) => symbols@.len() + 1 == table.len() && forall|k: int|
                    0 <= k < symbols@.len() ==> table[k + 1] == Symbol::Character(
                        #[trigger] symbols@[k],
                    ),
                None => false,
            },
            Err(_) => table_of(code_units(input.spec_bytes())) is None,
        },
{
    match create_symbol_table(input) {
        Err(error) => Err(error),
        Ok(table) => {
            let all = table.symbols();
            let mut symbols: Vec<char> = Vec::new();
            let mut k: usize = 1;
            while k < all.len()
                invariant
                    1 <= k <= all@.len(),
                    all@ == table@,
                    table.wf(),
                    symbols@.len() + 1 == k,
                    forall|j: int|
                        0 <= j < symbols@.len() ==> table@[j + 1] == Symbol::Character(
                            #[trigger] symbols@[j],
                        ),
                decreases all.len() - k,
            {
                match all[k] {
                    Symbol::Character(c) => {
                        symbols.push(c);
                    },
                    Symbol::Epsilon => {
                        symbols.push(' ');
                    },
                }
                k += 1;
            }
            Ok(symbols)
        },
    }
}

/// What the automata of the stack are, as mathematics.
pub open spec fn views_of(stack: Seq<NFA>) -> Seq<NfaView> {
    Seq::new(stack.len(), |i: int| stack[i]@)
}

/// How many states the automata of the stack have together.
pub open spec fn states_in(nfas: Seq<NfaView>) -> int
    decreases nfas.len(),
{
    if nfas.len() == 0 {
        0
    } else {
        states_in(nfas.drop_last()) + nfas.last().num_states
    }
}

/// How many operators wait on the stack, the opening brackets apart.
pub open spec fn waiting(ops: Seq<Operator>) -> int
    decreases ops.len(),
{
    if ops.len() == 0 {
        0
    } else {
        waiting(ops.drop_last()) + if ops.last() == Operator::Open {
            0int
        } else {
            1int
        }
    }
}

/// Every automaton of the stack is well formed, begins at state 0 and has the table.
pub open spec fn stack_ok(nfas: Seq<NfaView>, table: Seq<Symbol>) -> bool {
    forall|i: int|
        0 <= i < nfas.len() ==> (#[trigger] nfas[i]).wf() && nfas[i].begin == 0 && nfas[i].table
            == table
}

/// The counts are not negative.
proof fn lemma_counts(ops: Seq<Operator>, nfas: Seq<NfaView>)
    ensures
        states_in(nfas) >= 0,
        waiting(ops) >= 0,
    decreases ops.len() + nfas.len(),
{
    if ops.len() > 0 {
        lemma_counts(ops.drop_last(), nfas);
    } else if nfas.len() > 0 {
        lemma_counts(ops, nfas.drop_last());
    }
}

/// What is in the table stays in it when the rest of the text is read.
proof fn lemma_table_grows(w: Seq<char>, i: int, table: Seq<Symbol>, symbol: Symbol)
    requires
        table.contains(symbol),
        table_from(w, i, table) is Some,
    ensures
        table_from(w, i, table).unwrap().contains(symbol),
    decreases w.len() - i,
{
    if 0 <= i < w.len() {
        match word_at(w, i) {
            None => {},
            Some(Token::Atom(c)) => {
                let next = with_symbol(table, Symbol::Character(c));
                if !table.contains(Symbol::Character(c)) {
                    let k = choose|k: int| 0 <= k < table.len() && table[k] == symbol;
                    assert(next[k] == symbol);
                }
                lemma_table_grows(w, i + 9, next, symbol);
            },
            Some(token) => {
                lemma_table_grows(w, i + length_of(token), table, symbol);
            },
        }
    }
}

/// Does the work of a closing bracket on the two stacks, and says whether it
/// could be done.
fn close(ops: &mut Vec<Operator>, nfas: &mut Vec<NFA>, Ghost(table): Ghost<Seq<Symbol>>) -> (done:
    bool)
    requires
        stack_ok(views_of(old(nfas)@), table),
        states_in(views_of(old(nfas)@)) + 2 * waiting(old(ops)@) <= usize::MAX,
    ensures
        match closed(old(ops)@, views_of(old(nfas)@)) {
            Some((left, built)) => {
                &&& done
                &&& final(ops)@ == left
                &&& views_of(final(nfas)@) == built
                &&& stack_ok(built, table)
                &&& states_in(built) + 2 * waiting(left) <= states_in(views_of(old(nfas)@)) + 2
                    * waiting(old(ops)@)
            },
            None => !done,
        },
{
    loop
        invariant
            closed(old(ops)@, views_of(old(nfas)@)) == closed(ops@, views_of(nfas@)),
            stack_ok(views_of(nfas@), table),
            states_in(views_of(nfas@)) + 2 * waiting(ops@) <= states_in(views_of(old(nfas)@)) + 2
                * waiting(old(ops)@),
            states_in(views_of(old(nfas)@)) + 2 * waiting(old(ops)@) <= usize::MAX,
        decreases ops@.len(),
    {
        let ghost before = views_of(nfas@);
        proof {
            lemma_counts(ops@, before);
            if ops@.len() > 0 {
                lemma_counts(ops@.drop_last(), before);
            }
        }
        match ops.pop() {
            None => {
                return false;
            },
            Some(Operator::Open) => {
                return true;
            },
            Some(Operator::Star) => {
                match nfas.pop() {
                    None => {
                        return false;
                    },
                    Some(nfa) => {
                        proof {
                            lemma_counts(ops@, before.drop_last());
                            assert(states_in(before) == states_in(before.drop_last())
                                + before.last().num_states);
                        }
                        let built = nfa.kleene_star();
                        nfas.push(built);
                        proof {
                            let after = before.drop_last().push(star_view(before.last()));
                            assert(views_of(nfas@) =~= after);
                            assert(after.drop_last() =~= before.drop_last());
                            assert(states_in(after) == states_in(after.drop_last())
                                + after.last().num_states);
                            assert(stack_ok(after, table));
                        }
                    },
                }
            },
            Some(Operator::Union) => {
                if nfas.len() < 2 {
                    return false;
                }
                proof {
                    lemma_counts(ops@, before.drop_last().drop_last());
                    assert(states_in(before) == states_in(before.drop_last())
                        + before.last().num_states);
                    assert(states_in(before.drop_last()) == states_in(
                        before.drop_last().drop_last(),
                    ) + before.drop_last().last().num_states);
                }
                let second = nfas.pop().unwrap();
                let first = nfas.pop().unwrap();
                let built = first.union(second);
                nfas.push(built);
                proof {
                    let after = before.drop_last().drop_last().push(
                        union_view(before[before.len() - 2], before[before.len() - 1]),
                    );
                    assert(views_of(nfas@) =~= after);
                    assert(after.drop_last() =~= before.drop_last().drop_last());
                    assert(states_in(after) == states_in(after.drop_last())
                        + after.last().num_states);
                    assert(stack_ok(after, table));
                }
            },
            Some(Operator::Concat) => {
                if nfas.len() < 2 {
                    return false;
                }
                proof {
                    lemma_counts(ops@, before.drop_last().drop_last());
                    assert(states_in(before) == states_in(before.drop_last())
                        + before.last().num_states);
                    assert(states_in(before.drop_last()) == states_in(
                        before.drop_last().drop_last(),
                    ) + before.drop_last().last().num_states);
                }
                let second = nfas.pop().unwrap();
                let first = nfas.pop().unwrap();
                let built = first.concat(second);
                nfas.push(built);
                proof {
                    let after = before.drop_last().drop_last().push(
                        concat_view(before[before.len() - 2], before[before.len() - 1]),
                    );
                    assert(views_of(nfas@) =~= after);
                    assert(after.drop_last() =~= before.drop_last().drop_last());
                    assert(states_in(after) == states_in(after.drop_last())
                        + after.last().num_states);
                    assert(stack_ok(after, table));
                }
            },
        }
    }
}

/// The automaton of a regular expression.
pub fn create_nfa_from_reg_ex(input: &str) -> (result: Result<NFA, ParsingError>)
    ensures
        match result {
            Ok(nfa) => nfa.wf() && parsed(code_units(input.spec_bytes())) == Some(nfa@),
            Err(_) => parsed(code_units(input.spec_bytes())) is None,
        },
{
    let symbol_table = match create_symbol_table(input) {
        Ok(table) => table,
        Err(error) => {
            return Err(error);
        },
    };
    let bytes = input.as_bytes();
    let ghost w = code_units(bytes@);
    let ghost table = symbol_table@;
    let ghost mut seen = seq![Symbol::Epsilon];
    let mut ops: Vec<Operator> = Vec::new();
    let mut nfas: Vec<NFA> = Vec::new();
    let mut i: usize = 0;
    assert(views_of(nfas@) =~= Seq::<NfaView>::empty());
    while i < bytes.len()
        invariant
            i <= bytes@.len(),
            w == code_units(bytes@),
            bytes@ == input.spec_bytes(),
            symbol_table.wf(),
            table == symbol_table@,
            table_of(w) == Some(table),
            table_from(w, i as int, seen) == Some(table),
            parsed(w) == parse_from(w, table, i as int, ops@, views_of(nfas@)),
            stack_ok(views_of(nfas@), table),
            states_in(views_of(nfas@)) + 2 * waiting(ops@) <= i,
        decreases bytes.len() - i,
    {
        let ghost before = views_of(nfas@);
        let ghost ops_before = ops@;
        match token_at(bytes, i) {
            None => {
                return Err(ParsingError::ParseError);
            },
            Some(token) => {
                match token {
                    Token::Concat => {
                        ops.push(Operator::Open);
                        ops.push(Operator::Concat);
                        proof {
                            assert(ops@.drop_last().drop_last() =~= ops_before);
                        }
                    },
                    Token::Union => {
                        ops.push(Operator::Open);
                        ops.push(Operator::Union);
                        proof {
                            assert(ops@.drop_last().drop_last() =~= ops_before);
                            assert(waiting(ops@) == waiting(ops@.drop_last()) + 1);
                        }
                    },
                    Token::Star => {
                        ops.push(Operator::Open);
                        ops.push(Operator::Star);
                        proof {
                            assert(ops@.drop_last().drop_last() =~= ops_before);
                            assert(waiting(ops@) == waiting(ops@.drop_last()) + 1);
                        }
                    },
                    Token::Atom(c) => {
                        let symbol = Symbol::Character(c);
                        proof {
                            let next = with_symbol(seen, symbol);
                            assert(next.contains(symbol)) by {
                                if !seen.contains(symbol) {
                                    assert(next[seen.len() as int] == symbol);
                                }
                            }
                            lemma_table_grows(w, i + 9, next, symbol);
                            seen = next;
                        }
                        let nfa = NFA::from_symbol(&symbol, &symbol_table);
                        nfas.push(nfa);
                        proof {
                            let after = before.push(atom_view(symbol, table));
                            assert(views_of(nfas@) =~= after);
                            assert(after.drop_last() =~= before);
                            assert(stack_ok(after, table));
                        }
                    },
                    Token::Close => {
                        if !close(&mut ops, &mut nfas, Ghost(table)) {
                            return Err(ParsingError::ParseError);
                        }
                    },
                    Token::Comma => {},
                }
                i += token_length(token);
            },
        }
    }
    if ops.len() != 0 || nfas.len() != 1 {
        return Err(ParsingError::ParseError);
    }
    let nfa = nfas.pop().unwrap();
    Ok(nfa)
}

/// The smallest deterministic automaton for a regular expression.
pub fn create_dfa_from_reg_ex(input: &str) -> (result: Result<DFA, ParsingError>)
    ensures
        match result {
            Ok(dfa) => match parsed(code_units(input.spec_bytes())) {
                Some(nfa) => {
                    &&& dfa.wf()
                    &&& dfa@.table == nfa.table
                    &&& dfa@.minimal()
                    &&& forall|w: Seq<char>| dfa@.accepts(w) == nfa.accepts(w)
                },
                None => false,
            },
            Err(_) => parsed(code_units(input.spec_bytes())) is None,
        },
{
    match create_nfa_from_reg_ex(input) {
        Err(error) => Err(error),
        Ok(nfa) => {
            let found = DFA::convert_to_dfa(nfa);
            let dfa = found.minimized_dfa();
            proof {
                assert forall|w: Seq<char>| dfa@.accepts(w) == nfa@.accepts(w) by {
                    assert(dfa@.verdict(w) == found@.verdict(w));
                }
            }
            Ok(dfa)
        },
    }
}

} // verus!
