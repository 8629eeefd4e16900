//! The automaton of a symbol accepts the one word of that symbol.

use vstd::prelude::*;

use crate::n_transition_function::moved_from;
use crate::nfa::atom_view;
use crate::nfa_algebra::{eps_closed, lemma_closure_of_closed};
use crate::nfa_model::lemma_run_of_nothing;
use crate::state::State;
use crate::symbol_table::Symbol;

verus! {

/// In the automaton of a character every set of states is closed, and a
/// symbol leads from the first state to the second if it is the character,
/// and nowhere else.
proof fn lemma_atom_moves(c: char, table: Seq<Symbol>, set: Set<State>, symbol: Symbol)
    ensures
        eps_closed(atom_view(Symbol::Character(c), table), set),
        moved_from(atom_view(Symbol::Character(c), table).edges, set, symbol) == if set.contains(0)
            && symbol == Symbol::Character(c) {
            set![1 as State]
        } else {
            Set::<State>::empty()
        },
{
}

/// From its second state the automaton of a character accepts the empty word
/// only; from its first state the word of the character only.
proof fn lemma_atom_run(c: char, table: Seq<Symbol>, from: State, w: Seq<char>)
    requires
        from == 0 || from == 1,
    ensures
        atom_view(Symbol::Character(c), table).run(set![from], w).contains(1) == if from == 0 {
            w == seq![c]
        } else {
            w.len() == 0
        },
    decreases w.len(),
{
    let n = atom_view(Symbol::Character(c), table);
    if w.len() > 0 {
        let d = w[0];
        let rest = w.drop_first();
        lemma_atom_moves(c, table, set![from], Symbol::Character(d));
        let moved = n.moved(set![from], d);
        lemma_atom_moves(c, table, moved, Symbol::Epsilon);
        lemma_closure_of_closed(n, moved);
        if from == 0 && d == c {
            lemma_atom_run(c, table, 1, rest);
            assert((w == seq![c]) == (rest.len() == 0)) by {
                if rest.len() == 0 {
                    assert(w =~= seq![c]);
                }
            }
        } else {
            lemma_run_of_nothing(n, rest);
        }
    }
}

/// The automaton of a character accepts the word of that character, and no other.
pub proof fn lemma_atom_language(c: char, table: Seq<Symbol>, w: Seq<char>)
    ensures
        atom_view(Symbol::Character(c), table).accepts(w) == (w == seq![c]),
{
    let n = atom_view(Symbol::Character(c), table);
    lemma_atom_moves(c, table, set![0 as State], Symbol::Epsilon);
    lemma_closure_of_closed(n, set![0 as State]);
    lemma_atom_run(c, table, 0, w);
}

} // verus!
