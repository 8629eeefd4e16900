//! Non-deterministic finite automata with one accepting state, and the
//! constructions that build them from smaller ones.

use std::collections::HashSet;
use vstd::prelude::*;

use crate::dfa::{range_of_states, DFA};
use crate::dfa_model::DfaView;
use crate::n_transition_function::{shifted_edges, targets_of, Edge};
use crate::nfa_model::{
    lemma_closure_holds_set, lemma_closure_is_least, lemma_closure_step, NfaView,
};
use crate::state::{
    copy_states, lemma_distinct_states_bounded_by, lemma_hash_set_finite, members, state_range,
    State,
};
use crate::symbol_table::{Symbol, SymbolTable};
use crate::transition_function::{BasicFunctionsForTransitions, NTransitionFunction};

verus! {

broadcast use vstd::std_specs::hash::group_hash_axioms;

/// The automaton that accepts the one word that `symbol` stands for.
pub open spec fn atom_view(symbol: Symbol, table: Seq<Symbol>) -> NfaView {
    if symbol == Symbol::Epsilon {
        NfaView {
            num_states: 1,
            table: table,
            states: state_range(0, 0),
            begin: 0,
            end: 0,
            start: 0,
            accept: 0,
            edges: Set::empty(),
        }
    } else {
        NfaView {
            num_states: 2,
            table: table,
            states: state_range(0, 1),
            begin: 0,
            end: 1,
            start: 0,
            accept: 1,
            edges: set![(0 as State, symbol, 1 as State)],
        }
    }
}

/// The automaton `n` with every state moved up by `increment`.
pub open spec fn shifted_nfa_view(n: NfaView, increment: usize) -> NfaView {
    NfaView {
        num_states: n.num_states,
        table: n.table,
        states: state_range((n.begin + increment) as State, (n.end + increment) as State),
        begin: (n.begin + increment) as State,
        end: (n.end + increment) as State,
        start: (n.start + increment) as State,
        accept: (n.accept + increment) as State,
        edges: shifted_edges(n.edges, increment),
    }
}

/// The automaton for the words of `a` and the words of `b`: a new start state
/// before both, a new accepting state behind both.
pub open spec fn union_view(a: NfaView, b: NfaView) -> NfaView {
    let x = a.num_states;
    let y = b.num_states;
    let last = (x + y + 1) as State;
    NfaView {
        num_states: (x + y + 2) as usize,
        table: a.table,
        states: state_range(0, last),
        begin: 0,
        end: last,
        start: 0,
        accept: last,
        edges: shifted_edges(a.edges, 1).union(shifted_edges(b.edges, (x + 1) as usize)).insert(
            (0, Symbol::Epsilon, (a.start + 1) as State),
        ).insert((0, Symbol::Epsilon, (b.start + x + 1) as State)).insert(
            ((a.accept + 1) as State, Symbol::Epsilon, last),
        ).insert(((b.accept + x + 1) as State, Symbol::Epsilon, last)),
    }
}

/// The automaton for the words that are a word of `a` followed by a word of
/// `b`: a new start state before `a`, and `b` behind `a`.
pub open spec fn concat_view(a: NfaView, b: NfaView) -> NfaView {
    let x = a.num_states;
    let y = b.num_states;
    NfaView {
        num_states: (x + y + 1) as usize,
        table: a.table,
        states: state_range(0, (x + y) as State),
        begin: 0,
        end: (x + y) as State,
        start: 0,
        accept: (b.accept + x + 1) as State,
        edges: shifted_edges(a.edges, 1).union(shifted_edges(b.edges, (x + 1) as usize)).insert(
            (0, Symbol::Epsilon, (a.start + 1) as State),
        ).insert(((a.accept + 1) as State, Symbol::Epsilon, (b.start + x + 1) as State)),
    }
}

/// The automaton for the words that are words of `a`, any number of them, one
/// after the other: a new start state before `a`, a new accepting state
/// behind it, and a way from each of the two to the other.
pub open spec fn star_view(a: NfaView) -> NfaView {
    let x = a.num_states;
    let last = (x + 1) as State;
    NfaView {
        num_states: (x + 2) as usize,
        table: a.table,
        states: state_range(0, last),
        begin: 0,
        end: last,
        start: 0,
        accept: last,
        edges: shifted_edges(a.edges, 1).insert((0, Symbol::Epsilon, (a.start + 1) as State)).insert(
            ((a.accept + 1) as State, Symbol::Epsilon, last),
        ).insert((last, Symbol::Epsilon, 0)).insert((0, Symbol::Epsilon, last)),
    }
}

/// The non-deterministic automaton that has the transitions of `d`, one more
/// state, which alone accepts, and a transition on the empty word from every
/// accepting state of `d` to that state.
pub open spec fn lifted_view(d: DfaView) -> NfaView {
    NfaView {
        num_states: (d.num_states + 1) as usize,
        table: d.table,
        states: state_range(d.begin, (d.end + 1) as State),
        begin: d.begin,
        end: (d.end + 1) as State,
        start: d.start,
        accept: (d.end + 1) as State,
        edges: Set::new(|e: Edge| lifted_edge(d, e)),
    }
}

/// Whether `e` is a transition of the automaton that `d` is lifted to: a
/// transition of `d`, or the way from an accepting state of `d` to the new state.
pub open spec fn lifted_edge(d: DfaView, e: Edge) -> bool {
    match e.1 {
        Symbol::Epsilon => d.finals.contains(e.0) && e.2 == d.end + 1,
        Symbol::Character(c) => d.delta.contains_key((e.0, c)) && d.delta[(e.0, c)] == e.2,
    }
}

/// A non-deterministic finite automaton with one accepting state.
#[derive(Debug)]
pub struct NFA {
    num_states: usize,
    symbol_table: SymbolTable,
    states: HashSet<State>,
    begin_state_num: State,
    end_state_num: State,
    start_state: State,
    final_state: State,
    transition_function: NTransitionFunction,
}

impl View for NFA {
    type V = NfaView;

    closed spec fn view(&self) -> NfaView {
        NfaView {
            num_states: self.num_states,
            table: self.symbol_table@,
            states: self.states@,
            begin: self.begin_state_num,
            end: self.end_state_num,
            start: self.start_state,
            accept: self.final_state,
            edges: self.transition_function@,
        }
    }
}

impl Clone for NFA {
    fn clone(&self) -> (copy: NFA)
        ensures
            copy@ == self@,
    {
        NFA {
            num_states: self.num_states,
            symbol_table: self.symbol_table.clone(),
            states: copy_states(&self.states),
            begin_state_num: self.begin_state_num,
            end_state_num: self.end_state_num,
            start_state: self.start_state,
            final_state: self.final_state,
            transition_function: self.transition_function.clone(),
        }
    }
}

impl NFA {
    /// The automaton is well formed.
    pub open spec fn wf(&self) -> bool {
        self@.wf()
    }

    /// Puts an automaton together from its parts.
    pub fn assemble(
        symbol_table: SymbolTable,
        begin: State,
        end: State,
        start: State,
        final_state: State,
        transition_function: NTransitionFunction,
    ) -> (nfa: NFA)
        requires
            begin <= end,
            end - begin < usize::MAX,
        ensures
            nfa@ == (NfaView {
                num_states: (end - begin + 1) as usize,
                table: symbol_table@,
                states: state_range(begin, end),
                begin: begin,
                end: end,
                start: start,
                accept: final_state,
                edges: transition_function@,
            }),
    {
        NFA {
            num_states: end - begin + 1,
            symbol_table,
            states: range_of_states(begin, end),
            begin_state_num: begin,
            end_state_num: end,
            start_state: start,
            final_state,
            transition_function,
        }
    }

    pub fn num_states(&self) -> (n: usize)
        ensures
            n == self@.num_states,
    {
        self.num_states
    }

    pub fn symbol_table(&self) -> (table: &SymbolTable)
        ensures
            table@ == self@.table,
    {
        &self.symbol_table
    }

    pub fn states(&self) -> (set: &HashSet<State>)
        ensures
            set@ == self@.states,
    {
        &self.states
    }

    pub fn begin_state_num(&self) -> (state: State)
        ensures
            state == self@.begin,
    {
        self.begin_state_num
    }

    pub fn end_state_num(&self) -> (state: State)
        ensures
            state == self@.end,
    {
        self.end_state_num
    }

    pub fn start_state(&self) -> (state: State)
        ensures
            state == self@.start,
    {
        self.start_state
    }

    pub fn final_state(&self) -> (state: State)
        ensures
            state == self@.accept,
    {
        self.final_state
    }

    /// The states that the transitions lead to from `state` on `symbol`, if
    /// there are any.
    pub fn get_transition(&self, state: &State, symbol: &Symbol) -> (next_states: Option<
        HashSet<State>,
    >)
        ensures
            match next_states {
                Some(set) => set@ == targets_of(self@.edges, *state, *symbol) && set@.len() > 0,
                None => targets_of(self@.edges, *state, *symbol) == Set::<State>::empty(),
            },
    {
        self.transition_function.get_transition(state, symbol)
    }

    /// Whether a transition leaves `state` on `symbol`.
    pub fn is_valid_transition(&self, state: &State, symbol: &Symbol) -> (valid: bool)
        ensures
            valid == exists|next: State| self@.edges.contains((*state, *symbol, next)),
    {
        let valid = self.transition_function.is_valid_transition(state, symbol);
        proof {
            if valid {
            }
            if exists|next: State| self@.edges.contains((*state, *symbol, next)) {
                let next = choose|next: State| self@.edges.contains((*state, *symbol, next));
            }
        }
        valid
    }

    /// Whether the automaton has the transition from `state` on `symbol` to `next_state`.
    pub fn contains_transition(&self, state: &State, symbol: &Symbol, next_state: &State) -> (found:
        bool)
        ensures
            found == self@.edges.contains((*state, *symbol, *next_state)),
    {
        self.transition_function.contains_transition(state, symbol, next_state)
    }

    /// The automaton that accepts the one word that `symbol` stands for: the
    /// empty word, or the word of one character.
    pub fn from_symbol(symbol: &Symbol, symbol_table: &SymbolTable) -> (nfa: NFA)
        ensures
            nfa@ == atom_view(*symbol, symbol_table@),
            symbol_table.wf() && symbol_table@.contains(*symbol) ==> nfa.wf(),
    {
        let mut transition_function = NTransitionFunction::new();
        if *symbol == Symbol::Epsilon {
            return NFA::assemble(symbol_table.clone(), 0, 0, 0, 0, transition_function);
        }
        let _ = transition_function.add_transition(&0, symbol, &1);
        let nfa = NFA::assemble(symbol_table.clone(), 0, 1, 0, 1, transition_function);
        nfa
    }

    /// Moves every state up by `increment`.
    pub fn extend(&mut self, increment: usize)
        requires
            old(self).wf(),
            old(self)@.end + increment <= usize::MAX,
        ensures
            final(self).wf(),
            final(self)@ == shifted_nfa_view(old(self)@, increment),
            forall|w: Seq<char>| final(self)@.accepts(w) == old(self)@.accepts(w),
    {
        let ghost before = self@;
        proof {
            crate::nfa_laws::lemma_shifted_language(before, increment);
            assert forall|e: Edge| #[trigger] self.transition_function@.contains(e) implies e.0
                + increment <= usize::MAX && e.2 + increment <= usize::MAX by {
                assert(before.edges.contains(e));
            }
        }
        let states = range_of_states(
            self.begin_state_num + increment,
            self.end_state_num + increment,
        );
        self.transition_function.extend(increment);
        self.states = states;
        self.begin_state_num = self.begin_state_num + increment;
        self.end_state_num = self.end_state_num + increment;
        self.start_state = self.start_state + increment;
        self.final_state = self.final_state + increment;
        proof {
            assert forall|e: Edge| #[trigger] self@.edges.contains(e) implies self@.has_state(e.0)
                && self@.has_state(e.2) && self@.table.contains(e.1) by {
                let source = ((e.0 - increment) as State, e.1, (e.2 - increment) as State);
                assert(before.edges.contains(source));
            }
        }
    }

    /// The states that are reached from `state` by transitions on the empty
    /// word, `state` among them.
    pub fn epsilon_closure(&self, state: &State) -> (closure: HashSet<State>)
        requires
            self.wf(),
        ensures
            closure@ == self@.closure(set![*state]),
    {
        let mut one: HashSet<State> = HashSet::new();
        one.insert(*state);
        self.epsilon_closure_of_set_of_states(&one)
    }

    /// The states that are reached from a state of `states` by transitions on
    /// the empty word, the states of `states` among them.
    pub fn epsilon_closure_of_set_of_states(&self, states: &HashSet<State>) -> (closure: HashSet<
        State,
    >)
        requires
            self.wf(),
        ensures
            closure@ == self@.closure(states@),
    {
        let mut order = members(states);
        let mut seen = copy_states(states);
        let mut next: usize = 0;
        proof {
            assert forall|x: State| seen@.contains(x) implies self@.closure(states@).contains(
                x,
            ) by {
                lemma_closure_holds_set(self@, states@, x);
            }
        }
        while next < order.len()
            invariant
                self.wf(),
                next <= order@.len(),
                order@.no_duplicates(),
                forall|x: State| seen@.contains(x) <==> order@.contains(x),
                forall|x: State| states@.contains(x) ==> seen@.contains(x),
                forall|x: State| seen@.contains(x) ==> self@.closure(states@).contains(x),
                forall|i: int|
                    0 <= i < order@.len() ==> states@.contains(#[trigger] order@[i])
                        || self@.has_state(order@[i]),
                forall|i: int, v: State|
                    0 <= i < next && #[trigger] self@.edges.contains(
                        (order@[i], Symbol::Epsilon, v),
                    ) ==> seen@.contains(v),
            decreases states@.len() + self@.num_states - next,
        {
            proof {
                lemma_hash_set_finite(states);
                lemma_distinct_states_bounded_by(order@, states@, self@.begin, self@.end);
            }
            let state = order[next];
            assert(seen@.contains(state));
            match self.transition_function.get_transition(&state, &Symbol::Epsilon) {
                Some(targets) => {
                    let found = members(&targets);
                    let mut k: usize = 0;
                    proof {
                        assert forall|j: int| 0 <= j < found@.len() implies self@.edges.contains(
                            (state, Symbol::Epsilon, #[trigger] found@[j]),
                        ) by {
                            assert(found@.contains(found@[j]));
                        }
                    }
                    while k < found.len()
                        invariant
                            self.wf(),
                            k <= found@.len(),
                            next < order@.len(),
                            state == order@[next as int],
                            self@.closure(states@).contains(state),
                            order@.no_duplicates(),
                            forall|x: State| seen@.contains(x) <==> order@.contains(x),
                            forall|x: State| states@.contains(x) ==> seen@.contains(x),
                            forall|x: State|
                                seen@.contains(x) ==> self@.closure(states@).contains(x),
                            forall|i: int|
                                0 <= i < order@.len() ==> states@.contains(#[trigger] order@[i])
                                    || self@.has_state(order@[i]),
                            forall|i: int, v: State|
                                0 <= i < next && #[trigger] self@.edges.contains(
                                    (order@[i], Symbol::Epsilon, v),
                                ) ==> seen@.contains(v),
                            forall|j: int|
                                0 <= j < found@.len() ==> self@.edges.contains(
                                    (state, Symbol::Epsilon, #[trigger] found@[j]),
                                ),
                            forall|j: int| 0 <= j < k ==> seen@.contains(#[trigger] found@[j]),
                        decreases found.len() - k,
                    {
                        let target = found[k];
                        let ghost before = order@;
                        if !seen.contains(&target) {
                            seen.insert(target);
                            order.push(target);
                            proof {
                                lemma_closure_step(self@, states@, state, target);
                                assert forall|x: State|
                                    seen@.contains(x) <==> order@.contains(x) by {
                                    if before.contains(x) {
                                        let j = choose|j: int|
                                            0 <= j < before.len() && before[j] == x;
                                        assert(order@[j] == x);
                                    }
                                    if x == target {
                                        assert(order@[before.len() as int] == x);
                                    }
                                }
                            }
                        }
                        k += 1;
                    }
                    proof {
                        assert forall|v: State| #[trigger]
                            self@.edges.contains(
                                (state, Symbol::Epsilon, v),
                            ) implies seen@.contains(v) by {
                            assert(targets@.contains(v));
                        }
                    }
                },
                None => {
                    proof {
                        assert forall|v: State| #[trigger]
                            self@.edges.contains(
                                (state, Symbol::Epsilon, v),
                            ) implies seen@.contains(v) by {
                            assert(targets_of(self@.edges, state, Symbol::Epsilon).contains(v));
                        }
                    }
                },
            }
            next += 1;
        }
        proof {
            lemma_closure_is_least(self@, states@, seen@);
        }
        seen
    }
}

/// The edges of a well-formed automaton, moved up, lead between the states
/// that lie as much higher.
pub proof fn lemma_shifted_edges_stay(n: NfaView, increment: usize, e: Edge)
    requires
        n.wf(),
        n.end + increment <= usize::MAX,
        shifted_edges(n.edges, increment).contains(e),
    ensures
        n.begin + increment <= e.0 <= n.end + increment,
        n.begin + increment <= e.2 <= n.end + increment,
        n.table.contains(e.1),
{
}

/// The union of two well-formed automata over the same symbols is well formed.
pub proof fn lemma_union_view_wf(a: NfaView, b: NfaView)
    requires
        a.wf(),
        b.wf(),
        a.begin == 0,
        b.begin == 0,
        a.table.to_set() == b.table.to_set(),
        a.num_states + b.num_states + 2 <= usize::MAX,
    ensures
        union_view(a, b).wf(),
{
    let u = union_view(a, b);
    let x = a.num_states;
    assert forall|e: Edge| #[trigger] u.edges.contains(e) implies u.has_state(e.0) && u.has_state(
        e.2,
    ) && u.table.contains(e.1) by {
        if shifted_edges(a.edges, 1).contains(e) {
            lemma_shifted_edges_stay(a, 1, e);
        } else if shifted_edges(b.edges, (x + 1) as usize).contains(e) {
            lemma_shifted_edges_stay(b, (x + 1) as usize, e);
            assert(b.table.to_set().contains(e.1));
        }
    }
}

/// The concatenation of two well-formed automata over the same symbols is
/// well formed.
pub proof fn lemma_concat_view_wf(a: NfaView, b: NfaView)
    requires
        a.wf(),
        b.wf(),
        a.begin == 0,
        b.begin == 0,
        a.table.to_set() == b.table.to_set(),
        a.num_states + b.num_states + 1 <= usize::MAX,
    ensures
        concat_view(a, b).wf(),
{
    let u = concat_view(a, b);
    let x = a.num_states;
    assert forall|e: Edge| #[trigger] u.edges.contains(e) implies u.has_state(e.0) && u.has_state(
        e.2,
    ) && u.table.contains(e.1) by {
        if shifted_edges(a.edges, 1).contains(e) {
            lemma_shifted_edges_stay(a, 1, e);
        } else if shifted_edges(b.edges, (x + 1) as usize).contains(e) {
            lemma_shifted_edges_stay(b, (x + 1) as usize, e);
            assert(b.table.to_set().contains(e.1));
        }
    }
}

/// The star of a well-formed automaton is well formed.
pub proof fn lemma_star_view_wf(a: NfaView)
    requires
        a.wf(),
        a.begin == 0,
        a.num_states + 2 <= usize::MAX,
    ensures
        star_view(a).wf(),
{
    let u = star_view(a);
    assert forall|e: Edge| #[trigger] u.edges.contains(e) implies u.has_state(e.0) && u.has_state(
        e.2,
    ) && u.table.contains(e.1) by {
        if shifted_edges(a.edges, 1).contains(e) {
            lemma_shifted_edges_stay(a, 1, e);
        }
    }
}

/// The edges of `all` that leave a state below `state`.
pub open spec fn rows_below(all: Set<Edge>, state: State) -> Set<Edge> {
    Set::new(|e: Edge| all.contains(e) && e.0 < state)
}

/// The edges of `all` that leave a state below `state`, or that leave `state`
/// on one of the first `k` symbols, the empty word apart.
pub open spec fn row_begun(all: Set<Edge>, symbols: Seq<Symbol>, state: State, k: int) -> Set<
    Edge,
> {
    Set::new(
        |e: Edge|
            all.contains(e) && (e.0 < state || (e.0 == state && e.1 != Symbol::Epsilon
                && symbols.take(k).contains(e.1))),
    )
}

/// The automaton that a well-formed deterministic automaton is lifted to is
/// well formed, and has at most one transition from a state on a character.
pub proof fn lemma_lifted_view_wf(d: DfaView)
    requires
        d.wf(),
        d.end < usize::MAX,
        d.num_states < usize::MAX,
    ensures
        lifted_view(d).wf(),
        forall|e: Edge, f: Edge|
            lifted_view(d).edges.contains(e) && lifted_view(d).edges.contains(f) && e.0 == f.0
                && e.1 == f.1 && e.1 != Symbol::Epsilon ==> e.2 == f.2,
{
}

/// The constructions that build an automaton from smaller ones.
impl NFA {
    /// The non-deterministic automaton that does what `dfa` does: it has the
    /// transitions of `dfa` and one more state, which alone accepts and which
    /// the accepting states of `dfa` lead to on the empty word.
    pub fn convert_dfa_to_nfa(dfa: DFA) -> (nfa: NFA)
        requires
            dfa.wf(),
            dfa@.end < usize::MAX,
            dfa@.num_states < usize::MAX,
        ensures
            nfa.wf(),
            nfa@ == lifted_view(dfa@),
    {
        let begin = dfa.begin_state_num();
        let end = dfa.end_state_num();
        let fresh = end + 1;
        let symbols = dfa.symbol_table().symbols();
        let ghost lifted = lifted_view(dfa@).edges;
        let mut transition_function = NTransitionFunction::new();
        let mut state = begin;
        while state <= end
            invariant
                dfa.wf(),
                begin == dfa@.begin,
                end == dfa@.end,
                end < usize::MAX,
                fresh == end + 1,
                begin <= state <= end + 1,
                symbols@ == dfa@.table,
                lifted == lifted_view(dfa@).edges,
                transition_function@ == rows_below(lifted, state),
            decreases end + 1 - state,
        {
            let mut k: usize = 0;
            assert(transition_function@ =~= row_begun(lifted, symbols@, state, 0));
            while k < symbols.len()
                invariant
                    dfa.wf(),
                    begin == dfa@.begin,
                    end == dfa@.end,
                    begin <= state <= end,
                    k <= symbols@.len(),
                    symbols@ == dfa@.table,
                    lifted == lifted_view(dfa@).edges,
                    transition_function@ == row_begun(lifted, symbols@, state, k as int),
                decreases symbols.len() - k,
            {
                let symbol = symbols[k];
                match dfa.get_transition(&state, &symbol) {
                    Some(next_state) => {
                        let _ = transition_function.add_transition(&state, &symbol, &next_state);
                    },
                    None => {},
                }
                proof {
                    let shorter = symbols@.take(k as int);
                    let longer = symbols@.take(k + 1);
                    assert forall|x: Symbol| longer.contains(x) <==> shorter.contains(x) || x
                        == symbol by {
                        if x == symbol {
                            assert(longer[k as int] == x);
                        }
                    }
                }
                k += 1;
            }
            if dfa.final_states().contains(&state) {
                let _ = transition_function.add_transition(&state, &Symbol::Epsilon, &fresh);
            }
            proof {
                assert(symbols@.take(symbols@.len() as int) =~= symbols@);
            }
            state += 1;
        }
        let nfa = NFA::assemble(
            dfa.symbol_table().clone(),
            begin,
            fresh,
            dfa.start_state(),
            fresh,
            transition_function,
        );
        proof {
            lemma_lifted_view_wf(dfa@);
            assert(nfa@.edges =~= lifted);
        }
        nfa
    }

    /// The automaton that accepts the words of `self` and the words of `other`.
    pub fn union(self, other: NFA) -> (nfa: NFA)
        requires
            self.wf(),
            other.wf(),
            self@.begin == 0,
            other@.begin == 0,
            self@.table.to_set() == other@.table.to_set(),
            self@.num_states + other@.num_states + 2 <= usize::MAX,
        ensures
            nfa.wf(),
            nfa@ == union_view(self@, other@),
    {
        let mut first = self;
        let mut second = other;
        let x = first.num_states;
        let y = second.num_states;
        first.extend(1);
        second.extend(x + 1);
        let start_of_first = first.start_state;
        let final_of_first = first.final_state;
        let start_of_second = second.start_state;
        let final_of_second = second.final_state;
        let last = x + y + 1;
        let mut transition_function = first.transition_function.combine_transition(
            &second.transition_function,
        );
        let epsilon = Symbol::Epsilon;
        let _ = transition_function.add_transition(&0, &epsilon, &start_of_first);
        let _ = transition_function.add_transition(&0, &epsilon, &start_of_second);
        let _ = transition_function.add_transition(&final_of_first, &epsilon, &last);
        let _ = transition_function.add_transition(&final_of_second, &epsilon, &last);
        let nfa = NFA::assemble(first.symbol_table, 0, last, 0, last, transition_function);
        proof {
            lemma_union_view_wf(self@, other@);
        }
        nfa
    }

    /// The automaton that accepts the words that are a word of `self`
    /// followed by a word of `other`.
    pub fn concat(self, other: NFA) -> (nfa: NFA)
        requires
            self.wf(),
            other.wf(),
            self@.begin == 0,
            other@.begin == 0,
            self@.table.to_set() == other@.table.to_set(),
            self@.num_states + other@.num_states + 1 <= usize::MAX,
        ensures
            nfa.wf(),
            nfa@ == concat_view(self@, other@),
    {
        let mut first = self;
        let mut second = other;
        let x = first.num_states;
        let y = second.num_states;
        first.extend(1);
        second.extend(x + 1);
        let start_of_first = first.start_state;
        let final_of_first = first.final_state;
        let start_of_second = second.start_state;
        let final_of_second = second.final_state;
        let mut transition_function = first.transition_function.combine_transition(
            &second.transition_function,
        );
        let epsilon = Symbol::Epsilon;
        let _ = transition_function.add_transition(&0, &epsilon, &start_of_first);
        let _ = transition_function.add_transition(&final_of_first, &epsilon, &start_of_second);
        let nfa = NFA::assemble(
            first.symbol_table,
            0,
            x + y,
            0,
            final_of_second,
            transition_function,
        );
        proof {
            lemma_concat_view_wf(self@, other@);
        }
        nfa
    }

    /// The automaton that accepts the words that are made of any number of
    /// words of `self`, one after the other.
    pub fn kleene_star(self) -> (nfa: NFA)
        requires
            self.wf(),
            self@.begin == 0,
            self@.num_states + 2 <= usize::MAX,
        ensures
            nfa.wf(),
            nfa@ == star_view(self@),
    {
        let mut first = self;
        let x = first.num_states;
        first.extend(1);
        let start_of_first = first.start_state;
        let final_of_first = first.final_state;
        let last = x + 1;
        let mut transition_function = first.transition_function;
        let epsilon = Symbol::Epsilon;
        let _ = transition_function.add_transition(&0, &epsilon, &start_of_first);
        let _ = transition_function.add_transition(&final_of_first, &epsilon, &last);
        let _ = transition_function.add_transition(&last, &epsilon, &0);
        let _ = transition_function.add_transition(&0, &epsilon, &last);
        let nfa = NFA::assemble(first.symbol_table, 0, last, 0, last, transition_function);
        proof {
            lemma_star_view_wf(self@);
        }
        nfa
    }
}

} // verus!
