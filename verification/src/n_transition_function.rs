//! The transition relation of a non-deterministic automaton.

use std::collections::HashSet;
use vstd::prelude::*;
use vstd::string::*;

use crate::custom_errors::{AutomatonError, NFAError};
use crate::state::State;
use crate::symbol_table::Symbol;
use crate::transition_function::BasicFunctionsForTransitions;

verus! {

broadcast use vstd::std_specs::hash::group_hash_axioms;

/// A transition: from a state, on a symbol, to a state.
pub type Edge = (State, Symbol, State);

/// The edge that `edge` becomes when its two states move up by `increment`.
pub open spec fn shifted_edge(edge: Edge, increment: usize) -> Edge {
    ((edge.0 + increment) as State, edge.1, (edge.2 + increment) as State)
}

/// The edges of `edges`, each with its two states moved up by `increment`.
pub open spec fn shifted_edges(edges: Set<Edge>, increment: usize) -> Set<Edge> {
    Set::new(
        |e: Edge|
            e.0 >= increment && e.2 >= increment && edges.contains(
                ((e.0 - increment) as State, e.1, (e.2 - increment) as State),
            ),
    )
}

/// The states that `edges` lead to from `state` on `symbol`.
pub open spec fn targets_of(edges: Set<Edge>, state: State, symbol: Symbol) -> Set<State> {
    Set::new(|next: State| edges.contains((state, symbol, next)))
}

/// The states that `edges` lead to from a state of `set` on `symbol`.
pub open spec fn moved_from(edges: Set<Edge>, set: Set<State>, symbol: Symbol) -> Set<State> {
    Set::new(|t: State| exists|s: State| set.contains(s) && edges.contains((s, symbol, t)))
}

/// One more state in the set adds the states that the edges lead to from it.
pub proof fn lemma_moved_from_insert(
    edges: Set<Edge>,
    set: Set<State>,
    state: State,
    symbol: Symbol,
)
    ensures
        moved_from(edges, set.insert(state), symbol) == moved_from(edges, set, symbol).union(
            targets_of(edges, state, symbol),
        ),
        moved_from(edges, Set::<State>::empty(), symbol) == Set::<State>::empty(),
{
    let more = moved_from(edges, set.insert(state), symbol);
    let less = moved_from(edges, set, symbol);
    let own = targets_of(edges, state, symbol);
    assert forall|t: State| more.contains(t) <==> less.union(own).contains(t) by {
        if less.contains(t) {
            let s = choose|s: State| set.contains(s) && edges.contains((s, symbol, t));
            assert(set.insert(state).contains(s) && edges.contains((s, symbol, t)));
        }
        if own.contains(t) {
            assert(set.insert(state).contains(state) && edges.contains((state, symbol, t)));
        }
    }
}

/// A relation between a state, a symbol and a next state. The empty word is a
/// symbol like any other here.
///
/// The view is the set of the transitions.
#[derive(Debug)]
pub struct NTransitionFunction {
    edges: Vec<Edge>,
}

impl View for NTransitionFunction {
    type V = Set<Edge>;

    closed spec fn view(&self) -> Set<Edge> {
        self.edges@.to_set()
    }
}

impl NTransitionFunction {
    /// The transitions of both tables together.
    pub fn combine_transition(self, other: &Self) -> (both: Self)
        ensures
            both@ == self@.union(other@),
    {
        let mut both = self;
        let mut i: usize = 0;
        while i < other.edges.len()
            invariant
                i <= other.edges.len(),
                both@ == self@.union(other.edges@.take(i as int).to_set()),
            decreases other.edges.len() - i,
        {
            let edge = other.edges[i];
            let _ = both.add_transition(&edge.0, &edge.1, &edge.2);
            proof {
                let head = other.edges@.take(i as int);
                let more = other.edges@.take(i + 1);
                assert(more.to_set() =~= head.to_set().insert(edge)) by {
                    assert forall|e: Edge| more.to_set().contains(e) <==> head.to_set().insert(
                        edge,
                    ).contains(e) by {
                        if e == edge {
                            assert(more[i as int] == e);
                        }
                    }
                }
            }
            i += 1;
        }
        assert(other.edges@.take(other.edges@.len() as int) =~= other.edges@);
        both
    }

    /// Whether a transition leaves `state` on `symbol`.
    pub fn is_valid_transition(&self, state: &State, symbol: &Symbol) -> (valid: bool)
        ensures
            valid == exists|next: State| self@.contains((*state, *symbol, next)),
    {
        let mut i: usize = 0;
        while i < self.edges.len()
            invariant
                i <= self.edges.len(),
                forall|j: int| 0 <= j < i ==> !(self.edges@[j].0 == *state && self.edges@[j].1 == *symbol),
            decreases self.edges.len() - i,
        {
            let edge = self.edges[i];
            if edge.0 == *state && edge.1 == *symbol {
                assert(self@.contains((*state, *symbol, edge.2)));
                return true;
            }
            i += 1;
        }
        false
    }

    /// Whether the table holds the transition from `state` on `symbol` to `next_state`.
    pub fn contains_transition(&self, state: &State, symbol: &Symbol, next_state: &State) -> (found:
        bool)
        ensures
            found == self@.contains((*state, *symbol, *next_state)),
    {
        let mut i: usize = 0;
        while i < self.edges.len()
            invariant
                i <= self.edges.len(),
                forall|j: int| 0 <= j < i ==> self.edges@[j] != (*state, *symbol, *next_state),
            decreases self.edges.len() - i,
        {
            let edge = self.edges[i];
            if edge.0 == *state && edge.1 == *symbol && edge.2 == *next_state {
                return true;
            }
            i += 1;
        }
        false
    }

    /// The states that the table leads to from `state` on `symbol`, if there are any.
    pub fn get_transition(&self, state: &State, symbol: &Symbol) -> (next_states: Option<
        HashSet<State>,
    >)
        ensures
            match next_states {
                Some(set) => set@ == targets_of(self@, *state, *symbol) && set@.len() > 0,
                None => targets_of(self@, *state, *symbol) == Set::<State>::empty(),
            },
    {
        let mut set: HashSet<State> = HashSet::new();
        let mut i: usize = 0;
        while i < self.edges.len()
            invariant
                i <= self.edges.len(),
                forall|next: State|
                    set@.contains(next) <==> exists|j: int|
                        0 <= j < i && self.edges@[j] == (*state, *symbol, next),
            decreases self.edges.len() - i,
        {
            let edge = self.edges[i];
            if edge.0 == *state && edge.1 == *symbol {
                set.insert(edge.2);
            }
            i += 1;
        }
        proof {
            assert(set@ =~= targets_of(self@, *state, *symbol));
            crate::state::lemma_hash_set_finite(&set);
        }
        if set.len() == 0 {
            assert(set@ =~= Set::<State>::empty());
            None
        } else {
            Some(set)
        }
    }
}

impl Clone for NTransitionFunction {
    fn clone(&self) -> (copy: NTransitionFunction)
        ensures
            copy@ == self@,
    {
        let mut edges: Vec<Edge> = Vec::new();
        let mut i: usize = 0;
        while i < self.edges.len()
            invariant
                i <= self.edges.len(),
                edges@ == self.edges@.take(i as int),
            decreases self.edges.len() - i,
        {
            edges.push(self.edges[i]);
            assert(self.edges@.take(i + 1) =~= self.edges@.take(i as int).push(
                self.edges@[i as int],
            ));
            i += 1;
        }
        assert(self.edges@.take(self.edges@.len() as int) =~= self.edges@);
        NTransitionFunction { edges }
    }
}

impl BasicFunctionsForTransitions for NTransitionFunction {
    open spec fn wf(&self) -> bool {
        true
    }

    open spec fn can_extend(&self, increment: usize) -> bool {
        forall|e: Edge| #[trigger]
            self@.contains(e) ==> e.0 + increment <= usize::MAX && e.2 + increment <= usize::MAX
    }

    fn new() -> (table: Self)
        ensures
            table@ == Set::<Edge>::empty(),
    {
        let table = NTransitionFunction { edges: Vec::new() };
        table
    }

    /// Moves every state up by `increment`.
    fn extend(&mut self, increment: usize)
        ensures
            final(self)@ == shifted_edges(old(self)@, increment),
    {
        let mut shifted: Vec<Edge> = Vec::new();
        let mut i: usize = 0;
        while i < self.edges.len()
            invariant
                i <= self.edges.len(),
                self.can_extend(increment),
                shifted@.len() == i,
                forall|j: int| 0 <= j < i ==> shifted@[j] == shifted_edge(self.edges@[j], increment),
            decreases self.edges.len() - i,
        {
            let edge = self.edges[i];
            assert(self@.contains(self.edges@[i as int]));
            shifted.push((edge.0 + increment, edge.1, edge.2 + increment));
            i += 1;
        }
        proof {
            assert(shifted@.to_set() =~= shifted_edges(self@, increment)) by {
                assert forall|e: Edge| shifted@.to_set().contains(e) <==> shifted_edges(
                    self@,
                    increment,
                ).contains(e) by {
                    if shifted@.contains(e) {
                        let j = choose|j: int| 0 <= j < shifted@.len() && shifted@[j] == e;
                        assert(self@.contains(self.edges@[j]));
                        assert(self.edges@[j] == ((e.0 - increment) as State, e.1, (e.2
                            - increment) as State));
                    }
                    if shifted_edges(self@, increment).contains(e) {
                        let source = ((e.0 - increment) as State, e.1, (e.2 - increment) as State);
                        let j = choose|j: int| 0 <= j < self.edges@.len() && self.edges@[j]
                            == source;
                        assert(shifted@[j] == e);
                    }
                }
            }
        }
        self.edges = shifted;
    }

    /// Adds a transition. A transition that the table holds already is
    /// reported and leaves the table as it is.
    fn add_transition(&mut self, state: &State, symbol: &Symbol, next_state: &State) -> (result:
        Result<(), AutomatonError>)
        ensures
            final(self)@ == old(self)@.insert((*state, *symbol, *next_state)),
            old(self)@.contains((*state, *symbol, *next_state)) ==> (result matches Err(
                AutomatonError::NFAError(NFAError::ExistingTransition(detail)),
            ) && detail@ == ""@),
            !old(self)@.contains((*state, *symbol, *next_state)) ==> result is Ok,
    {
        if self.contains_transition(state, symbol, next_state) {
            return Err(AutomatonError::NFAError(NFAError::ExistingTransition("".to_string())));
        }
        let ghost before = self.edges@;
        self.edges.push((*state, *symbol, *next_state));
        proof {
            let edge = (*state, *symbol, *next_state);
            assert(self.edges@.to_set() =~= before.to_set().insert(edge)) by {
                assert forall|e: Edge| self.edges@.to_set().contains(e) <==> before.to_set().insert(
                    edge,
                ).contains(e) by {
                    if before.contains(e) {
                        let j = choose|j: int| 0 <= j < before.len() && before[j] == e;
                        assert(self.edges@[j] == e);
                    }
                    if e == edge {
                        assert(self.edges@[before.len() as int] == e);
                    }
                }
            }
        }
        Ok(())
    }
}

} // verus!
