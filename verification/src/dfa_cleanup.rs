//! Dropping the states of a deterministic automaton that cannot be reached.

use std::collections::{HashMap, HashSet};
use vstd::prelude::*;

use crate::dfa::DFA;
use crate::dfa_model::{
    lemma_closed_list_holds_walk, lemma_reachable_step, lemma_renumbering, lemma_start_reachable,
    renumbering, DfaView,
};
use crate::state::{lemma_distinct_states_bounded, State};
use crate::symbol_table::Symbol;
use crate::transition_function::{BasicFunctionsForTransitions, DTransitionFunction};

verus! {

broadcast use vstd::std_specs::hash::group_hash_axioms;

/// `order` holds the start state first, no state twice, and reachable states only.
pub open spec fn lists_reachable(d: DfaView, order: Seq<State>) -> bool {
    &&& order.len() >= 1
    &&& order[0] == d.start
    &&& order.no_duplicates()
    &&& forall|i: int|
        0 <= i < order.len() ==> d.has_state(#[trigger] order[i]) && d.reachable(order[i])
}

/// The map that leads every state of the list to its place in the list.
fn places(order: &Vec<State>) -> (place: HashMap<State, State>)
    requires
        order@.no_duplicates(),
    ensures
        forall|s: State| place@.contains_key(s) <==> order@.contains(s),
        forall|i: int| 0 <= i < order@.len() ==> place@[#[trigger] order@[i]] == i,
{
    let mut place: HashMap<State, State> = HashMap::new();
    let mut i: usize = 0;
    while i < order.len()
        invariant
            i <= order.len(),
            order@.no_duplicates(),
            forall|s: State|
                place@.contains_key(s) <==> exists|j: int| 0 <= j < i && order@[j] == s,
            forall|j: int| 0 <= j < i ==> place@[#[trigger] order@[j]] == j,
        decreases order.len() - i,
    {
        place.insert(order[i], i);
        i += 1;
    }
    place
}

impl DFA {
    /// The reachable states, each once, in the order in which a search that
    /// starts at the start state and goes through the symbols by their
    /// numbers finds them.
    pub fn reachable_order(&self) -> (order: Vec<State>)
        requires
            self.wf(),
        ensures
            lists_reachable(self@, order@),
            forall|s: State| self@.reachable(s) ==> order@.contains(s),
            order@.len() <= self@.num_states,
    {
        let symbols = self.symbol_table().symbols();
        let start = self.start_state();
        let mut order: Vec<State> = Vec::new();
        let mut seen: HashSet<State> = HashSet::new();
        order.push(start);
        seen.insert(start);
        proof {
            lemma_start_reachable(self@);
            lemma_distinct_states_bounded(order@, self@.begin, self@.end);
            assert forall|s: State| seen@.contains(s) <==> order@.contains(s) by {
                if s == start {
                    assert(order@[0] == s);
                }
            }
        }
        let mut next: usize = 0;
        while next < order.len()
            invariant
                self.wf(),
                symbols@ == self@.table,
                next <= order@.len(),
                order@.len() <= self@.num_states,
                lists_reachable(self@, order@),
                forall|s: State| seen@.contains(s) <==> order@.contains(s),
                forall|i: int, c: char|
                    0 <= i < next && #[trigger] self@.delta.contains_key((order@[i], c))
                        ==> order@.contains(self@.delta[(order@[i], c)]),
            decreases self@.num_states - next,
        {
            let state = order[next];
            let mut k: usize = 0;
            while k < symbols.len()
                invariant
                    self.wf(),
                    symbols@ == self@.table,
                    k <= symbols@.len(),
                    next < order@.len(),
                    state == order@[next as int],
                    order@.len() <= self@.num_states,
                    lists_reachable(self@, order@),
                    forall|s: State| seen@.contains(s) <==> order@.contains(s),
                    forall|i: int, c: char|
                        0 <= i < next && #[trigger] self@.delta.contains_key((order@[i], c))
                            ==> order@.contains(self@.delta[(order@[i], c)]),
                    forall|j: int|
                        0 <= j < k ==> (#[trigger] symbols@[j] matches Symbol::Character(c)
                            ==> order@.contains(self@.delta[(state, c)])),
                decreases symbols.len() - k,
            {
                let ghost before = order@;
                match symbols[k] {
                    Symbol::Epsilon => {},
                    Symbol::Character(c) => {
                        proof {
                            lemma_reachable_step(self@, state, c);
                        }
                        match self.transitions().next(state, c) {
                            Some(target) => {
                                if !seen.contains(&target) {
                                    seen.insert(target);
                                    order.push(target);
                                    proof {
                                        assert(order@.no_duplicates());
                                        assert forall|s: State|
                                            seen@.contains(s) <==> order@.contains(s) by {
                                            if before.contains(s) {
                                                let j = choose|j: int|
                                                    0 <= j < before.len() && before[j] == s;
                                                assert(order@[j] == s);
                                            }
                                            if s == target {
                                                assert(order@[before.len() as int] == s);
                                            }
                                        }
                                        lemma_distinct_states_bounded(
                                            order@,
                                            self@.begin,
                                            self@.end,
                                        );
                                    }
                                }
                            },
                            None => {},
                        }
                    },
                }
                k += 1;
            }
            proof {
                assert forall|i: int, c: char|
                    0 <= i < next + 1 && #[trigger] self@.delta.contains_key((order@[i], c))
                    implies order@.contains(self@.delta[(order@[i], c)]) by {
                    if i == next {
                        let j = choose|j: int|
                            0 <= j < symbols@.len() && symbols@[j] == Symbol::Character(c);
                        assert(symbols@[j] matches Symbol::Character(x) ==> order@.contains(
                            self@.delta[(state, x)],
                        ));
                    }
                }
            }
            next += 1;
        }
        proof {
            assert forall|s: State| self@.reachable(s) implies order@.contains(s) by {
                let w = choose|w: Seq<char>| self@.walk(self@.start, w) == Some(s);
                lemma_closed_list_holds_walk(self@, order@, self@.start, w);
            }
        }
        order
    }

    /// The automaton that is left when only the states of `order` are kept,
    /// each under its place in `order` as its new number.
    pub fn renumbered(&self, order: &Vec<State>) -> (dfa: DFA)
        requires
            self.wf(),
            lists_reachable(self@, order@),
            forall|s: State| self@.reachable(s) ==> order@.contains(s),
        ensures
            dfa.wf(),
            renumbering(self@, dfa@, order@),
            dfa@.num_states == order@.len(),
    {
        let symbols = self.symbol_table().symbols();
        let place = places(order);
        let count = order.len();
        let mut transition_function = DTransitionFunction::new();
        let mut final_states: HashSet<State> = HashSet::new();
        let mut i: usize = 0;
        while i < count
            invariant
                self.wf(),
                symbols@ == self@.table,
                count == order@.len(),
                i <= count,
                lists_reachable(self@, order@),
                forall|s: State| self@.reachable(s) ==> order@.contains(s),
                forall|s: State| place@.contains_key(s) <==> order@.contains(s),
                forall|j: int| 0 <= j < order@.len() ==> place@[#[trigger] order@[j]] == j,
                transition_function.wf(),
                forall|key: (State, char)| #[trigger]
                    transition_function@.contains_key(key) <==> key.0 < i && self@.has_char(key.1),
                forall|key: (State, char)|
                    transition_function@.contains_key(key) ==> (
                    #[trigger] transition_function@[key]) < count
                        && order@[transition_function@[key] as int] == self@.delta[(
                        order@[key.0 as int],
                        key.1,
                    )],
                forall|s: State|
                    final_states@.contains(s) <==> s < i && self@.finals.contains(order@[s as int]),
            decreases count - i,
        {
            let state = order[i];
            let mut targets: Vec<State> = Vec::new();
            let mut k: usize = 0;
            while k < symbols.len()
                invariant
                    self.wf(),
                    symbols@ == self@.table,
                    k <= symbols@.len(),
                    i < count,
                    count == order@.len(),
                    state == order@[i as int],
                    lists_reachable(self@, order@),
                    forall|s: State| self@.reachable(s) ==> order@.contains(s),
                    forall|s: State| place@.contains_key(s) <==> order@.contains(s),
                    forall|j: int| 0 <= j < order@.len() ==> place@[#[trigger] order@[j]] == j,
                    targets@.len() == k,
                    forall|j: int|
                        0 <= j < k ==> (#[trigger] symbols@[j] matches Symbol::Character(c)
                            ==> targets@[j] < count && order@[targets@[j] as int] == self@.delta[(
                            state,
                            c,
                        )]),
                decreases symbols.len() - k,
            {
                let mut target: State = 0;
                match symbols[k] {
                    Symbol::Epsilon => {},
                    Symbol::Character(c) => {
                        proof {
                            lemma_reachable_step(self@, state, c);
                        }
                        match self.transitions().next(state, c) {
                            Some(old_target) => {
                                match place.get(&old_target) {
                                    Some(new_target) => {
                                        target = *new_target;
                                    },
                                    None => {},
                                }
                            },
                            None => {},
                        }
                    },
                }
                targets.push(target);
                k += 1;
            }
            let ghost before = transition_function@;
            transition_function.add_row(i, &symbols, &targets);
            if self.final_states().contains(&state) {
                final_states.insert(i);
            }
            proof {
                assert forall|key: (State, char)|
                    transition_function@.contains_key(key) implies (
                #[trigger] transition_function@[key]) < count
                    && order@[transition_function@[key] as int] == self@.delta[(
                    order@[key.0 as int],
                    key.1,
                )] by {
                    if !(before.contains_key(key)) {
                        let j = choose|j: int|
                            0 <= j < symbols@.len() && symbols@[j] == Symbol::Character(key.1);
                        assert(symbols@[j] matches Symbol::Character(c) ==> transition_function@[(
                            i,
                            c,
                        )] == targets@[j]);
                    }
                }
            }
            i += 1;
        }
        let dfa = DFA::assemble(
            self.symbol_table().clone(),
            0,
            count - 1,
            0,
            final_states,
            transition_function,
        );
        proof {
            assert(dfa@.wf());
            assert(renumbering(self@, dfa@, order@));
        }
        dfa
    }

    /// Drops the states that cannot be reached from the start state and
    /// numbers the others anew from 0, the start state first. The language
    /// stays as it is.
    pub fn cleanup(&mut self)
        requires
            old(self).wf(),
        ensures
            final(self).wf(),
            exists|order: Seq<State>| renumbering(old(self)@, final(self)@, order),
            final(self)@.same_language(old(self)@),
            final(self)@.all_reachable(),
            final(self)@.begin == 0,
            final(self)@.start == 0,
            final(self)@.table == old(self)@.table,
            final(self)@.num_states <= old(self)@.num_states,
    {
        let order = self.reachable_order();
        let cleaned = self.renumbered(&order);
        proof {
            lemma_renumbering(self@, cleaned@, order@);
        }
        *self = cleaned;
    }
}

} // verus!
