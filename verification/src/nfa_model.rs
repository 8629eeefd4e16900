//! What a non-deterministic automaton is, and which words it accepts.

use vstd::prelude::*;

use crate::dfa_model::table_wf;
use crate::n_transition_function::{moved_from, Edge};
use crate::state::{state_range, State};
use crate::symbol_table::Symbol;

verus! {

/// A non-deterministic automaton with one accepting state, as mathematics.
pub struct NfaView {
    pub num_states: usize,
    pub table: Seq<Symbol>,
    pub states: Set<State>,
    pub begin: State,
    pub end: State,
    pub start: State,
    pub accept: State,
    pub edges: Set<Edge>,
}

impl NfaView {
    /// Whether `s` is a state of the automaton.
    pub open spec fn has_state(self, s: State) -> bool {
        self.begin <= s <= self.end
    }

    /// The states are the range from `begin` to `end`; the start state and the
    /// accepting state are among them; and every transition leads from a
    /// state to a state, on the empty word or on a character of the alphabet.
    pub open spec fn wf(self) -> bool {
        &&& table_wf(self.table)
        &&& self.begin <= self.start <= self.end
        &&& self.begin <= self.accept <= self.end
        &&& self.num_states == self.end - self.begin + 1
        &&& self.states == state_range(self.begin, self.end)
        &&& forall|e: Edge| #[trigger]
            self.edges.contains(e) ==> self.has_state(e.0) && self.has_state(e.2)
                && self.table.contains(e.1)
    }

    /// Whether every state of the path is led to from the state before it by a
    /// transition on the empty word.
    pub open spec fn eps_path(self, path: Seq<State>) -> bool {
        forall|i: int|
            0 <= i < path.len() - 1 ==> #[trigger] self.edges.contains(
                (path[i], Symbol::Epsilon, path[i + 1]),
            )
    }

    /// Whether the path leads from `s` to `t` by transitions on the empty word.
    pub open spec fn eps_path_between(self, path: Seq<State>, s: State, t: State) -> bool {
        &&& path.len() >= 1
        &&& path[0] == s
        &&& path.last() == t
        &&& self.eps_path(path)
    }

    /// Whether `t` is reached from `s` by transitions on the empty word.
    pub open spec fn eps_reach(self, s: State, t: State) -> bool {
        exists|path: Seq<State>| self.eps_path_between(path, s, t)
    }

    /// The states that are reached from a state of `set` by transitions on the
    /// empty word: the states of `set` are among them.
    pub open spec fn closure(self, set: Set<State>) -> Set<State> {
        Set::new(|t: State| exists|s: State| set.contains(s) && self.eps_reach(s, t))
    }

    /// The states that a transition on `c` leads to from a state of `set`.
    pub open spec fn moved(self, set: Set<State>, c: char) -> Set<State> {
        moved_from(self.edges, set, Symbol::Character(c))
    }

    /// The states that the automaton can be in after it has read `c` in a
    /// state of `set`.
    pub open spec fn step(self, set: Set<State>, c: char) -> Set<State> {
        self.closure(self.moved(set, c))
    }

    /// The states that the automaton can be in after it has read `w` in a
    /// state of `set`.
    pub open spec fn run(self, set: Set<State>, w: Seq<char>) -> Set<State>
        decreases w.len(),
    {
        if w.len() == 0 {
            set
        } else {
            self.run(self.step(set, w[0]), w.drop_first())
        }
    }

    /// The states that the automaton can be in before it has read anything.
    pub open spec fn initial(self) -> Set<State> {
        self.closure(set![self.start])
    }

    /// Whether the automaton accepts `w`: whether it can be in the accepting
    /// state after it has read `w`.
    pub open spec fn accepts(self, w: Seq<char>) -> bool {
        self.run(self.initial(), w).contains(self.accept)
    }
}

impl NfaView {
    /// From no state nothing is reached.
    pub proof fn lemma_closure_of_nothing(self)
        ensures
            self.closure(Set::<State>::empty()) == Set::<State>::empty(),
    {
        lemma_closure_is_least(self, Set::<State>::empty(), Set::<State>::empty());
    }
}

/// A state of a set is in the closure of the set.
pub proof fn lemma_closure_holds_set(n: NfaView, set: Set<State>, s: State)
    requires
        set.contains(s),
    ensures
        n.closure(set).contains(s),
{
    assert(n.eps_path_between(seq![s], s, s));
}

/// A transition on the empty word leads from the closure into the closure.
pub proof fn lemma_closure_step(n: NfaView, set: Set<State>, u: State, t: State)
    requires
        n.closure(set).contains(u),
        n.edges.contains((u, Symbol::Epsilon, t)),
    ensures
        n.closure(set).contains(t),
{
    let s = choose|s: State| set.contains(s) && n.eps_reach(s, u);
    let path = choose|path: Seq<State>| n.eps_path_between(path, s, u);
    let longer = path.push(t);
    assert(n.eps_path(longer));
    assert(n.eps_path_between(longer, s, t));
}

/// A set that holds the first state of a path, and with every state the states
/// that its transitions on the empty word lead to, holds the last state of the path.
pub proof fn lemma_closed_holds_path(n: NfaView, big: Set<State>, path: Seq<State>)
    requires
        path.len() >= 1,
        big.contains(path[0]),
        forall|u: State, v: State|
            big.contains(u) && #[trigger] n.edges.contains((u, Symbol::Epsilon, v)) ==> big.contains(
                v,
            ),
        n.eps_path(path),
    ensures
        big.contains(path.last()),
    decreases path.len(),
{
    if path.len() > 1 {
        let shorter = path.drop_last();
        assert(n.eps_path(shorter));
        lemma_closed_holds_path(n, big, shorter);
        let i = path.len() - 2;
        assert(n.edges.contains((path[i], Symbol::Epsilon, path[i + 1])));
    }
}

/// The closure of a set is the least set that holds the set and, with every
/// state, the states that its transitions on the empty word lead to.
pub proof fn lemma_closure_is_least(n: NfaView, set: Set<State>, big: Set<State>)
    requires
        set.subset_of(big),
        forall|u: State, v: State|
            big.contains(u) && #[trigger] n.edges.contains((u, Symbol::Epsilon, v)) ==> big.contains(
                v,
            ),
    ensures
        n.closure(set).subset_of(big),
{
    assert forall|t: State| n.closure(set).contains(t) implies big.contains(t) by {
        let s = choose|s: State| set.contains(s) && n.eps_reach(s, t);
        let path = choose|path: Seq<State>| n.eps_path_between(path, s, t);
        lemma_closed_holds_path(n, big, path);
    }
}

/// The closure of a set of states of a well-formed automaton is a set of
/// states of it; the closure of the empty set is empty.
pub proof fn lemma_closure_stays(n: NfaView, set: Set<State>)
    requires
        n.wf(),
        set.subset_of(n.states),
    ensures
        n.closure(set).subset_of(n.states),
        set == Set::<State>::empty() ==> n.closure(set) == Set::<State>::empty(),
{
    assert(n.closure(set).subset_of(n.states)) by {
        lemma_closure_is_least(n, set, n.states);
    }
}

/// What a character leads to from states is a set of states; a character
/// that is not in the alphabet leads nowhere, and nothing leads from no state.
pub proof fn lemma_moved_stays(n: NfaView, set: Set<State>, c: char)
    requires
        n.wf(),
    ensures
        n.moved(set, c).subset_of(n.states),
        n.step(set, c).subset_of(n.states),
        !n.table.contains(Symbol::Character(c)) ==> n.step(set, c) == Set::<State>::empty(),
        set == Set::<State>::empty() ==> n.step(set, c) == Set::<State>::empty(),
{
    lemma_closure_stays(n, n.moved(set, c));
    if !n.table.contains(Symbol::Character(c)) || set == Set::<State>::empty() {
        assert(n.moved(set, c) =~= Set::<State>::empty());
    }
}

/// From no state, no word leads to a state.
pub proof fn lemma_run_of_nothing(n: NfaView, w: Seq<char>)
    ensures
        n.run(Set::<State>::empty(), w) == Set::<State>::empty(),
    decreases w.len(),
{
    if w.len() > 0 {
        let none = Set::<State>::empty();
        assert(n.moved(none, w[0]) =~= none);
        n.lemma_closure_of_nothing();
        lemma_run_of_nothing(n, w.drop_first());
    }
}

} // verus!
