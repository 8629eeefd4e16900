//! What a deterministic automaton is, and what it does with a word.
//!
//! Everything here is mathematics: the view of an automaton, the walk that a
//! word takes through it, the verdict that it gives on a word, and the facts
//! about these that the constructions rest on.

use vstd::prelude::*;

use crate::state::{state_range, State};
use crate::symbol_table::Symbol;

verus! {

/// How the run of an automaton on a word ends.
pub enum Verdict {
    /// The word was read to its end, in an accepting state.
    Accepted,
    /// The word was read to its end, in a state that does not accept.
    Rejected,
    /// A character was to be read in a state that no transition leaves.
    InvalidState,
    /// A character was to be read in a state that has transitions, but none
    /// on this character.
    InvalidTransition,
}

/// A deterministic automaton, as mathematics.
pub struct DfaView {
    pub num_states: usize,
    pub table: Seq<Symbol>,
    pub states: Set<State>,
    pub begin: State,
    pub end: State,
    pub start: State,
    pub finals: Set<State>,
    pub delta: Map<(State, char), State>,
}

/// The table numbers the empty word as 0 and holds no symbol twice.
pub open spec fn table_wf(table: Seq<Symbol>) -> bool {
    &&& table.len() >= 1
    &&& table[0] == Symbol::Epsilon
    &&& table.no_duplicates()
}

/// Whether every character of the word is a character of the table.
pub open spec fn word_over(table: Seq<Symbol>, w: Seq<char>) -> bool {
    forall|i: int| 0 <= i < w.len() ==> table.contains(Symbol::Character(#[trigger] w[i]))
}

/// Two tables that hold the same symbols hold or lack a symbol together.
pub proof fn lemma_same_symbols(first: Seq<Symbol>, second: Seq<Symbol>, symbol: Symbol)
    requires
        first.to_set() == second.to_set(),
    ensures
        first.contains(symbol) == second.contains(symbol),
{
    if first.contains(symbol) {
        let j = choose|j: int| 0 <= j < first.len() && first[j] == symbol;
        assert(first.to_set().contains(first[j]));
    }
    if second.contains(symbol) {
        let j = choose|j: int| 0 <= j < second.len() && second[j] == symbol;
        assert(second.to_set().contains(second[j]));
    }
}

impl DfaView {
    /// Whether `c` is a character of the alphabet.
    pub open spec fn has_char(self, c: char) -> bool {
        self.table.contains(Symbol::Character(c))
    }

    /// Whether `s` is a state of the automaton.
    pub open spec fn has_state(self, s: State) -> bool {
        self.begin <= s <= self.end
    }

    /// The states are the range from `begin` to `end`; the start state and the
    /// accepting states are among them; and the transition function is defined
    /// exactly on the states and the characters of the alphabet, with a state
    /// as its value.
    pub open spec fn wf(self) -> bool {
        &&& table_wf(self.table)
        &&& self.begin <= self.start <= self.end
        &&& self.num_states == self.end - self.begin + 1
        &&& self.states == state_range(self.begin, self.end)
        &&& forall|s: State| #[trigger] self.finals.contains(s) ==> self.has_state(s)
        &&& forall|s: State, c: char| #[trigger]
            self.delta.contains_key((s, c)) <==> self.has_state(s) && self.has_char(c)
        &&& forall|s: State, c: char| #[trigger]
            self.delta.contains_key((s, c)) ==> self.has_state(self.delta[(s, c)])
    }

    /// Whether a transition leaves `s`.
    pub open spec fn leaves(self, s: State) -> bool {
        exists|c: char| self.delta.contains_key((s, c))
    }

    /// The state that the automaton is in after it has read `w` from `s`, if
    /// it can read all of `w`.
    pub open spec fn walk(self, s: State, w: Seq<char>) -> Option<State>
        decreases w.len(),
    {
        if w.len() == 0 {
            Some(s)
        } else if !self.delta.contains_key((s, w[0])) {
            None
        } else {
            self.walk(self.delta[(s, w[0])], w.drop_first())
        }
    }

    /// How the run on `w` from `s` ends.
    pub open spec fn verdict_from(self, s: State, w: Seq<char>) -> Verdict
        decreases w.len(),
    {
        if w.len() == 0 {
            if self.finals.contains(s) {
                Verdict::Accepted
            } else {
                Verdict::Rejected
            }
        } else if !self.leaves(s) {
            Verdict::InvalidState
        } else if !self.delta.contains_key((s, w[0])) {
            Verdict::InvalidTransition
        } else {
            self.verdict_from(self.delta[(s, w[0])], w.drop_first())
        }
    }

    /// How the run on `w` from the start state ends.
    pub open spec fn verdict(self, w: Seq<char>) -> Verdict {
        self.verdict_from(self.start, w)
    }

    /// Whether the run on `w` from `s` ends in an accepting state.
    pub open spec fn accepts_from(self, s: State, w: Seq<char>) -> bool {
        self.verdict_from(s, w) == Verdict::Accepted
    }

    /// Whether the automaton accepts `w`.
    pub open spec fn accepts(self, w: Seq<char>) -> bool {
        self.accepts_from(self.start, w)
    }

    /// Whether some word leads from the start state to `s`.
    pub open spec fn reachable(self, s: State) -> bool {
        exists|w: Seq<char>| self.walk(self.start, w) == Some(s)
    }

    /// Whether some word is accepted from one of the two states and not from
    /// the other.
    pub open spec fn distinguishable(self, p: State, q: State) -> bool {
        exists|w: Seq<char>| self.accepts_from(p, w) != self.accepts_from(q, w)
    }

    /// Whether the runs from the two states end alike on every word.
    pub open spec fn equivalent(self, p: State, q: State) -> bool {
        forall|w: Seq<char>| self.verdict_from(p, w) == self.verdict_from(q, w)
    }

    /// Whether the two automata end alike on every word.
    pub open spec fn same_language(self, other: DfaView) -> bool {
        forall|w: Seq<char>| self.verdict(w) == other.verdict(w)
    }

    /// Every state can be reached from the start state.
    pub open spec fn all_reachable(self) -> bool {
        forall|s: State| self.has_state(s) ==> self.reachable(s)
    }

    /// Every two different states can be told apart by a word.
    pub open spec fn all_distinguishable(self) -> bool {
        forall|p: State, q: State|
            self.has_state(p) && self.has_state(q) && p != q ==> self.distinguishable(p, q)
    }

    /// No smaller automaton has the same language: every state is reachable
    /// and no two states do the same.
    pub open spec fn minimal(self) -> bool {
        self.all_reachable() && self.all_distinguishable()
    }
}

/// A relation between the states of two automata under which related states
/// accept alike, read the same characters, and lead to related states.
pub open spec fn bisimulation(a: DfaView, b: DfaView, r: spec_fn(State, State) -> bool) -> bool {
    forall|s: State, t: State| #[trigger]
        r(s, t) ==> {
            &&& a.finals.contains(s) == b.finals.contains(t)
            &&& forall|c: char| #[trigger]
                a.delta.contains_key((s, c)) == b.delta.contains_key((t, c))
            &&& forall|c: char| #[trigger]
                a.delta.contains_key((s, c)) ==> r(a.delta[(s, c)], b.delta[(t, c)])
        }
}

/// Related states of a bisimulation do the same on every word: the runs end
/// alike, and where the word can be read they lead to related states.
pub proof fn lemma_bisimilar(
    a: DfaView,
    b: DfaView,
    r: spec_fn(State, State) -> bool,
    s: State,
    t: State,
    w: Seq<char>,
)
    requires
        bisimulation(a, b, r),
        r(s, t),
    ensures
        a.verdict_from(s, w) == b.verdict_from(t, w),
        a.walk(s, w) is Some == b.walk(t, w) is Some,
        a.walk(s, w) is Some ==> r(a.walk(s, w).unwrap(), b.walk(t, w).unwrap()),
    decreases w.len(),
{
    if w.len() > 0 {
        assert(a.leaves(s) == b.leaves(t)) by {
            if b.leaves(t) {
                let c = choose|c: char| b.delta.contains_key((t, c));
                assert(a.delta.contains_key((s, c)));
            }
        }
        let c = w[0];
        if a.delta.contains_key((s, c)) {
            lemma_bisimilar(a, b, r, a.delta[(s, c)], b.delta[(t, c)], w.drop_first());
        }
    }
}

/// Reading `u` and then `v` is reading `u + v`.
pub proof fn lemma_walk_concat(d: DfaView, s: State, u: Seq<char>, v: Seq<char>)
    ensures
        d.walk(s, u + v) == match d.walk(s, u) {
            Some(t) => d.walk(t, v),
            None => None,
        },
        d.walk(s, u) matches Some(t) ==> d.verdict_from(s, u + v) == d.verdict_from(t, v),
    decreases u.len(),
{
    if !(u.len() == 0) {
        assert((u + v).drop_first() =~= u.drop_first() + v);
        if d.delta.contains_key((s, u[0])) {
            lemma_walk_concat(d, d.delta[(s, u[0])], u.drop_first(), v);
        }
    }
}

/// Reading one character is taking one transition.
pub proof fn lemma_walk_step(d: DfaView, s: State, c: char)
    ensures
        d.walk(s, seq![c]) == if d.delta.contains_key((s, c)) {
            Some(d.delta[(s, c)])
        } else {
            None
        },
{
    let w = seq![c];
    if d.delta.contains_key((s, c)) {
        assert(d.walk(d.delta[(s, c)], w.drop_first()) == Some(d.delta[(s, c)]));
    }
}

/// A state that a transition leads to from a reachable state is reachable.
pub proof fn lemma_reachable_step(d: DfaView, s: State, c: char)
    requires
        d.reachable(s),
        d.delta.contains_key((s, c)),
    ensures
        d.reachable(d.delta[(s, c)]),
{
    let w = choose|w: Seq<char>| d.walk(d.start, w) == Some(s);
    lemma_walk_concat(d, d.start, w, seq![c]);
    lemma_walk_step(d, s, c);
}

/// The start state is reachable.
pub proof fn lemma_start_reachable(d: DfaView)
    ensures
        d.reachable(d.start),
{
    assert(d.walk(d.start, Seq::<char>::empty()) == Some(d.start));
}

/// A list of states that holds the state `u`, and with every state the states
/// that its transitions lead to, holds every state that a walk from `u` ends in.
pub proof fn lemma_closed_list_holds_walk(d: DfaView, order: Seq<State>, u: State, w: Seq<char>)
    requires
        order.contains(u),
        forall|i: int, c: char|
            0 <= i < order.len() && #[trigger] d.delta.contains_key((order[i], c))
                ==> order.contains(d.delta[(order[i], c)]),
    ensures
        d.walk(u, w) matches Some(t) ==> order.contains(t),
    decreases w.len(),
{
    if w.len() > 0 && d.delta.contains_key((u, w[0])) {
        lemma_closed_list_holds_walk(d, order, d.delta[(u, w[0])], w.drop_first());
    }
}

/// `order` lists the reachable states of `a`, the start state first, and `b`
/// is what is left of `a` when the other states are dropped and every state
/// of the list gets its place in the list as its new number.
pub open spec fn renumbering(a: DfaView, b: DfaView, order: Seq<State>) -> bool {
    &&& b.table == a.table
    &&& b.begin == 0
    &&& b.start == 0
    &&& b.end + 1 == order.len()
    &&& order[0] == a.start
    &&& order.no_duplicates()
    &&& forall|i: int|
        0 <= i < order.len() ==> a.has_state(#[trigger] order[i]) && a.reachable(order[i])
    &&& forall|s: State| a.reachable(s) ==> order.contains(s)
    &&& forall|i: int|
        0 <= i < order.len() ==> b.finals.contains(i as State) == a.finals.contains(
            #[trigger] order[i],
        )
    &&& forall|i: int, c: char|
        0 <= i < order.len() && a.has_char(c) ==> (#[trigger] b.delta[(i as State, c)])
            < order.len() && order[b.delta[(i as State, c)] as int] == a.delta[(order[i], c)]
}

/// An automaton that renumbers the reachable states of another does, from
/// every state, what the other does from the state that it stands for; all of
/// its states are reachable.
pub proof fn lemma_renumbering(a: DfaView, b: DfaView, order: Seq<State>)
    requires
        a.wf(),
        b.wf(),
        renumbering(a, b, order),
    ensures
        b.same_language(a),
        b.all_reachable(),
        forall|i: State, w: Seq<char>|
            b.has_state(i) ==> b.verdict_from(i, w) == a.verdict_from(order[i as int], w),
{
    let r = |i: State, s: State| i < order.len() && s == order[i as int];
    assert(bisimulation(b, a, r));
    assert forall|i: State, w: Seq<char>| b.has_state(i) implies b.verdict_from(i, w)
        == a.verdict_from(order[i as int], w) by {
        lemma_bisimilar(b, a, r, i, order[i as int], w);
    }
    assert(b.same_language(a)) by {
        assert forall|w: Seq<char>| b.verdict(w) == a.verdict(w) by {
            lemma_bisimilar(b, a, r, b.start, a.start, w);
        }
    }
    assert forall|i: State| b.has_state(i) implies b.reachable(i) by {
        let w = choose|w: Seq<char>| a.walk(a.start, w) == Some(order[i as int]);
        lemma_bisimilar(b, a, r, b.start, a.start, w);
    }
}

/// A word can be read to its end exactly if the run on it ends in acceptance
/// or rejection; the state at its end then decides which.
pub proof fn lemma_verdict_of_walk(d: DfaView, s: State, w: Seq<char>)
    ensures
        match d.walk(s, w) {
            Some(t) => d.verdict_from(s, w) == if d.finals.contains(t) {
                Verdict::Accepted
            } else {
                Verdict::Rejected
            },
            None => d.verdict_from(s, w) == Verdict::InvalidState || d.verdict_from(s, w)
                == Verdict::InvalidTransition,
        },
    decreases w.len(),
{
    if w.len() > 0 {
        if d.delta.contains_key((s, w[0])) {
            lemma_verdict_of_walk(d, d.delta[(s, w[0])], w.drop_first());
        }
    }
}

/// The walk of a well-formed automaton stays among its states, and it reads
/// exactly the words over its alphabet.
pub proof fn lemma_walk_stays(d: DfaView, s: State, w: Seq<char>)
    requires
        d.wf(),
        d.has_state(s),
    ensures
        d.walk(s, w) is Some == word_over(d.table, w),
        d.walk(s, w) matches Some(t) ==> d.has_state(t),
    decreases w.len(),
{
    if w.len() > 0 {
        let c = w[0];
        if d.delta.contains_key((s, c)) {
            lemma_walk_stays(d, d.delta[(s, c)], w.drop_first());
            if word_over(d.table, w.drop_first()) {
                assert forall|i: int| 0 <= i < w.len() implies d.table.contains(
                    Symbol::Character(#[trigger] w[i]),
                ) by {
                    if i > 0 {
                        assert(w[i] == w.drop_first()[i - 1]);
                    }
                }
            }
        }
    }
}

/// In a well-formed automaton, whether a run fails, and how, depends on the
/// word alone.
pub proof fn lemma_failure_ignores_state(d: DfaView, s: State, t: State, w: Seq<char>)
    requires
        d.wf(),
        d.has_state(s),
        d.has_state(t),
    ensures
        d.verdict_from(s, w) == Verdict::InvalidState <==> d.verdict_from(t, w)
            == Verdict::InvalidState,
        d.verdict_from(s, w) == Verdict::InvalidTransition <==> d.verdict_from(t, w)
            == Verdict::InvalidTransition,
    decreases w.len(),
{
    if w.len() > 0 {
        let c = w[0];
        assert(d.leaves(s) == d.leaves(t)) by {
            if d.leaves(s) {
                let x = choose|x: char| d.delta.contains_key((s, x));
                assert(d.delta.contains_key((t, x)));
            }
            if d.leaves(t) {
                let x = choose|x: char| d.delta.contains_key((t, x));
                assert(d.delta.contains_key((s, x)));
            }
        }
        if d.delta.contains_key((s, c)) {
            lemma_failure_ignores_state(d, d.delta[(s, c)], d.delta[(t, c)], w.drop_first());
        }
    }
}

/// Two states of a well-formed automaton whose runs end differently on some
/// word can be told apart by that word.
pub proof fn lemma_different_verdicts_distinguish(d: DfaView, p: State, q: State, w: Seq<char>)
    requires
        d.wf(),
        d.has_state(p),
        d.has_state(q),
        d.verdict_from(p, w) != d.verdict_from(q, w),
    ensures
        d.accepts_from(p, w) != d.accepts_from(q, w),
        d.distinguishable(p, q),
{
    lemma_failure_ignores_state(d, p, q, w);
}

} // verus!
