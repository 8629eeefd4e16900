//! What holds of the non-deterministic automata that the library builds.

use vstd::prelude::*;

use crate::dfa_model::DfaView;
use crate::n_transition_function::{moved_from, targets_of, Edge};
use crate::nfa::{lemma_lifted_view_wf, lifted_view, shifted_nfa_view};
use crate::nfa_model::{
    lemma_closure_holds_set, lemma_closure_is_least, lemma_closure_step, lemma_run_of_nothing,
    NfaView,
};
use crate::state::{shifted_states, State};
use crate::symbol_table::Symbol;

verus! {

/// A deterministic automaton is deterministic: seen as a relation, its
/// transitions lead from a state on a character to one state at most.
pub proof fn lemma_at_most_one_target(d: DfaView, state: State, symbol: Symbol)
    requires
        symbol != Symbol::Epsilon,
    ensures
        targets_of(lifted_view(d).edges, state, symbol).finite(),
        targets_of(lifted_view(d).edges, state, symbol).len() <= 1,
{
    let targets = targets_of(lifted_view(d).edges, state, symbol);
    if let Symbol::Character(c) = symbol {
        let expected = if d.delta.contains_key((state, c)) {
            set![d.delta[(state, c)]]
        } else {
            Set::<State>::empty()
        };
        assert(targets =~= expected);
    }
}

/// The states that the lifted automaton can be in when the automaton is in
/// `u`: `u`, and the new state if `u` accepts.
pub open spec fn with_exit(d: DfaView, u: State) -> Set<State> {
    if d.finals.contains(u) {
        set![u, (d.end + 1) as State]
    } else {
        set![u]
    }
}

/// From a state of the automaton, the lifted automaton reaches on the empty
/// word that state, and the new state if the state accepts.
proof fn lemma_lifted_closure(d: DfaView, u: State)
    requires
        d.wf(),
        d.end < usize::MAX,
        d.has_state(u),
    ensures
        lifted_view(d).closure(set![u]) == with_exit(d, u),
{
    let n = lifted_view(d);
    let exit = (d.end + 1) as State;
    let expected = with_exit(d, u);
    lemma_closure_is_least(n, set![u], expected);
    lemma_closure_holds_set(n, set![u], u);
    if d.finals.contains(u) {
        lemma_closure_step(n, set![u], u, exit);
    }
}

/// A character leads the lifted automaton where it leads the automaton.
proof fn lemma_lifted_step(d: DfaView, u: State, symbol: Symbol)
    requires
        d.wf(),
        d.end < usize::MAX,
        d.has_state(u),
    ensures
        symbol matches Symbol::Character(c) ==> moved_from(
            lifted_view(d).edges,
            with_exit(d, u),
            symbol,
        ) == if d.delta.contains_key((u, c)) {
            set![d.delta[(u, c)]]
        } else {
            Set::<State>::empty()
        },
{
    if let Symbol::Character(c) = symbol {
        let n = lifted_view(d);
        let from = with_exit(d, u);
        let got = moved_from(n.edges, from, symbol);
        let expected = if d.delta.contains_key((u, c)) {
            set![d.delta[(u, c)]]
        } else {
            Set::<State>::empty()
        };
        assert forall|t: State| got.contains(t) <==> expected.contains(t) by {
            if expected.contains(t) {
                assert(from.contains(u) && n.edges.contains((u, symbol, t)));
            }
        }
    }
}

/// The lifted automaton can be in its accepting state after a word exactly if
/// the automaton accepts the word.
proof fn lemma_lifted_run(d: DfaView, u: State, w: Seq<char>)
    requires
        d.wf(),
        d.end < usize::MAX,
        d.num_states < usize::MAX,
        d.has_state(u),
    ensures
        lifted_view(d).run(with_exit(d, u), w).contains((d.end + 1) as State) == d.accepts_from(
            u,
            w,
        ),
    decreases w.len(),
{
    let n = lifted_view(d);
    lemma_lifted_view_wf(d);
    if w.len() > 0 {
        let c = w[0];
        lemma_lifted_step(d, u, Symbol::Character(c));
        if d.delta.contains_key((u, c)) {
            let next = d.delta[(u, c)];
            lemma_lifted_closure(d, next);
            lemma_lifted_run(d, next, w.drop_first());
        } else {
            assert(n.closure(Set::<State>::empty()) =~= Set::<State>::empty()) by {
                lemma_closure_is_least(n, Set::<State>::empty(), Set::<State>::empty());
            }
            lemma_run_of_nothing(n, w.drop_first());
        }
    }
}

/// Lifting keeps the language: the lifted automaton accepts the words that the
/// automaton accepts.
pub proof fn lemma_lifted_language(d: DfaView)
    requires
        d.wf(),
        d.end < usize::MAX,
        d.num_states < usize::MAX,
    ensures
        lifted_view(d).wf(),
        forall|w: Seq<char>| lifted_view(d).accepts(w) == d.accepts(w),
{
    lemma_lifted_view_wf(d);
    assert forall|w: Seq<char>| lifted_view(d).accepts(w) == d.accepts(w) by {
        lemma_lifted_closure(d, d.start);
        lemma_lifted_run(d, d.start, w);
    }
}

/// There and back again: a deterministic automaton that accepts the words of
/// the lifted automaton accepts the words of the automaton that was lifted.
pub proof fn lemma_round_trip(d: DfaView, back: DfaView)
    requires
        d.wf(),
        d.end < usize::MAX,
        d.num_states < usize::MAX,
        forall|w: Seq<char>| back.accepts(w) == lifted_view(d).accepts(w),
    ensures
        forall|w: Seq<char>| back.accepts(w) == d.accepts(w),
{
    lemma_lifted_language(d);
}

/// What the moved automaton reaches on the empty word from the moved states
/// is among what the automaton reaches from the states, moved.
proof fn lemma_shifted_closure_above(n: NfaView, increment: usize, set: Set<State>)
    requires
        n.wf(),
        n.end + increment <= usize::MAX,
        set.subset_of(n.states),
    ensures
        shifted_nfa_view(n, increment).closure(shifted_states(set, increment)).subset_of(
            shifted_states(n.closure(set), increment),
        ),
{
    let m = shifted_nfa_view(n, increment);
    let up = shifted_states(set, increment);
    let expected = shifted_states(n.closure(set), increment);
    assert(up.subset_of(expected)) by {
        assert forall|s: State| up.contains(s) implies expected.contains(s) by {
            lemma_closure_holds_set(n, set, (s - increment) as State);
        }
    }
    assert forall|x: State, v: State|
        expected.contains(x) && #[trigger] m.edges.contains(
            (x, Symbol::Epsilon, v),
        ) implies expected.contains(v) by {
        let source: Edge = ((x - increment) as State, Symbol::Epsilon, (v - increment) as State);
        lemma_closure_step(n, set, source.0, source.2);
    }
    lemma_closure_is_least(m, up, expected);
}

/// The states from which, moved, the moved automaton counts among what it
/// reaches on the empty word from the moved states of `set`.
pub open spec fn reached_above(n: NfaView, increment: usize, set: Set<State>) -> Set<State> {
    Set::new(
        |t: State|
            n.has_state(t) && shifted_nfa_view(n, increment).closure(
                shifted_states(set, increment),
            ).contains((t + increment) as State),
    )
}

/// What the automaton reaches on the empty word from the states, moved, is
/// among what the moved automaton reaches from the moved states.
proof fn lemma_shifted_closure_below(n: NfaView, increment: usize, set: Set<State>)
    requires
        n.wf(),
        n.end + increment <= usize::MAX,
        set.subset_of(n.states),
    ensures
        n.closure(set).subset_of(reached_above(n, increment, set)),
{
    let m = shifted_nfa_view(n, increment);
    let up = shifted_states(set, increment);
    let below = reached_above(n, increment, set);
    assert(set.subset_of(below)) by {
        assert forall|s: State| set.contains(s) implies below.contains(s) by {
            lemma_closure_holds_set(m, up, (s + increment) as State);
        }
    }
    assert forall|u: State, v: State|
        below.contains(u) && #[trigger] n.edges.contains(
            (u, Symbol::Epsilon, v),
        ) implies below.contains(v) by {
        let target: Edge = ((u + increment) as State, Symbol::Epsilon, (v + increment) as State);
        lemma_closure_step(m, up, target.0, target.2);
    }
    lemma_closure_is_least(n, set, below);
}

/// What the moved automaton reaches on the empty word from the moved states
/// is what the automaton reaches from the states, moved.
proof fn lemma_shifted_closure(n: NfaView, increment: usize, set: Set<State>)
    requires
        n.wf(),
        n.end + increment <= usize::MAX,
        set.subset_of(n.states),
    ensures
        shifted_nfa_view(n, increment).closure(shifted_states(set, increment)) == shifted_states(
            n.closure(set),
            increment,
        ),
        n.closure(set).subset_of(n.states),
{
    crate::nfa_model::lemma_closure_stays(n, set);
    lemma_shifted_closure_above(n, increment, set);
    lemma_shifted_closure_below(n, increment, set);
}

/// Where a symbol leads the moved automaton from the moved states is where it
/// leads the automaton from the states, moved.
proof fn lemma_shifted_moved(n: NfaView, increment: usize, set: Set<State>, symbol: Symbol)
    requires
        n.wf(),
        n.end + increment <= usize::MAX,
        set.subset_of(n.states),
    ensures
        moved_from(shifted_nfa_view(n, increment).edges, shifted_states(set, increment), symbol) == shifted_states(
            moved_from(n.edges, set, symbol),
            increment,
        ),
        moved_from(n.edges, set, symbol).subset_of(n.states),
{
    let m = shifted_nfa_view(n, increment);
    let up = shifted_states(set, increment);
    let got = moved_from(m.edges, up, symbol);
    let expected = shifted_states(moved_from(n.edges, set, symbol), increment);
    assert forall|t: State| got.contains(t) <==> expected.contains(t) by {
        if expected.contains(t) {
            let low = (t - increment) as State;
            let s = choose|s: State| set.contains(s) && n.edges.contains((s, symbol, low));
            let target: Edge = ((s + increment) as State, symbol, t);
            assert(up.contains(target.0) && m.edges.contains((target.0, symbol, t)));
        }
    }
}

/// After a word the moved automaton can be in the states that the automaton
/// can be in, moved.
proof fn lemma_shifted_run(n: NfaView, increment: usize, set: Set<State>, w: Seq<char>)
    requires
        n.wf(),
        n.end + increment <= usize::MAX,
        set.subset_of(n.states),
    ensures
        shifted_nfa_view(n, increment).run(shifted_states(set, increment), w) == shifted_states(
            n.run(set, w),
            increment,
        ),
    decreases w.len(),
{
    if w.len() > 0 {
        let symbol = Symbol::Character(w[0]);
        lemma_shifted_moved(n, increment, set, symbol);
        lemma_shifted_closure(n, increment, moved_from(n.edges, set, symbol));
        lemma_shifted_run(n, increment, n.step(set, w[0]), w.drop_first());
    }
}

/// Moving the states of an automaton up keeps its language.
pub proof fn lemma_shifted_language(n: NfaView, increment: usize)
    requires
        n.wf(),
        n.end + increment <= usize::MAX,
    ensures
        forall|w: Seq<char>| shifted_nfa_view(n, increment).accepts(w) == n.accepts(w),
{
    let m = shifted_nfa_view(n, increment);
    assert(shifted_states(set![n.start], increment) =~= set![m.start]);
    lemma_shifted_closure(n, increment, set![n.start]);
    assert forall|w: Seq<char>| m.accepts(w) == n.accepts(w) by {
        lemma_shifted_run(n, increment, n.initial(), w);
    }
}

} // verus!
