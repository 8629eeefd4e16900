//! How the states that a non-deterministic automaton can be in behave under
//! union, and how they carry over to an automaton that holds a moved copy of it.

use vstd::prelude::*;

use crate::n_transition_function::{moved_from, shifted_edges, Edge};
use crate::nfa_model::{
    lemma_closure_holds_set, lemma_closure_is_least, lemma_closure_stays, lemma_closure_step,
    NfaView,
};
use crate::state::{shifted_states, State};
use crate::symbol_table::Symbol;

verus! {

/// Whether the set holds, with every state, the states that its transitions on
/// the empty word lead to.
pub open spec fn eps_closed(n: NfaView, set: Set<State>) -> bool {
    forall|u: State, v: State|
        set.contains(u) && #[trigger] n.edges.contains((u, Symbol::Epsilon, v)) ==> set.contains(v)
}

/// A closure holds its set and is closed.
pub proof fn lemma_closure_is_closed(n: NfaView, set: Set<State>)
    ensures
        set.subset_of(n.closure(set)),
        eps_closed(n, n.closure(set)),
{
    assert forall|s: State| set.contains(s) implies n.closure(set).contains(s) by {
        lemma_closure_holds_set(n, set, s);
    }
    assert forall|u: State, v: State|
        n.closure(set).contains(u) && #[trigger] n.edges.contains(
            (u, Symbol::Epsilon, v),
        ) implies n.closure(set).contains(v) by {
        lemma_closure_step(n, set, u, v);
    }
}

/// The closure of a closed set is the set.
pub proof fn lemma_closure_of_closed(n: NfaView, set: Set<State>)
    requires
        eps_closed(n, set),
    ensures
        n.closure(set) == set,
{
    lemma_closure_is_least(n, set, set);
    lemma_closure_is_closed(n, set);
}

/// The closure of a larger set is larger.
pub proof fn lemma_closure_grows(n: NfaView, small: Set<State>, big: Set<State>)
    requires
        small.subset_of(big),
    ensures
        n.closure(small).subset_of(n.closure(big)),
{
    lemma_closure_is_closed(n, big);
    lemma_closure_is_least(n, small, n.closure(big));
}

/// The closure of a union is the union of the closures.
pub proof fn lemma_closure_of_union(n: NfaView, first: Set<State>, second: Set<State>)
    ensures
        n.closure(first.union(second)) == n.closure(first).union(n.closure(second)),
{
    let both = n.closure(first).union(n.closure(second));
    lemma_closure_is_closed(n, first);
    lemma_closure_is_closed(n, second);
    lemma_closure_is_least(n, first.union(second), both);
    lemma_closure_grows(n, first, first.union(second));
    lemma_closure_grows(n, second, first.union(second));
}

/// Where a symbol leads from a union is where it leads from either part.
pub proof fn lemma_moved_from_union(
    edges: Set<Edge>,
    first: Set<State>,
    second: Set<State>,
    symbol: Symbol,
)
    ensures
        moved_from(edges, first.union(second), symbol) == moved_from(edges, first, symbol).union(
            moved_from(edges, second, symbol),
        ),
{
    let whole = moved_from(edges, first.union(second), symbol);
    let parts = moved_from(edges, first, symbol).union(moved_from(edges, second, symbol));
    assert forall|t: State| whole.contains(t) <==> parts.contains(t) by {
        if moved_from(edges, first, symbol).contains(t) {
            let s = choose|s: State| first.contains(s) && edges.contains((s, symbol, t));
            assert(first.union(second).contains(s) && edges.contains((s, symbol, t)));
        }
        if moved_from(edges, second, symbol).contains(t) {
            let s = choose|s: State| second.contains(s) && edges.contains((s, symbol, t));
            assert(first.union(second).contains(s) && edges.contains((s, symbol, t)));
        }
    }
}

/// After a character the automaton can be, from a union, where it can be
/// from either part.
pub proof fn lemma_step_of_union(n: NfaView, first: Set<State>, second: Set<State>, c: char)
    ensures
        n.step(first.union(second), c) == n.step(first, c).union(n.step(second, c)),
{
    lemma_moved_from_union(n.edges, first, second, Symbol::Character(c));
    lemma_closure_of_union(n, n.moved(first, c), n.moved(second, c));
}

/// After a word the automaton can be, from a union, where it can be from
/// either part.
pub proof fn lemma_run_of_union(n: NfaView, first: Set<State>, second: Set<State>, w: Seq<char>)
    ensures
        n.run(first.union(second), w) == n.run(first, w).union(n.run(second, w)),
    decreases w.len(),
{
    if w.len() > 0 {
        lemma_step_of_union(n, first, second, w[0]);
        lemma_run_of_union(n, n.step(first, w[0]), n.step(second, w[0]), w.drop_first());
    }
}

/// Reading one character is taking one step.
pub proof fn lemma_run_one(n: NfaView, set: Set<State>, c: char)
    ensures
        n.run(set, seq![c]) == n.step(set, c),
{
    let w = seq![c];
    assert(n.run(n.step(set, c), w.drop_first()) == n.step(set, c));
}

/// What a run from states of a well-formed automaton ends in are states of it.
pub proof fn lemma_run_stays(n: NfaView, set: Set<State>, w: Seq<char>)
    requires
        n.wf(),
        set.subset_of(n.states),
    ensures
        n.run(set, w).subset_of(n.states),
    decreases w.len(),
{
    if w.len() > 0 {
        crate::nfa_model::lemma_moved_stays(n, set, w[0]);
        lemma_run_stays(n, n.step(set, w[0]), w.drop_first());
    }
}

/// From a state whose transitions on the empty word lead exactly to the
/// states of `next`, the state itself is reached and what is reached from `next`.
pub proof fn lemma_closure_through(n: NfaView, state: State, next: Set<State>)
    requires
        forall|t: State| #[trigger]
            n.edges.contains((state, Symbol::Epsilon, t)) <==> next.contains(t),
    ensures
        n.closure(set![state]) == n.closure(next).insert(state),
{
    let expected = n.closure(next).insert(state);
    lemma_closure_is_closed(n, next);
    assert(eps_closed(n, expected));
    lemma_closure_is_least(n, set![state], expected);
    lemma_closure_is_closed(n, set![state]);
    assert(next.subset_of(n.closure(set![state]))) by {
        assert forall|t: State| next.contains(t) implies n.closure(set![state]).contains(t) by {
            assert(n.edges.contains((state, Symbol::Epsilon, t)));
        }
    }
    lemma_closure_is_least(n, next, n.closure(set![state]));
}

/// The automaton `n` holds a copy of `a`, moved up by `k`. From the states of
/// the copy there lead, apart from the transitions of the copy, only
/// transitions on the empty word from the accepting state of the copy to the
/// states of `exits`; and these it has.
pub open spec fn embeds(n: NfaView, a: NfaView, k: usize, exits: Set<State>) -> bool {
    &&& a.wf()
    &&& a.end + k <= usize::MAX
    &&& forall|e: Edge| #[trigger] shifted_edges(a.edges, k).contains(e) ==> n.edges.contains(e)
    &&& forall|e: Edge| #[trigger]
        n.edges.contains(e) && a.begin + k <= e.0 <= a.end + k ==> shifted_edges(
            a.edges,
            k,
        ).contains(e) || (e.0 == a.accept + k && e.1 == Symbol::Epsilon && exits.contains(e.2))
    &&& forall|t: State| #[trigger]
        exits.contains(t) ==> n.edges.contains(((a.accept + k) as State, Symbol::Epsilon, t))
}

/// What the copy reaches on the empty word is reached in `n`.
pub proof fn lemma_embedded_closure_below(
    n: NfaView,
    a: NfaView,
    k: usize,
    exits: Set<State>,
    set: Set<State>,
)
    requires
        embeds(n, a, k, exits),
        set.subset_of(a.states),
    ensures
        shifted_states(a.closure(set), k).subset_of(n.closure(shifted_states(set, k))),
{
    let up = shifted_states(set, k);
    let below = Set::new(
        |t: State| a.has_state(t) && n.closure(up).contains((t + k) as State),
    );
    assert(set.subset_of(below)) by {
        assert forall|s: State| set.contains(s) implies below.contains(s) by {
            lemma_closure_holds_set(n, up, (s + k) as State);
        }
    }
    assert forall|u: State, v: State|
        below.contains(u) && #[trigger] a.edges.contains(
            (u, Symbol::Epsilon, v),
        ) implies below.contains(v) by {
        let target: Edge = ((u + k) as State, Symbol::Epsilon, (v + k) as State);
        assert(shifted_edges(a.edges, k).contains(target));
        lemma_closure_step(n, up, target.0, target.2);
    }
    lemma_closure_is_least(a, set, below);
    lemma_closure_stays(a, set);
}

/// What `n` reaches on the empty word from states of the copy is what the
/// copy reaches, and, if the copy reaches its accepting state, what is behind
/// the exits.
pub proof fn lemma_embedded_closure(
    n: NfaView,
    a: NfaView,
    k: usize,
    exits: Set<State>,
    behind: Set<State>,
    set: Set<State>,
)
    requires
        embeds(n, a, k, exits),
        set.subset_of(a.states),
        exits.subset_of(behind),
        eps_closed(n, behind),
        behind.subset_of(n.closure(exits)),
    ensures
        n.closure(shifted_states(set, k)) == shifted_states(a.closure(set), k).union(
            if a.closure(set).contains(a.accept) {
                behind
            } else {
                Set::<State>::empty()
            },
        ),
{
    let up = shifted_states(set, k);
    let inner = shifted_states(a.closure(set), k);
    let outer = if a.closure(set).contains(a.accept) {
        behind
    } else {
        Set::<State>::empty()
    };
    let expected = inner.union(outer);
    lemma_closure_stays(a, set);
    // Nothing more is reached.
    assert(up.subset_of(expected)) by {
        assert forall|s: State| up.contains(s) implies expected.contains(s) by {
            lemma_closure_holds_set(a, set, (s - k) as State);
        }
    }
    assert(eps_closed(n, expected)) by {
        assert forall|u: State, v: State|
            expected.contains(u) && #[trigger] n.edges.contains(
                (u, Symbol::Epsilon, v),
            ) implies expected.contains(v) by {
            if inner.contains(u) {
                let e: Edge = (u, Symbol::Epsilon, v);
                let low = (u - k) as State;
                if shifted_edges(a.edges, k).contains(e) {
                    lemma_closure_step(a, set, low, (v - k) as State);
                }
            }
        }
    }
    lemma_closure_is_least(n, up, expected);
    // All of it is reached.
    lemma_embedded_closure_below(n, a, k, exits, set);
    if a.closure(set).contains(a.accept) {
        lemma_closure_is_closed(n, up);
        assert(exits.subset_of(n.closure(up)));
        lemma_closure_is_least(n, exits, n.closure(up));
    }
}

/// Where a symbol that is not the empty word leads `n` from states of the
/// copy is where it leads the copy.
pub proof fn lemma_embedded_moved(
    n: NfaView,
    a: NfaView,
    k: usize,
    exits: Set<State>,
    set: Set<State>,
    symbol: Symbol,
)
    requires
        embeds(n, a, k, exits),
        set.subset_of(a.states),
        symbol != Symbol::Epsilon,
    ensures
        moved_from(n.edges, shifted_states(set, k), symbol) == shifted_states(
            moved_from(a.edges, set, symbol),
            k,
        ),
        moved_from(a.edges, set, symbol).subset_of(a.states),
{
    let up = shifted_states(set, k);
    let got = moved_from(n.edges, up, symbol);
    let expected = shifted_states(moved_from(a.edges, set, symbol), k);
    assert forall|t: State| got.contains(t) <==> expected.contains(t) by {
        if expected.contains(t) {
            let low = (t - k) as State;
            let s = choose|s: State| set.contains(s) && a.edges.contains((s, symbol, low));
            let target: Edge = ((s + k) as State, symbol, t);
            assert(shifted_edges(a.edges, k).contains(target));
            assert(up.contains(target.0) && n.edges.contains((target.0, symbol, t)));
        }
    }
}

/// Moving up keeps unions, and moves nothing to nothing.
pub proof fn lemma_shifted_union(first: Set<State>, second: Set<State>, k: usize)
    ensures
        shifted_states(first.union(second), k) == shifted_states(first, k).union(shifted_states(second, k)),
        shifted_states(Set::<State>::empty(), k) == Set::<State>::empty(),
{
}

} // verus!
