//! The union of two automata accepts the words of the one and the words of
//! the other.

use vstd::prelude::*;

use crate::n_transition_function::{moved_from, shifted_edges, Edge};
use crate::nfa::{lemma_shifted_edges_stay, union_view};
use crate::nfa_algebra::{
    embeds, eps_closed, lemma_closure_is_closed, lemma_closure_of_union, lemma_closure_through,
    lemma_embedded_closure, lemma_embedded_moved, lemma_moved_from_union, lemma_run_stays,
};
use crate::nfa_model::{lemma_closure_stays, lemma_moved_stays, NfaView};
use crate::state::{shifted_states, State};
use crate::symbol_table::Symbol;

verus! {

/// What the union needs of its parts: both are well formed, their states are
/// numbered from 0, and the states of the union can be numbered.
pub open spec fn can_unite(a: NfaView, b: NfaView) -> bool {
    &&& a.wf()
    &&& b.wf()
    &&& a.begin == 0
    &&& b.begin == 0
    &&& a.num_states + b.num_states + 2 <= usize::MAX
}

/// The last state of the union, which alone accepts.
pub open spec fn union_exit(a: NfaView, b: NfaView) -> State {
    (a.num_states + b.num_states + 1) as State
}

/// Where every transition of the union comes from: from the first part, from
/// the second part, or it is one of the four that tie the parts together.
pub proof fn lemma_union_edges(a: NfaView, b: NfaView, e: Edge)
    requires
        can_unite(a, b),
        union_view(a, b).edges.contains(e),
    ensures
        ({
            let x = a.num_states;
            let y = b.num_states;
            let last = union_exit(a, b);
            ||| (shifted_edges(a.edges, 1).contains(e) && 1 <= e.0 <= x && 1 <= e.2 <= x)
            ||| (shifted_edges(b.edges, (x + 1) as usize).contains(e) && x + 1 <= e.0 <= x + y && x
                + 1 <= e.2 <= x + y)
            ||| e == (0 as State, Symbol::Epsilon, (a.start + 1) as State)
            ||| e == (0 as State, Symbol::Epsilon, (b.start + x + 1) as State)
            ||| e == ((a.accept + 1) as State, Symbol::Epsilon, last)
            ||| e == ((b.accept + x + 1) as State, Symbol::Epsilon, last)
        }),
{
    let x = a.num_states;
    if shifted_edges(a.edges, 1).contains(e) {
        lemma_shifted_edges_stay(a, 1, e);
    } else if shifted_edges(b.edges, (x + 1) as usize).contains(e) {
        lemma_shifted_edges_stay(b, (x + 1) as usize, e);
    }
}

/// The union holds a copy of each part; from each copy the way out leads to
/// the last state.
pub proof fn lemma_union_embeds(a: NfaView, b: NfaView)
    requires
        can_unite(a, b),
    ensures
        embeds(union_view(a, b), a, 1, set![union_exit(a, b)]),
        embeds(union_view(a, b), b, (a.num_states + 1) as usize, set![union_exit(a, b)]),
        eps_closed(union_view(a, b), set![union_exit(a, b)]),
{
    let u = union_view(a, b);
    let x = a.num_states;
    let last = union_exit(a, b);
    assert forall|e: Edge| #[trigger]
        u.edges.contains(e) && a.begin + 1 <= e.0 <= a.end + 1 implies shifted_edges(
        a.edges,
        1,
    ).contains(e) || (e.0 == a.accept + 1 && e.1 == Symbol::Epsilon && set![last].contains(
        e.2,
    )) by {
        lemma_union_edges(a, b, e);
    }
    assert forall|e: Edge| #[trigger]
        u.edges.contains(e) && b.begin + (x + 1) <= e.0 <= b.end + (x + 1) implies shifted_edges(
        b.edges,
        (x + 1) as usize,
    ).contains(e) || (e.0 == b.accept + (x + 1) && e.1 == Symbol::Epsilon && set![last].contains(
        e.2,
    )) by {
        lemma_union_edges(a, b, e);
    }
    assert forall|v: State, t: State|
        set![last].contains(v) && #[trigger] u.edges.contains(
            (v, Symbol::Epsilon, t),
        ) implies set![last].contains(t) by {
        lemma_union_edges(a, b, (v, Symbol::Epsilon, t));
    }
}

/// The states of the union that stand for the states `first` of the one part
/// and the states `second` of the other, with the last state if one of the
/// parts is in its accepting state.
pub open spec fn united(a: NfaView, b: NfaView, first: Set<State>, second: Set<State>) -> Set<
    State,
> {
    shifted_states(first, 1).union(shifted_states(second, (a.num_states + 1) as usize)).union(
        if first.contains(a.accept) || second.contains(b.accept) {
            set![union_exit(a, b)]
        } else {
            Set::<State>::empty()
        },
    )
}

/// What the union reaches on the empty word from the copies of states of its
/// parts is what the parts reach, and the last state if a part accepts.
proof fn lemma_united_closure(a: NfaView, b: NfaView, first: Set<State>, second: Set<State>)
    requires
        can_unite(a, b),
        first.subset_of(a.states),
        second.subset_of(b.states),
    ensures
        union_view(a, b).closure(
            shifted_states(first, 1).union(shifted_states(second, (a.num_states + 1) as usize)),
        ) == united(a, b, a.closure(first), b.closure(second)),
{
    let u = union_view(a, b);
    let kb = (a.num_states + 1) as usize;
    let last = set![union_exit(a, b)];
    lemma_union_embeds(a, b);
    lemma_closure_is_closed(u, last);
    lemma_embedded_closure(u, a, 1, last, last, first);
    lemma_embedded_closure(u, b, kb, last, last, second);
    lemma_closure_of_union(u, shifted_states(first, 1), shifted_states(second, kb));
    assert(u.closure(shifted_states(first, 1).union(shifted_states(second, kb))) =~= united(
        a,
        b,
        a.closure(first),
        b.closure(second),
    ));
}

/// From its start state the union goes on the empty word to the start states
/// of its parts, and nowhere else.
proof fn lemma_union_start(a: NfaView, b: NfaView)
    requires
        can_unite(a, b),
    ensures
        forall|t: State| #[trigger]
            union_view(a, b).edges.contains((0 as State, Symbol::Epsilon, t)) <==> shifted_states(
                set![a.start],
                1,
            ).union(shifted_states(set![b.start], (a.num_states + 1) as usize)).contains(t),
{
    let u = union_view(a, b);
    let kb = (a.num_states + 1) as usize;
    let starts = shifted_states(set![a.start], 1).union(shifted_states(set![b.start], kb));
    assert forall|t: State| #[trigger]
        u.edges.contains((0 as State, Symbol::Epsilon, t)) <==> starts.contains(t) by {
        if u.edges.contains((0 as State, Symbol::Epsilon, t)) {
            lemma_union_edges(a, b, (0 as State, Symbol::Epsilon, t));
        }
    }
}

/// The union starts where its parts start, and in its own start state.
proof fn lemma_union_initial(a: NfaView, b: NfaView)
    requires
        can_unite(a, b),
    ensures
        union_view(a, b).initial() == united(a, b, a.initial(), b.initial()).insert(0),
{
    let u = union_view(a, b);
    let kb = (a.num_states + 1) as usize;
    let starts = shifted_states(set![a.start], 1).union(shifted_states(set![b.start], kb));
    lemma_united_closure(a, b, set![a.start], set![b.start]);
    lemma_union_start(a, b);
    lemma_closure_through(u, 0, starts);
}

/// A character leads the union from the copies where it leads the parts; from
/// its start state and its last state it leads nowhere.
proof fn lemma_united_step(
    a: NfaView,
    b: NfaView,
    first: Set<State>,
    second: Set<State>,
    other: Set<State>,
    c: char,
)
    requires
        can_unite(a, b),
        first.subset_of(a.states),
        second.subset_of(b.states),
        other.subset_of(set![0 as State, union_exit(a, b)]),
    ensures
        union_view(a, b).step(united(a, b, first, second).union(other), c) == united(
            a,
            b,
            a.step(first, c),
            b.step(second, c),
        ),
{
    let u = union_view(a, b);
    let kb = (a.num_states + 1) as usize;
    let symbol = Symbol::Character(c);
    let last = set![union_exit(a, b)];
    let ends = set![0 as State, union_exit(a, b)];
    lemma_union_embeds(a, b);
    lemma_embedded_moved(u, a, 1, last, first, symbol);
    lemma_embedded_moved(u, b, kb, last, second, symbol);
    assert(moved_from(u.edges, ends, symbol) =~= Set::<State>::empty()) by {
        assert forall|t: State| !moved_from(u.edges, ends, symbol).contains(t) by {
            if moved_from(u.edges, ends, symbol).contains(t) {
                let s = choose|s: State| ends.contains(s) && u.edges.contains((s, symbol, t));
                lemma_union_edges(a, b, (s, symbol, t));
            }
        }
    }
    let from = united(a, b, first, second).union(other);
    let parts = shifted_states(first, 1).union(shifted_states(second, kb));
    assert(moved_from(u.edges, from, symbol) =~= shifted_states(moved_from(a.edges, first, symbol), 1).union(
        shifted_states(moved_from(b.edges, second, symbol), kb),
    )) by {
        assert forall|t: State|
            moved_from(u.edges, from, symbol).contains(t) <==> moved_from(
                u.edges,
                parts,
                symbol,
            ).contains(t) by {
            if moved_from(u.edges, parts, symbol).contains(t) {
                let s = choose|s: State| parts.contains(s) && u.edges.contains((s, symbol, t));
                assert(from.contains(s) && u.edges.contains((s, symbol, t)));
            }
        }
        lemma_moved_from_union(u.edges, shifted_states(first, 1), shifted_states(second, kb), symbol);
    }
    lemma_united_closure(a, b, a.moved(first, c), b.moved(second, c));
}

/// After a word the union can be where its parts can be.
proof fn lemma_united_run(
    a: NfaView,
    b: NfaView,
    first: Set<State>,
    second: Set<State>,
    other: Set<State>,
    w: Seq<char>,
)
    requires
        can_unite(a, b),
        first.subset_of(a.states),
        second.subset_of(b.states),
        other.subset_of(set![0 as State, union_exit(a, b)]),
    ensures
        union_view(a, b).run(united(a, b, first, second).union(other), w) == united(
            a,
            b,
            a.run(first, w),
            b.run(second, w),
        ).union(
            if w.len() == 0 {
                other
            } else {
                Set::<State>::empty()
            },
        ),
    decreases w.len(),
{
    let u = union_view(a, b);
    if w.len() > 0 {
        let c = w[0];
        lemma_united_step(a, b, first, second, other, c);
        lemma_moved_stays(a, first, c);
        lemma_moved_stays(b, second, c);
        let next = united(a, b, a.step(first, c), b.step(second, c));
        assert(next.union(Set::<State>::empty()) =~= next);
        lemma_united_run(a, b, a.step(first, c), b.step(second, c), Set::empty(), w.drop_first());
        let rest = united(a, b, a.run(first, w), b.run(second, w));
        assert(u.run(united(a, b, first, second).union(other), w) =~= rest.union(
            Set::<State>::empty(),
        ));
    }
}

/// The union of two automata accepts the words that one of them accepts.
pub proof fn lemma_union_language(a: NfaView, b: NfaView, w: Seq<char>)
    requires
        can_unite(a, b),
    ensures
        union_view(a, b).accepts(w) == (a.accepts(w) || b.accepts(w)),
{
    lemma_union_initial(a, b);
    lemma_closure_stays(a, set![a.start]);
    lemma_closure_stays(b, set![b.start]);
    let first = a.initial();
    let second = b.initial();
    assert(united(a, b, first, second).insert(0) =~= united(a, b, first, second).union(set![0]));
    lemma_united_run(a, b, first, second, set![0], w);
    lemma_run_stays(a, first, w);
    lemma_run_stays(b, second, w);
    let last = union_exit(a, b);
    assert(!shifted_states(a.run(first, w), 1).contains(last));
    assert(!shifted_states(b.run(second, w), (a.num_states + 1) as usize).contains(last));
}

} // verus!
