//! The concatenation of two automata accepts the words that are a word of
//! the first followed by a word of the second.

use vstd::prelude::*;

use crate::n_transition_function::{moved_from, shifted_edges, Edge};
use crate::nfa::{concat_view, lemma_shifted_edges_stay};
use crate::nfa_algebra::{
    embeds, lemma_closure_is_closed, lemma_closure_of_union, lemma_closure_through,
    lemma_embedded_closure, lemma_embedded_moved, lemma_moved_from_union, lemma_run_of_union,
    lemma_run_stays, lemma_shifted_union,
};
use crate::nfa_model::{lemma_closure_stays, lemma_moved_stays, lemma_run_of_nothing, NfaView};
use crate::state::{shifted_states, State};
use crate::symbol_table::Symbol;

verus! {

/// What the concatenation needs of its parts: both are well formed, their
/// states are numbered from 0, and the states of the concatenation can be
/// numbered.
pub open spec fn can_chain(a: NfaView, b: NfaView) -> bool {
    &&& a.wf()
    &&& b.wf()
    &&& a.begin == 0
    &&& b.begin == 0
    &&& a.num_states + b.num_states + 1 <= usize::MAX
}

/// Whether `w` is a word of `a` followed by a word of `b`.
pub open spec fn chained_language(a: NfaView, b: NfaView, w: Seq<char>) -> bool {
    exists|k: int| 0 <= k <= w.len() && a.accepts(w.take(k)) && b.accepts(w.skip(k))
}

/// Where every transition of the concatenation comes from: from the first
/// part, from the second part, or it is one of the two that tie the parts
/// together.
pub proof fn lemma_concat_edges(a: NfaView, b: NfaView, e: Edge)
    requires
        can_chain(a, b),
        concat_view(a, b).edges.contains(e),
    ensures
        ({
            let x = a.num_states;
            let y = b.num_states;
            ||| (shifted_edges(a.edges, 1).contains(e) && 1 <= e.0 <= x && 1 <= e.2 <= x)
            ||| (shifted_edges(b.edges, (x + 1) as usize).contains(e) && x + 1 <= e.0 <= x + y && x
                + 1 <= e.2 <= x + y)
            ||| e == (0 as State, Symbol::Epsilon, (a.start + 1) as State)
            ||| e == ((a.accept + 1) as State, Symbol::Epsilon, (b.start + x + 1) as State)
        }),
{
    let x = a.num_states;
    if shifted_edges(a.edges, 1).contains(e) {
        lemma_shifted_edges_stay(a, 1, e);
    } else if shifted_edges(b.edges, (x + 1) as usize).contains(e) {
        lemma_shifted_edges_stay(b, (x + 1) as usize, e);
    }
}

/// The concatenation holds a copy of each part; the way out of the first
/// leads to the start state of the second, and no way leads out of the second.
pub proof fn lemma_concat_embeds(a: NfaView, b: NfaView)
    requires
        can_chain(a, b),
    ensures
        embeds(concat_view(a, b), a, 1, shifted_states(set![b.start], (a.num_states + 1) as usize)),
        embeds(concat_view(a, b), b, (a.num_states + 1) as usize, Set::<State>::empty()),
{
    let n = concat_view(a, b);
    let x = a.num_states;
    let kb = (x + 1) as usize;
    let door = shifted_states(set![b.start], kb);
    assert forall|e: Edge| #[trigger]
        n.edges.contains(e) && a.begin + 1 <= e.0 <= a.end + 1 implies shifted_edges(
        a.edges,
        1,
    ).contains(e) || (e.0 == a.accept + 1 && e.1 == Symbol::Epsilon && door.contains(e.2)) by {
        lemma_concat_edges(a, b, e);
    }
    assert forall|e: Edge| #[trigger]
        n.edges.contains(e) && b.begin + kb <= e.0 <= b.end + kb implies shifted_edges(
        b.edges,
        kb,
    ).contains(e) || (e.0 == b.accept + kb && e.1 == Symbol::Epsilon && Set::<State>::empty().contains(
        e.2,
    )) by {
        lemma_concat_edges(a, b, e);
    }
}

/// The states of the concatenation that stand for the states `first` of the
/// first part and the states `second` of the second.
pub open spec fn chained(a: NfaView, b: NfaView, first: Set<State>, second: Set<State>) -> Set<
    State,
> {
    shifted_states(first, 1).union(shifted_states(second, (a.num_states + 1) as usize))
}

/// The states in which the second part starts, if the first part is in its
/// accepting state; else none.
pub open spec fn handed_over(a: NfaView, b: NfaView, first: Set<State>) -> Set<State> {
    if first.contains(a.accept) {
        b.initial()
    } else {
        Set::<State>::empty()
    }
}

/// What the concatenation reaches on the empty word from the copies of states
/// of its parts is what the parts reach, and where the second part starts if
/// the first accepts.
proof fn lemma_chained_closure(a: NfaView, b: NfaView, first: Set<State>, second: Set<State>)
    requires
        can_chain(a, b),
        first.subset_of(a.states),
        second.subset_of(b.states),
    ensures
        concat_view(a, b).closure(chained(a, b, first, second)) == chained(
            a,
            b,
            a.closure(first),
            b.closure(second).union(handed_over(a, b, a.closure(first))),
        ),
{
    let n = concat_view(a, b);
    let kb = (a.num_states + 1) as usize;
    let none = Set::<State>::empty();
    let door = shifted_states(set![b.start], kb);
    lemma_concat_embeds(a, b);
    lemma_embedded_closure(n, b, kb, none, none, second);
    lemma_embedded_closure(n, b, kb, none, none, set![b.start]);
    let behind = shifted_states(b.initial(), kb);
    lemma_closure_is_closed(n, door);
    lemma_embedded_closure(n, a, 1, door, behind, first);
    lemma_closure_of_union(n, shifted_states(first, 1), shifted_states(second, kb));
    lemma_shifted_union(b.closure(second), handed_over(a, b, a.closure(first)), kb);
    assert(n.closure(chained(a, b, first, second)) =~= chained(
        a,
        b,
        a.closure(first),
        b.closure(second).union(handed_over(a, b, a.closure(first))),
    ));
}

/// From its start state the concatenation goes on the empty word to the start
/// state of its first part, and nowhere else.
proof fn lemma_concat_start(a: NfaView, b: NfaView)
    requires
        can_chain(a, b),
    ensures
        forall|t: State| #[trigger]
            concat_view(a, b).edges.contains((0 as State, Symbol::Epsilon, t)) <==> shifted_states(
                set![a.start],
                1,
            ).contains(t),
{
    let n = concat_view(a, b);
    assert forall|t: State| #[trigger]
        n.edges.contains((0 as State, Symbol::Epsilon, t)) <==> shifted_states(set![a.start], 1).contains(
            t,
        ) by {
        if n.edges.contains((0 as State, Symbol::Epsilon, t)) {
            lemma_concat_edges(a, b, (0 as State, Symbol::Epsilon, t));
        }
    }
}

/// The concatenation starts in its own start state, where its first part
/// starts, and, if that accepts at once, where its second part starts.
proof fn lemma_concat_initial(a: NfaView, b: NfaView)
    requires
        can_chain(a, b),
    ensures
        concat_view(a, b).initial() == chained(
            a,
            b,
            a.initial(),
            handed_over(a, b, a.initial()),
        ).insert(0),
{
    let n = concat_view(a, b);
    let kb = (a.num_states + 1) as usize;
    let none = Set::<State>::empty();
    lemma_chained_closure(a, b, set![a.start], none);
    lemma_shifted_union(none, none, kb);
    assert(chained(a, b, set![a.start], none) =~= shifted_states(set![a.start], 1));
    b.lemma_closure_of_nothing();
    lemma_concat_start(a, b);
    lemma_closure_through(n, 0, shifted_states(set![a.start], 1));
}

/// A character leads the concatenation from the copies where it leads the
/// parts, and hands over to the second part where the first comes to accept.
proof fn lemma_chained_step(
    a: NfaView,
    b: NfaView,
    first: Set<State>,
    second: Set<State>,
    other: Set<State>,
    c: char,
)
    requires
        can_chain(a, b),
        first.subset_of(a.states),
        second.subset_of(b.states),
        other.subset_of(set![0 as State]),
    ensures
        concat_view(a, b).step(chained(a, b, first, second).union(other), c) == chained(
            a,
            b,
            a.step(first, c),
            b.step(second, c).union(handed_over(a, b, a.step(first, c))),
        ),
{
    let n = concat_view(a, b);
    let kb = (a.num_states + 1) as usize;
    let symbol = Symbol::Character(c);
    let door = shifted_states(set![b.start], kb);
    lemma_concat_embeds(a, b);
    lemma_embedded_moved(n, a, 1, door, first, symbol);
    lemma_embedded_moved(n, b, kb, Set::empty(), second, symbol);
    let from = chained(a, b, first, second).union(other);
    let parts = chained(a, b, first, second);
    assert(moved_from(n.edges, from, symbol) =~= moved_from(n.edges, parts, symbol)) by {
        assert forall|t: State|
            moved_from(n.edges, from, symbol).contains(t) <==> moved_from(
                n.edges,
                parts,
                symbol,
            ).contains(t) by {
            if moved_from(n.edges, from, symbol).contains(t) {
                let s = choose|s: State| from.contains(s) && n.edges.contains((s, symbol, t));
                if !parts.contains(s) {
                    lemma_concat_edges(a, b, (s, symbol, t));
                }
            }
            if moved_from(n.edges, parts, symbol).contains(t) {
                let s = choose|s: State| parts.contains(s) && n.edges.contains((s, symbol, t));
                assert(from.contains(s) && n.edges.contains((s, symbol, t)));
            }
        }
    }
    lemma_moved_from_union(n.edges, shifted_states(first, 1), shifted_states(second, kb), symbol);
    lemma_chained_closure(a, b, a.moved(first, c), b.moved(second, c));
}

/// The states of the second part that the concatenation can be in after `w`,
/// when it is in the states `first` of the first part and `second` of the
/// second part before.
pub open spec fn second_after(
    a: NfaView,
    b: NfaView,
    first: Set<State>,
    second: Set<State>,
    w: Seq<char>,
) -> Set<State>
    decreases w.len(),
{
    if w.len() == 0 {
        second
    } else {
        second_after(
            a,
            b,
            a.step(first, w[0]),
            b.step(second, w[0]).union(handed_over(a, b, a.step(first, w[0]))),
            w.drop_first(),
        )
    }
}

/// After a word the concatenation can be, in its first part, where that part
/// can be, and in its second part where the hand-overs have led.
proof fn lemma_chained_run(
    a: NfaView,
    b: NfaView,
    first: Set<State>,
    second: Set<State>,
    other: Set<State>,
    w: Seq<char>,
)
    requires
        can_chain(a, b),
        first.subset_of(a.states),
        second.subset_of(b.states),
        other.subset_of(set![0 as State]),
    ensures
        concat_view(a, b).run(chained(a, b, first, second).union(other), w) == chained(
            a,
            b,
            a.run(first, w),
            second_after(a, b, first, second, w),
        ).union(
            if w.len() == 0 {
                other
            } else {
                Set::<State>::empty()
            },
        ),
        second_after(a, b, first, second, w).subset_of(b.states),
    decreases w.len(),
{
    let n = concat_view(a, b);
    if w.len() > 0 {
        let c = w[0];
        lemma_chained_step(a, b, first, second, other, c);
        lemma_moved_stays(a, first, c);
        lemma_moved_stays(b, second, c);
        let next_first = a.step(first, c);
        let next_second = b.step(second, c).union(handed_over(a, b, next_first));
        assert(next_second.subset_of(b.states)) by {
            lemma_closure_stays(b, set![b.start]);
        }
        let next = chained(a, b, next_first, next_second);
        assert(next.union(Set::<State>::empty()) =~= next);
        lemma_chained_run(a, b, next_first, next_second, Set::empty(), w.drop_first());
        let rest = chained(a, b, a.run(first, w), second_after(a, b, first, second, w));
        assert(n.run(chained(a, b, first, second).union(other), w) =~= rest.union(
            Set::<State>::empty(),
        ));
    }
}

/// Whether the first part comes to accept after the first `k` characters of
/// `w`, and the second part leads from its start to `t` on the rest.
pub open spec fn hands_over_at(
    a: NfaView,
    b: NfaView,
    first: Set<State>,
    w: Seq<char>,
    t: State,
    k: int,
) -> bool {
    &&& 1 <= k <= w.len()
    &&& a.run(first, w.take(k)).contains(a.accept)
    &&& b.run(b.initial(), w.skip(k)).contains(t)
}

/// The second part is, after a word, where it was led from where it was
/// before, or from its start after a hand-over on the way.
proof fn lemma_second_after(
    a: NfaView,
    b: NfaView,
    first: Set<State>,
    second: Set<State>,
    w: Seq<char>,
    t: State,
)
    ensures
        second_after(a, b, first, second, w).contains(t) <==> b.run(second, w).contains(t)
            || exists|k: int| hands_over_at(a, b, first, w, t, k),
    decreases w.len(),
{
    if !(w.len() == 0) {
        let c = w[0];
        let rest = w.drop_first();
        let next_first = a.step(first, c);
        let handed = handed_over(a, b, next_first);
        let next_second = b.step(second, c).union(handed);
        lemma_second_after(a, b, next_first, next_second, rest, t);
        lemma_run_of_union(b, b.step(second, c), handed, rest);
        lemma_run_of_nothing(b, rest);
        // The first hand-over, after the first character.
        assert(w.take(1) =~= seq![c]);
        crate::nfa_algebra::lemma_run_one(a, first, c);
        assert(b.run(handed, rest).contains(t) <==> hands_over_at(a, b, first, w, t, 1));
        // The later hand-overs.
        assert forall|k: int| hands_over_at(a, b, next_first, rest, t, k) implies hands_over_at(
            a,
            b,
            first,
            w,
            t,
            k + 1,
        ) by {
            assert(w.take(k + 1).drop_first() =~= rest.take(k));
            assert(w.skip(k + 1) =~= rest.skip(k));
        }
        assert forall|k: int| k > 1 && hands_over_at(a, b, first, w, t, k) implies hands_over_at(
            a,
            b,
            next_first,
            rest,
            t,
            k - 1,
        ) by {
            assert(w.take(k).drop_first() =~= rest.take(k - 1));
            assert(w.skip(k) =~= rest.skip(k - 1));
        }
    }
}

/// The concatenation of two automata accepts the words that are a word of the
/// first followed by a word of the second.
pub proof fn lemma_concat_language(a: NfaView, b: NfaView, w: Seq<char>)
    requires
        can_chain(a, b),
    ensures
        concat_view(a, b).accepts(w) == chained_language(a, b, w),
{
    let n = concat_view(a, b);
    lemma_concat_initial(a, b);
    lemma_closure_stays(a, set![a.start]);
    lemma_closure_stays(b, set![b.start]);
    let first = a.initial();
    let second = handed_over(a, b, first);
    assert(chained(a, b, first, second).insert(0) =~= chained(a, b, first, second).union(set![0]));
    lemma_chained_run(a, b, first, second, set![0], w);
    lemma_run_stays(a, first, w);
    let after = second_after(a, b, first, second, w);
    // The accepting state is a state of the second part.
    assert(n.accepts(w) == after.contains(b.accept));
    lemma_second_after(a, b, first, second, w, b.accept);
    lemma_run_of_nothing(b, w);
    assert(w.take(0) =~= Seq::<char>::empty());
    assert(w.skip(0) =~= w);
    if chained_language(a, b, w) {
        let k = choose|k: int| 0 <= k <= w.len() && a.accepts(w.take(k)) && b.accepts(w.skip(k));
        if !(k == 0) {
            assert(hands_over_at(a, b, first, w, b.accept, k));
        }
    }
}

} // verus!
