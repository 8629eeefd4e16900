//! The star of an automaton accepts the words that are made of words of the
//! automaton, one after the other.

use vstd::prelude::*;

use crate::n_transition_function::{moved_from, shifted_edges, Edge};
use crate::nfa::{lemma_shifted_edges_stay, star_view};
use crate::nfa_algebra::{
    embeds, eps_closed, lemma_closure_is_closed, lemma_embedded_closure,
    lemma_embedded_closure_below, lemma_embedded_moved, lemma_run_of_union, lemma_run_one,
    lemma_shifted_union,
};
use crate::nfa_model::{
    lemma_closure_holds_set, lemma_closure_is_least, lemma_closure_stays, lemma_closure_step,
    lemma_moved_stays, lemma_run_of_nothing, NfaView,
};
use crate::state::{shifted_states, State};
use crate::symbol_table::Symbol;

verus! {

/// What the star needs of its part: it is well formed, its states are
/// numbered from 0, and the states of the star can be numbered.
pub open spec fn can_star(a: NfaView) -> bool {
    &&& a.wf()
    &&& a.begin == 0
    &&& a.num_states + 2 <= usize::MAX
}

/// Whether `w` is made of words of `a`, one after the other: whether it is
/// the empty word, or such a word followed by a word of `a` that is not empty.
pub open spec fn repeated(a: NfaView, w: Seq<char>) -> bool
    decreases w.len(),
{
    w.len() == 0 || exists|k: int|
        0 <= k < w.len() && repeated(a, w.take(k)) && a.accepts(w.skip(k))
}

/// The last state of the star, which alone accepts.
pub open spec fn star_exit(a: NfaView) -> State {
    (a.num_states + 1) as State
}

/// Where every transition of the star comes from: from the part, or it is one
/// of the four that lead into it, out of it, back and past it.
pub proof fn lemma_star_edges(a: NfaView, e: Edge)
    requires
        can_star(a),
        star_view(a).edges.contains(e),
    ensures
        ({
            let x = a.num_states;
            let last = star_exit(a);
            ||| (shifted_edges(a.edges, 1).contains(e) && 1 <= e.0 <= x && 1 <= e.2 <= x)
            ||| e == (0 as State, Symbol::Epsilon, (a.start + 1) as State)
            ||| e == ((a.accept + 1) as State, Symbol::Epsilon, last)
            ||| e == (last, Symbol::Epsilon, 0 as State)
            ||| e == (0 as State, Symbol::Epsilon, last)
        }),
{
    if shifted_edges(a.edges, 1).contains(e) {
        lemma_shifted_edges_stay(a, 1, e);
    }
}

/// The states between two rounds: the start state, the last state, and the
/// states in which the part starts.
pub open spec fn hub(a: NfaView) -> Set<State> {
    shifted_states(a.initial(), 1).insert(0).insert(star_exit(a))
}

/// The star holds a copy of its part, from which the way out leads to the
/// last state.
pub proof fn lemma_star_embeds(a: NfaView)
    requires
        can_star(a),
    ensures
        embeds(star_view(a), a, 1, set![star_exit(a)]),
{
    let n = star_view(a);
    let last = star_exit(a);
    assert forall|e: Edge| #[trigger]
        n.edges.contains(e) && a.begin + 1 <= e.0 <= a.end + 1 implies shifted_edges(
        a.edges,
        1,
    ).contains(e) || (e.0 == a.accept + 1 && e.1 == Symbol::Epsilon && set![last].contains(
        e.2,
    )) by {
        lemma_star_edges(a, e);
    }
}

/// The states between two rounds hold what they reach on the empty word.
proof fn lemma_hub_is_closed(a: NfaView)
    requires
        can_star(a),
    ensures
        eps_closed(star_view(a), hub(a)),
{
    let n = star_view(a);
    lemma_closure_stays(a, set![a.start]);
    assert forall|v: State, t: State|
        hub(a).contains(v) && #[trigger] n.edges.contains(
            (v, Symbol::Epsilon, t),
        ) implies hub(a).contains(t) by {
        let e: Edge = (v, Symbol::Epsilon, t);
        lemma_star_edges(a, e);
        if shifted_edges(a.edges, 1).contains(e) {
            let low = (v - 1) as State;
            lemma_closure_step(a, set![a.start], low, (t - 1) as State);
        } else if e == (0 as State, Symbol::Epsilon, (a.start + 1) as State) {
            lemma_closure_holds_set(a, set![a.start], a.start);
        }
    }
}

/// The states between two rounds are reached from each of the two outer states.
proof fn lemma_hub_is_reached(a: NfaView, from: State)
    requires
        can_star(a),
        from == 0 || from == star_exit(a),
    ensures
        star_view(a).closure(set![from]) == hub(a),
{
    let n = star_view(a);
    let last = star_exit(a);
    let reached = n.closure(set![from]);
    lemma_hub_is_closed(a);
    lemma_closure_is_least(n, set![from], hub(a));
    lemma_closure_is_closed(n, set![from]);
    let e1: Edge = (last, Symbol::Epsilon, 0 as State);
    let e2: Edge = (0 as State, Symbol::Epsilon, last);
    let e3: Edge = (0 as State, Symbol::Epsilon, (a.start + 1) as State);
    assert(n.edges.contains(e1) && n.edges.contains(e2) && n.edges.contains(e3));
    lemma_star_embeds(a);
    lemma_embedded_closure_below(n, a, 1, set![last], set![a.start]);
    lemma_closure_is_least(n, shifted_states(set![a.start], 1), reached);
}

/// The states in which the part starts anew, if it is in its accepting state;
/// else none.
pub open spec fn restarted(a: NfaView, set: Set<State>) -> Set<State> {
    if set.contains(a.accept) {
        a.initial()
    } else {
        Set::<State>::empty()
    }
}

/// The states of the star that stand for the states `set` of the part, with
/// the two outer states if `between` says that a round has ended.
pub open spec fn starred(a: NfaView, set: Set<State>, between: bool) -> Set<State> {
    shifted_states(set, 1).union(
        if between {
            set![0 as State, star_exit(a)]
        } else {
            Set::<State>::empty()
        },
    )
}

/// What the star reaches on the empty word from the copies of states of its
/// part is what the part reaches, and, if the part accepts, the states
/// between two rounds.
proof fn lemma_starred_closure(a: NfaView, set: Set<State>)
    requires
        can_star(a),
        set.subset_of(a.states),
    ensures
        star_view(a).closure(shifted_states(set, 1)) == starred(
            a,
            a.closure(set).union(restarted(a, a.closure(set))),
            a.closure(set).contains(a.accept),
        ),
{
    let n = star_view(a);
    let last = set![star_exit(a)];
    lemma_star_embeds(a);
    lemma_hub_is_closed(a);
    lemma_hub_is_reached(a, star_exit(a));
    lemma_embedded_closure(n, a, 1, last, hub(a), set);
    lemma_shifted_union(a.closure(set), restarted(a, a.closure(set)), 1);
    assert(n.closure(shifted_states(set, 1)) =~= starred(
        a,
        a.closure(set).union(restarted(a, a.closure(set))),
        a.closure(set).contains(a.accept),
    ));
}

/// A character leads the star from the copies where it leads the part, and
/// starts the part anew where it comes to accept.
proof fn lemma_starred_step(a: NfaView, set: Set<State>, between: bool, c: char)
    requires
        can_star(a),
        set.subset_of(a.states),
    ensures
        star_view(a).step(starred(a, set, between), c) == starred(
            a,
            a.step(set, c).union(restarted(a, a.step(set, c))),
            a.step(set, c).contains(a.accept),
        ),
{
    let n = star_view(a);
    let symbol = Symbol::Character(c);
    let last = set![star_exit(a)];
    lemma_star_embeds(a);
    lemma_embedded_moved(n, a, 1, last, set, symbol);
    let from = starred(a, set, between);
    let parts = shifted_states(set, 1);
    assert(moved_from(n.edges, from, symbol) =~= moved_from(n.edges, parts, symbol)) by {
        assert forall|t: State|
            moved_from(n.edges, from, symbol).contains(t) <==> moved_from(
                n.edges,
                parts,
                symbol,
            ).contains(t) by {
            if moved_from(n.edges, from, symbol).contains(t) {
                let s = choose|s: State| from.contains(s) && n.edges.contains((s, symbol, t));
                if !parts.contains(s) {
                    lemma_star_edges(a, (s, symbol, t));
                }
            }
            if moved_from(n.edges, parts, symbol).contains(t) {
                let s = choose|s: State| parts.contains(s) && n.edges.contains((s, symbol, t));
                assert(from.contains(s) && n.edges.contains((s, symbol, t)));
            }
        }
    }
    lemma_starred_closure(a, a.moved(set, c));
}

/// The states of the part that the star can be in after the last character of
/// `w`, before the part starts anew; `w` is not empty.
pub open spec fn round_after(a: NfaView, set: Set<State>, w: Seq<char>) -> Set<State>
    decreases w.len(),
{
    if w.len() <= 1 {
        a.step(set, w[0])
    } else {
        round_after(
            a,
            a.step(set, w[0]).union(restarted(a, a.step(set, w[0]))),
            w.drop_first(),
        )
    }
}

/// After a word that is not empty the star can be where the last round has
/// led the part, where the part starts anew if the round has ended, and then
/// in the two outer states.
proof fn lemma_starred_run(a: NfaView, set: Set<State>, between: bool, w: Seq<char>)
    requires
        can_star(a),
        set.subset_of(a.states),
        w.len() > 0,
    ensures
        star_view(a).run(starred(a, set, between), w) == starred(
            a,
            round_after(a, set, w).union(restarted(a, round_after(a, set, w))),
            round_after(a, set, w).contains(a.accept),
        ),
        round_after(a, set, w).subset_of(a.states),
    decreases w.len(),
{
    let n = star_view(a);
    let c = w[0];
    let rest = w.drop_first();
    let from = starred(a, set, between);
    lemma_starred_step(a, set, between, c);
    lemma_moved_stays(a, set, c);
    let stepped = a.step(set, c);
    let next = stepped.union(restarted(a, stepped));
    assert(n.run(from, w) == n.run(n.step(from, c), rest));
    if !(w.len() == 1) {
        assert(next.subset_of(a.states)) by {
            lemma_closure_stays(a, set![a.start]);
        }
        lemma_starred_run(a, next, stepped.contains(a.accept), rest);
    }
}

/// Whether a round ends after the first `k` characters of `w`, and the part
/// leads from its start to `t` on the rest.
pub open spec fn restarts_at(a: NfaView, set: Set<State>, w: Seq<char>, t: State, k: int) -> bool {
    &&& 1 <= k < w.len()
    &&& round_after(a, set, w.take(k)).contains(a.accept)
    &&& a.run(a.initial(), w.skip(k)).contains(t)
}

/// The last round has led the part from where it was before, or from its
/// start after a round that ended on the way.
proof fn lemma_round_after(a: NfaView, set: Set<State>, w: Seq<char>, t: State)
    requires
        w.len() > 0,
    ensures
        round_after(a, set, w).contains(t) <==> a.run(set, w).contains(t) || exists|k: int|
            restarts_at(a, set, w, t, k),
    decreases w.len(),
{
    let c = w[0];
    let rest = w.drop_first();
    if w.len() == 1 {
        assert(w =~= seq![c]);
        lemma_run_one(a, set, c);
    } else {
        let stepped = a.step(set, c);
        let again = restarted(a, stepped);
        let next = stepped.union(again);
        lemma_round_after(a, next, rest, t);
        lemma_run_of_union(a, stepped, again, rest);
        lemma_run_of_nothing(a, rest);
        // The first round, of one character.
        assert(a.run(again, rest).contains(t) <==> restarts_at(a, set, w, t, 1));
        // The later rounds.
        assert forall|k: int| restarts_at(a, next, rest, t, k) implies restarts_at(
            a,
            set,
            w,
            t,
            k + 1,
        ) by {
            assert(w.take(k + 1).drop_first() =~= rest.take(k));
            assert(w.skip(k + 1) =~= rest.skip(k));
        }
        assert forall|k: int| k > 1 && restarts_at(a, set, w, t, k) implies restarts_at(
            a,
            next,
            rest,
            t,
            k - 1,
        ) by {
            assert(w.take(k).drop_first() =~= rest.take(k - 1));
            assert(w.skip(k) =~= rest.skip(k - 1));
        }
    }
}

/// A round ends with a word that is not empty exactly if the word is made of
/// words of the part.
proof fn lemma_rounds(a: NfaView, w: Seq<char>)
    requires
        w.len() > 0,
    ensures
        round_after(a, a.initial(), w).contains(a.accept) == repeated(a, w),
    decreases w.len(),
{
    let start = a.initial();
    lemma_round_after(a, start, w, a.accept);
    assert(w.skip(0) =~= w);
    if round_after(a, start, w).contains(a.accept) {
        if a.run(start, w).contains(a.accept) {
            assert(0 <= 0 < w.len() && repeated(a, w.take(0)) && a.accepts(w.skip(0)));
        } else {
            let k = choose|k: int| restarts_at(a, start, w, a.accept, k);
            lemma_rounds(a, w.take(k));
        }
    }
    if repeated(a, w) {
        let k = choose|k: int| 0 <= k < w.len() && repeated(a, w.take(k)) && a.accepts(w.skip(k));
        if k > 0 {
            lemma_rounds(a, w.take(k));
            assert(restarts_at(a, start, w, a.accept, k));
        }
    }
}

/// The star of an automaton accepts the words that are made of words of the
/// automaton, one after the other; the empty word is made of none.
pub proof fn lemma_star_language(a: NfaView, w: Seq<char>)
    requires
        can_star(a),
    ensures
        star_view(a).accepts(w) == repeated(a, w),
{
    let n = star_view(a);
    let last = star_exit(a);
    lemma_hub_is_reached(a, 0);
    assert(n.initial() =~= starred(a, a.initial(), true));
    lemma_closure_stays(a, set![a.start]);
    if w.len() > 0 {
        lemma_starred_run(a, a.initial(), true, w);
        let round = round_after(a, a.initial(), w);
        let states = round.union(restarted(a, round));
        assert(!shifted_states(states, 1).contains(last));
        lemma_rounds(a, w);
    }
}

} // verus!
