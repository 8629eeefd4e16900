//! What holds of the deterministic automata that the library builds.

use vstd::prelude::*;

use crate::dfa::literal_view;
use crate::dfa_model::{
    lemma_verdict_of_walk, lemma_walk_concat, lemma_walk_stays, table_wf, word_over, DfaView,
};
use crate::state::{lemma_distinct_states_bounded, State};
use crate::symbol_table::Symbol;

verus! {

/// `small` is what minimising makes of `d`: a minimal automaton over the same
/// table, with the same language, whose states are numbered from 0 and whose
/// start state is 0.
pub open spec fn minimization_of(small: DfaView, d: DfaView) -> bool {
    &&& small.wf()
    &&& small.table == d.table
    &&& small.begin == 0
    &&& small.start == 0
    &&& small.same_language(d)
    &&& small.minimal()
}

/// A word that leads to `s`, if `s` can be reached.
pub open spec fn word_to(d: DfaView, s: State) -> Seq<char> {
    choose|w: Seq<char>| d.walk(d.start, w) == Some(s)
}

/// The state of `b` that the word leads to that leads to `s` in `a`.
pub open spec fn twin(a: DfaView, b: DfaView, s: State) -> State {
    b.walk(b.start, word_to(a, s)).unwrap()
}

/// In two automata with the same language, a state of the one and its twin in
/// the other do the same.
proof fn lemma_twin(a: DfaView, b: DfaView, s: State, w: Seq<char>)
    requires
        a.wf(),
        b.wf(),
        a.same_language(b),
        a.reachable(s),
    ensures
        b.walk(b.start, word_to(a, s)) is Some,
        b.has_state(twin(a, b, s)),
        b.verdict_from(twin(a, b, s), w) == a.verdict_from(s, w),
{
    let u = word_to(a, s);
    lemma_verdict_of_walk(a, a.start, u);
    lemma_verdict_of_walk(b, b.start, u);
    assert(a.verdict(u) == b.verdict(u));
    lemma_walk_stays(b, b.start, u);
    lemma_walk_concat(a, a.start, u, w);
    lemma_walk_concat(b, b.start, u, w);
    assert(a.verdict(u + w) == b.verdict(u + w));
}

/// An automaton in which every state can be reached and every two states can
/// be told apart has no more states than any automaton with the same language.
pub proof fn lemma_minimal_is_smallest(a: DfaView, b: DfaView)
    requires
        a.wf(),
        b.wf(),
        a.minimal(),
        a.same_language(b),
    ensures
        a.num_states <= b.num_states,
{
    let twins = Seq::new(a.num_states as nat, |i: int| twin(a, b, (a.begin + i) as State));
    assert forall|i: int| 0 <= i < twins.len() implies b.begin <= #[trigger] twins[i] <= b.end by {
        let s = (a.begin + i) as State;
        lemma_twin(a, b, s, Seq::empty());
    }
    assert forall|i: int, j: int|
        0 <= i < twins.len() && 0 <= j < twins.len() && i != j implies twins[i] != twins[j] by {
        let s = (a.begin + i) as State;
        let t = (a.begin + j) as State;
        if twins[i] == twins[j] {
            assert(a.distinguishable(s, t));
            let w = choose|w: Seq<char>| a.accepts_from(s, w) != a.accepts_from(t, w);
            lemma_twin(a, b, s, w);
            lemma_twin(a, b, t, w);
        }
    }
    lemma_distinct_states_bounded(twins, b.begin, b.end);
}

/// Two minimal automata with the same language have the same number of states.
pub proof fn lemma_minimal_size_is_unique(a: DfaView, b: DfaView)
    requires
        a.wf(),
        b.wf(),
        a.minimal(),
        b.minimal(),
        a.same_language(b),
    ensures
        a.num_states == b.num_states,
{
    lemma_minimal_is_smallest(a, b);
    assert(b.same_language(a));
    lemma_minimal_is_smallest(b, a);
}

/// Minimising what was minimised changes neither the number of states nor the
/// language.
pub proof fn lemma_minimization_is_idempotent(d: DfaView, once: DfaView, twice: DfaView)
    requires
        minimization_of(once, d),
        minimization_of(twice, once),
    ensures
        twice.num_states == once.num_states,
        twice.same_language(once),
        twice.same_language(d),
        minimization_of(twice, d),
{
    lemma_minimal_size_is_unique(twice, once);
}

/// From the state `i` of its chain, the automaton of the word `w` accepts
/// what is left of `w` from `i` on, if that is a word over the table, and
/// nothing else; from the state behind the chain it accepts nothing.
pub proof fn lemma_literal_run(table: Seq<Symbol>, w: Seq<char>, i: State, x: Seq<char>)
    requires
        table_wf(table),
        w.len() + 2 <= usize::MAX,
        i <= w.len() + 1,
    ensures
        literal_view(table, w).accepts_from(i, x) == (i <= w.len() && x == w.skip(i as int)
            && word_over(table, x)),
    decreases x.len(),
{
    let d = literal_view(table, w);
    if x.len() == 0 {
        if i <= w.len() {
            assert((x == w.skip(i as int)) == (i == w.len())) by {
                if i == w.len() {
                    assert(x =~= w.skip(i as int));
                }
            }
        }
    } else {
        let c = x[0];
        let rest = x.drop_first();
        if d.delta.contains_key((i, c)) {
            let next = d.delta[(i, c)];
            lemma_literal_run(table, w, next, rest);
            assert(word_over(table, x) == word_over(table, rest)) by {
                if word_over(table, rest) {
                    assert forall|k: int| 0 <= k < x.len() implies table.contains(
                        Symbol::Character(#[trigger] x[k]),
                    ) by {
                        if k > 0 {
                            assert(x[k] == rest[k - 1]);
                        }
                    }
                }
            }
            if i < w.len() && w[i as int] == c {
                assert((x == w.skip(i as int)) == (rest == w.skip(i + 1))) by {
                    assert(w.skip(i as int).drop_first() =~= w.skip(i + 1));
                    if rest == w.skip(i + 1) {
                        assert forall|k: int| 0 <= k < x.len() implies x[k] == w.skip(i as int)[k] by {
                            if k > 0 {
                                assert(x[k] == rest[k - 1]);
                            }
                        }
                        assert(x =~= w.skip(i as int));
                    }
                }
            }
        }
    }
}

/// The automaton of the word `w` accepts `w`, if it is a word over the table,
/// and nothing else.
pub proof fn lemma_literal_language(table: Seq<Symbol>, w: Seq<char>, x: Seq<char>)
    requires
        table_wf(table),
        w.len() + 2 <= usize::MAX,
    ensures
        literal_view(table, w).accepts(x) == (x == w && word_over(table, w)),
{
    lemma_literal_run(table, w, 0, x);
    assert(w.skip(0) =~= w);
}

} // verus!
