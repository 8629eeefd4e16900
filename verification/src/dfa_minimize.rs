//! Minimising a deterministic automaton by marking the pairs of states that
//! some word tells apart, and joining the states that no word tells apart.

use vstd::prelude::*;

use crate::dfa::DFA;
use crate::dfa_laws::minimization_of;
use crate::dfa_model::{
    bisimulation, lemma_bisimilar, lemma_different_verdicts_distinguish, lemma_renumbering,
    renumbering, DfaView,
};
use crate::disjoint_set_union::DSU;
use crate::state::{copy_states, State};
use crate::symbol_table::Symbol;
use crate::transition_function::{BasicFunctionsForTransitions, DTransitionFunction};

verus! {

broadcast use vstd::std_specs::hash::group_hash_axioms;

/// The table has `n` rows of `n` marks.
pub open spec fn square(marks: Seq<Vec<bool>>, n: int) -> bool {
    &&& marks.len() == n
    &&& forall|i: int| 0 <= i < n ==> (#[trigger] marks[i])@.len() == n
}

/// Whether the pair of `p` and `q` is marked. The mark of a pair stands in
/// the row of its smaller state; a state makes no pair with itself.
pub open spec fn is_marked(marks: Seq<Vec<bool>>, p: State, q: State) -> bool {
    if p < q {
        marks[p as int]@[q as int]
    } else if q < p {
        marks[q as int]@[p as int]
    } else {
        false
    }
}

/// Every marked pair can be told apart by a word.
pub open spec fn marks_sound(d: DfaView, marks: Seq<Vec<bool>>) -> bool {
    forall|i: int, j: int|
        0 <= i < j < d.num_states && #[trigger] marks[i]@[j] ==> d.distinguishable(
            i as State,
            j as State,
        )
}

/// Every pair of which one state accepts and the other does not is marked.
pub open spec fn marks_cover_finals(d: DfaView, marks: Seq<Vec<bool>>) -> bool {
    forall|i: int, j: int|
        0 <= i < j < d.num_states && d.finals.contains(i as State) != d.finals.contains(
            j as State,
        ) ==> #[trigger] marks[i]@[j]
}

/// No character leads from the pair of `i` and `j` to a marked pair.
pub open spec fn pair_closed(d: DfaView, marks: Seq<Vec<bool>>, i: State, j: State) -> bool {
    forall|c: char| #[trigger]
        d.has_char(c) ==> !is_marked(marks, d.delta[(i, c)], d.delta[(j, c)])
}

/// No character leads from a pair without a mark to a marked pair.
pub open spec fn marks_closed(d: DfaView, marks: Seq<Vec<bool>>) -> bool {
    forall|i: int, j: int|
        0 <= i < j < d.num_states && !(#[trigger] marks[i]@[j]) ==> pair_closed(
            d,
            marks,
            i as State,
            j as State,
        )
}

/// How many places of a row hold no mark.
pub open spec fn blanks_in_row(row: Seq<bool>) -> nat
    decreases row.len(),
{
    if row.len() == 0 {
        0
    } else {
        blanks_in_row(row.drop_last()) + if row.last() {
            0nat
        } else {
            1nat
        }
    }
}

/// How many places of the table hold no mark.
pub open spec fn blanks(marks: Seq<Vec<bool>>) -> nat
    decreases marks.len(),
{
    if marks.len() == 0 {
        0
    } else {
        blanks(marks.drop_last()) + blanks_in_row(marks.last()@)
    }
}

/// A mark on a blank place leaves one blank place less in the row.
pub proof fn lemma_mark_in_row(row: Seq<bool>, j: int)
    requires
        0 <= j < row.len(),
        !row[j],
    ensures
        blanks_in_row(row.update(j, true)) + 1 == blanks_in_row(row),
    decreases row.len(),
{
    let after = row.update(j, true);
    if j == row.len() - 1 {
        assert(after.drop_last() =~= row.drop_last());
    } else {
        assert(after.drop_last() =~= row.drop_last().update(j, true));
        lemma_mark_in_row(row.drop_last(), j);
    }
}

/// A mark on a blank place leaves one blank place less in the table.
pub proof fn lemma_mark_in_table(before: Seq<Vec<bool>>, after: Seq<Vec<bool>>, i: int, j: int)
    requires
        0 <= i < before.len(),
        after.len() == before.len(),
        0 <= j < before[i]@.len(),
        !before[i]@[j],
        after[i]@ == before[i]@.update(j, true),
        forall|k: int| 0 <= k < before.len() && k != i ==> after[k] == before[k],
    ensures
        blanks(after) + 1 == blanks(before),
    decreases before.len(),
{
    if i == before.len() - 1 {
        assert(after.drop_last() =~= before.drop_last());
        lemma_mark_in_row(before[i]@, j);
    } else {
        lemma_mark_in_table(before.drop_last(), after.drop_last(), i, j);
    }
}

/// A word that tells apart the states that a character leads to, with that
/// character before it, tells apart the states that the character leaves.
pub proof fn lemma_distinguishable_step(d: DfaView, p: State, q: State, c: char)
    requires
        d.delta.contains_key((p, c)),
        d.delta.contains_key((q, c)),
        d.distinguishable(d.delta[(p, c)], d.delta[(q, c)]),
    ensures
        d.distinguishable(p, q),
{
    let tail = choose|w: Seq<char>|
        d.accepts_from(d.delta[(p, c)], w) != d.accepts_from(d.delta[(q, c)], w);
    let w = seq![c] + tail;
    assert(w.drop_first() =~= tail);
    assert(d.accepts_from(p, w) == d.accepts_from(d.delta[(p, c)], tail));
}

/// A word that tells two states apart tells them apart in either order.
pub proof fn lemma_distinguishable_symmetric(d: DfaView, p: State, q: State)
    requires
        d.distinguishable(p, q),
    ensures
        d.distinguishable(q, p),
{
}

/// States that do the same are led by a character to states that do the same.
pub proof fn lemma_equivalent_step(d: DfaView, p: State, q: State, c: char)
    requires
        d.equivalent(p, q),
        d.delta.contains_key((p, c)),
        d.delta.contains_key((q, c)),
    ensures
        d.equivalent(d.delta[(p, c)], d.delta[(q, c)]),
{
    assert forall|tail: Seq<char>|
        d.verdict_from(d.delta[(p, c)], tail) == d.verdict_from(d.delta[(q, c)], tail) by {
        let w = seq![c] + tail;
        assert(w.drop_first() =~= tail);
        assert(d.verdict_from(p, w) == d.verdict_from(d.delta[(p, c)], tail));
    }
}

/// States that do the same accept alike.
pub proof fn lemma_equivalent_finals(d: DfaView, p: State, q: State)
    requires
        d.equivalent(p, q),
    ensures
        d.finals.contains(p) == d.finals.contains(q),
{
    let w = Seq::<char>::empty();
    assert(d.verdict_from(p, w) == d.verdict_from(q, w));
}

/// States that a word tells apart do not do the same.
pub proof fn lemma_distinguishable_not_equivalent(d: DfaView, p: State, q: State)
    requires
        d.distinguishable(p, q),
    ensures
        !d.equivalent(p, q),
{
}

/// When the marking has come to rest, the pairs without a mark are the pairs
/// of states that do the same.
pub proof fn lemma_marks_decide(d: DfaView, marks: Seq<Vec<bool>>)
    requires
        d.wf(),
        d.begin == 0,
        square(marks, d.num_states as int),
        marks_sound(d, marks),
        marks_cover_finals(d, marks),
        marks_closed(d, marks),
    ensures
        forall|p: State, q: State|
            p < d.num_states && q < d.num_states ==> (!is_marked(marks, p, q) <==> #[trigger] d.equivalent(
                p,
                q,
            )),
{
    let n = d.num_states;
    let r = |p: State, q: State| p < n && q < n && !is_marked(marks, p, q);
    assert(bisimulation(d, d, r)) by {
        assert forall|p: State, q: State| #[trigger] r(p, q) implies {
            &&& d.finals.contains(p) == d.finals.contains(q)
            &&& forall|c: char| #[trigger]
                d.delta.contains_key((p, c)) == d.delta.contains_key((q, c))
            &&& forall|c: char| #[trigger]
                d.delta.contains_key((p, c)) ==> r(d.delta[(p, c)], d.delta[(q, c)])
        } by {
            assert forall|c: char| #[trigger] d.delta.contains_key((p, c)) implies r(
                d.delta[(p, c)],
                d.delta[(q, c)],
            ) by {
                assert(d.delta.contains_key((q, c)));
            }
        }
    }
    assert forall|p: State, q: State| p < n && q < n implies (!is_marked(marks, p, q)
        <==> #[trigger] d.equivalent(p, q)) by {
        if !is_marked(marks, p, q) {
            assert forall|w: Seq<char>| d.verdict_from(p, w) == d.verdict_from(q, w) by {
                lemma_bisimilar(d, d, r, p, q, w);
            }
        } else {
            if p < q {
                lemma_distinguishable_not_equivalent(d, p, q);
            } else {
                lemma_distinguishable_symmetric(d, q, p);
                lemma_distinguishable_not_equivalent(d, p, q);
            }
        }
    }
}

/// States of `quotient` are the states of `d`; every transition of `d` leads,
/// in `quotient`, to the representative of the state that it leads to in `d`.
pub open spec fn quotient_of(d: DfaView, reps: Seq<State>, quotient: DfaView) -> bool {
    &&& quotient.table == d.table
    &&& quotient.begin == 0
    &&& quotient.start == 0
    &&& quotient.end == d.end
    &&& quotient.finals == d.finals
    &&& forall|s: State, c: char| #[trigger]
        d.delta.contains_key((s, c)) ==> quotient.delta[(s, c)] == reps[d.delta[(s, c)] as int]
}

/// The representatives stand for the classes of the states that do the same.
pub open spec fn reps_decide(d: DfaView, reps: Seq<State>) -> bool {
    &&& reps.len() == d.num_states
    &&& forall|p: State|
        p < d.num_states ==> #[trigger] reps[p as int] <= p && reps[reps[p as int] as int]
            == reps[p as int]
    &&& forall|p: State, q: State|
        p < d.num_states && q < d.num_states ==> (reps[p as int] == reps[q as int]
            <==> #[trigger] d.equivalent(p, q))
}

/// In the quotient only representatives are reached from a representative.
pub proof fn lemma_quotient_walk(
    d: DfaView,
    reps: Seq<State>,
    quotient: DfaView,
    u: State,
    w: Seq<char>,
)
    requires
        d.wf(),
        d.begin == 0,
        quotient.wf(),
        reps_decide(d, reps),
        quotient_of(d, reps, quotient),
        u < d.num_states,
        reps[u as int] == u,
    ensures
        quotient.walk(u, w) matches Some(t) ==> t < d.num_states && reps[t as int] == t,
    decreases w.len(),
{
    if w.len() > 0 && quotient.delta.contains_key((u, w[0])) {
        let c = w[0];
        assert(d.delta.contains_key((u, c)));
        let x = d.delta[(u, c)];
        let t = reps[x as int];
        lemma_quotient_walk(d, reps, quotient, t, w.drop_first());
    }
}

/// The quotient does, from every state, what the automaton does from it; and
/// the states that it reaches are representatives.
pub proof fn lemma_quotient(d: DfaView, reps: Seq<State>, quotient: DfaView)
    requires
        d.wf(),
        d.begin == 0,
        d.start == 0,
        quotient.wf(),
        reps_decide(d, reps),
        quotient_of(d, reps, quotient),
    ensures
        quotient.same_language(d),
        forall|p: State, w: Seq<char>|
            p < d.num_states ==> quotient.verdict_from(p, w) == d.verdict_from(p, w),
        forall|p: State| quotient.reachable(p) ==> p < d.num_states && reps[p as int] == p,
{
    let n = d.num_states;
    let r = |p: State, q: State| p < n && q < n && d.equivalent(p, q);
    assert(bisimulation(quotient, d, r)) by {
        assert forall|p: State, q: State| #[trigger] r(p, q) implies {
            &&& quotient.finals.contains(p) == d.finals.contains(q)
            &&& forall|c: char| #[trigger]
                quotient.delta.contains_key((p, c)) == d.delta.contains_key((q, c))
            &&& forall|c: char| #[trigger]
                quotient.delta.contains_key((p, c)) ==> r(quotient.delta[(p, c)], d.delta[(q, c)])
        } by {
            lemma_equivalent_finals(d, p, q);
            assert forall|c: char| #[trigger]
                quotient.delta.contains_key((p, c)) == d.delta.contains_key((q, c)) by {}
            assert forall|c: char| #[trigger] quotient.delta.contains_key((p, c)) implies r(
                quotient.delta[(p, c)],
                d.delta[(q, c)],
            ) by {
                assert(d.delta.contains_key((p, c)));
                let x = d.delta[(p, c)];
                let y = d.delta[(q, c)];
                lemma_equivalent_step(d, p, q, c);
                let t = reps[x as int];
                assert(d.equivalent(t, x));
                assert(d.equivalent(t, y));
            }
        }
    }
    assert forall|p: State, w: Seq<char>| p < n implies quotient.verdict_from(p, w)
        == d.verdict_from(p, w) by {
        lemma_bisimilar(quotient, d, r, p, p, w);
    }
    assert(quotient.same_language(d));
    assert forall|p: State| quotient.reachable(p) implies p < n && reps[p as int] == p by {
        let w = choose|w: Seq<char>| quotient.walk(quotient.start, w) == Some(p);
        lemma_quotient_walk(d, reps, quotient, 0, w);
    }
}

/// What is left when the unreachable states of the quotient are dropped is
/// minimal and has the language of the automaton.
pub proof fn lemma_cleaned_quotient_is_minimal(
    d: DfaView,
    reps: Seq<State>,
    quotient: DfaView,
    result: DfaView,
    order: Seq<State>,
)
    requires
        d.wf(),
        d.begin == 0,
        d.start == 0,
        quotient.wf(),
        result.wf(),
        reps_decide(d, reps),
        quotient_of(d, reps, quotient),
        renumbering(quotient, result, order),
    ensures
        result.same_language(d),
        result.minimal(),
{
    lemma_quotient(d, reps, quotient);
    lemma_renumbering(quotient, result, order);
    assert forall|p: State, q: State|
        result.has_state(p) && result.has_state(q) && p != q implies result.distinguishable(
        p,
        q,
    ) by {
        let x = order[p as int];
        let y = order[q as int];
        assert(!d.equivalent(x, y));
        let w = choose|w: Seq<char>| d.verdict_from(x, w) != d.verdict_from(y, w);
        lemma_different_verdicts_distinguish(result, p, q, w);
    }
}

/// A table of `n` rows of `n` places, none of them marked.
fn blank_marks(n: usize) -> (marks: Vec<Vec<bool>>)
    ensures
        square(marks@, n as int),
        forall|i: int, j: int| 0 <= i < n && 0 <= j < n ==> !(#[trigger] marks@[i]@[j]),
{
    let mut marks: Vec<Vec<bool>> = Vec::new();
    let mut i: usize = 0;
    while i < n
        invariant
            i <= n,
            marks@.len() == i,
            forall|a: int| 0 <= a < i ==> (#[trigger] marks@[a])@.len() == n,
            forall|a: int, b: int| 0 <= a < i && 0 <= b < n ==> !(#[trigger] marks@[a]@[b]),
        decreases n - i,
    {
        let mut row: Vec<bool> = Vec::new();
        let mut j: usize = 0;
        while j < n
            invariant
                j <= n,
                row@.len() == j,
                forall|b: int| 0 <= b < j ==> !(#[trigger] row@[b]),
            decreases n - j,
        {
            row.push(false);
            j += 1;
        }
        marks.push(row);
        i += 1;
    }
    marks
}

/// Marks the pairs of which one state accepts and the other does not.
fn initial_marks(dfa: &DFA) -> (marks: Vec<Vec<bool>>)
    requires
        dfa.wf(),
        dfa@.begin == 0,
    ensures
        square(marks@, dfa@.num_states as int),
        marks_sound(dfa@, marks@),
        marks_cover_finals(dfa@, marks@),
{
    let n = dfa.num_states();
    let mut marks = blank_marks(n);
    let mut i: usize = 0;
    while i < n
        invariant
            i <= n,
            n == dfa@.num_states,
            square(marks@, n as int),
            forall|a: int, b: int|
                0 <= a < b < n ==> (#[trigger] marks@[a]@[b] <==> a < i && dfa@.finals.contains(
                    a as State,
                ) != dfa@.finals.contains(b as State)),
        decreases n - i,
    {
        let first = dfa.final_states().contains(&i);
        let mut j: usize = i + 1;
        while j < n
            invariant
                i < j <= n,
                n == dfa@.num_states,
                first == dfa@.finals.contains(i),
                square(marks@, n as int),
                forall|a: int, b: int|
                    0 <= a < b < n ==> (#[trigger] marks@[a]@[b] <==> (a < i || (a == i && b < j))
                        && dfa@.finals.contains(a as State) != dfa@.finals.contains(b as State)),
            decreases n - j,
        {
            let second = dfa.final_states().contains(&j);
            if first != second {
                marks[i][j] = true;
            }
            j += 1;
        }
        i += 1;
    }
    proof {
        assert forall|a: int, b: int| 0 <= a < b < n && #[trigger] marks@[a]@[b] implies dfa@.distinguishable(
            a as State,
            b as State,
        ) by {
            let w = Seq::<char>::empty();
            assert(dfa@.accepts_from(a as State, w) != dfa@.accepts_from(b as State, w));
        }
    }
    marks
}

/// Whether some character leads from the pair of `i` and `j` to a marked pair.
fn leads_to_marked(
    dfa: &DFA,
    marks: &Vec<Vec<bool>>,
    i: State,
    j: State,
    symbols: &Vec<Symbol>,
) -> (found: bool)
    requires
        dfa.wf(),
        dfa@.begin == 0,
        symbols@ == dfa@.table,
        square(marks@, dfa@.num_states as int),
        i < dfa@.num_states,
        j < dfa@.num_states,
    ensures
        found == !pair_closed(dfa@, marks@, i, j),
        found ==> exists|c: char| #[trigger]
            dfa@.has_char(c) && is_marked(marks@, dfa@.delta[(i, c)], dfa@.delta[(j, c)]),
{
    let mut k: usize = 0;
    while k < symbols.len()
        invariant
            k <= symbols@.len(),
            dfa.wf(),
            dfa@.begin == 0,
            symbols@ == dfa@.table,
            square(marks@, dfa@.num_states as int),
            i < dfa@.num_states,
            j < dfa@.num_states,
            forall|x: int|
                0 <= x < k ==> (#[trigger] symbols@[x] matches Symbol::Character(c) ==> !is_marked(
                    marks@,
                    dfa@.delta[(i, c)],
                    dfa@.delta[(j, c)],
                )),
        decreases symbols.len() - k,
    {
        match symbols[k] {
            Symbol::Epsilon => {},
            Symbol::Character(c) => {
                let next_of_first = dfa.transitions().next(i, c);
                let next_of_second = dfa.transitions().next(j, c);
                match (next_of_first, next_of_second) {
                    (Some(p), Some(q)) => {
                        let low = if p < q {
                            p
                        } else {
                            q
                        };
                        let high = if p < q {
                            q
                        } else {
                            p
                        };
                        if low != high && marks[low][high] {
                            assert(dfa@.has_char(c) && is_marked(
                                marks@,
                                dfa@.delta[(i, c)],
                                dfa@.delta[(j, c)],
                            ));
                            return true;
                        }
                    },
                    _ => {},
                }
            },
        }
        k += 1;
    }
    proof {
        assert forall|c: char| #[trigger] dfa@.has_char(c) implies !is_marked(
            marks@,
            dfa@.delta[(i, c)],
            dfa@.delta[(j, c)],
        ) by {
            let x = choose|x: int| 0 <= x < symbols@.len() && symbols@[x] == Symbol::Character(c);
            assert(symbols@[x] matches Symbol::Character(y) ==> !is_marked(
                marks@,
                dfa@.delta[(i, y)],
                dfa@.delta[(j, y)],
            ));
        }
    }
    false
}

/// Goes once through the pairs without a mark and marks those from which a
/// character leads to a marked pair. Says whether it marked any.
fn sweep(dfa: &DFA, marks: &mut Vec<Vec<bool>>, symbols: &Vec<Symbol>) -> (changed: bool)
    requires
        dfa.wf(),
        dfa@.begin == 0,
        symbols@ == dfa@.table,
        square(old(marks)@, dfa@.num_states as int),
        marks_sound(dfa@, old(marks)@),
        marks_cover_finals(dfa@, old(marks)@),
    ensures
        square(final(marks)@, dfa@.num_states as int),
        marks_sound(dfa@, final(marks)@),
        marks_cover_finals(dfa@, final(marks)@),
        !changed ==> marks_closed(dfa@, final(marks)@),
        changed ==> blanks(final(marks)@) < blanks(old(marks)@),
{
    let n = dfa.num_states();
    let mut changed = false;
    let mut i: usize = 0;
    while i < n
        invariant
            i <= n,
            n == dfa@.num_states,
            dfa.wf(),
            dfa@.begin == 0,
            symbols@ == dfa@.table,
            square(marks@, n as int),
            marks_sound(dfa@, marks@),
            marks_cover_finals(dfa@, marks@),
            blanks(marks@) <= blanks(old(marks)@),
            changed ==> blanks(marks@) < blanks(old(marks)@),
            !changed ==> forall|a: int, b: int|
                0 <= a < i && a < b < n && !(#[trigger] marks@[a]@[b]) ==> pair_closed(
                    dfa@,
                    marks@,
                    a as State,
                    b as State,
                ),
        decreases n - i,
    {
        let mut j: usize = i + 1;
        while j < n
            invariant
                i < j <= n,
                n == dfa@.num_states,
                dfa.wf(),
                dfa@.begin == 0,
                symbols@ == dfa@.table,
                square(marks@, n as int),
                marks_sound(dfa@, marks@),
                marks_cover_finals(dfa@, marks@),
                blanks(marks@) <= blanks(old(marks)@),
                changed ==> blanks(marks@) < blanks(old(marks)@),
                !changed ==> forall|a: int, b: int|
                    0 <= a < b < n && (a < i || (a == i && b < j)) && !(#[trigger] marks@[a]@[b])
                        ==> pair_closed(dfa@, marks@, a as State, b as State),
            decreases n - j,
        {
            if !marks[i][j] {
                if leads_to_marked(dfa, marks, i, j, symbols) {
                    let ghost before = marks@;
                    proof {
                        let c = choose|c: char| #[trigger]
                            dfa@.has_char(c) && is_marked(
                                before,
                                dfa@.delta[(i, c)],
                                dfa@.delta[(j, c)],
                            );
                        assert(dfa@.delta.contains_key((i, c)));
                        assert(dfa@.delta.contains_key((j, c)));
                        let p = dfa@.delta[(i, c)];
                        let q = dfa@.delta[(j, c)];
                        if !(p < q) {
                            lemma_distinguishable_symmetric(dfa@, q, p);
                        }
                        lemma_distinguishable_step(dfa@, i, j, c);
                    }
                    marks[i][j] = true;
                    changed = true;
                    proof {
                        lemma_mark_in_table(before, marks@, i as int, j as int);
                    }
                }
            }
            j += 1;
        }
        i += 1;
    }
    changed
}

/// Marks every pair of states that some word tells apart, and no other pair.
fn marked_pairs(dfa: &DFA) -> (marks: Vec<Vec<bool>>)
    requires
        dfa.wf(),
        dfa@.begin == 0,
    ensures
        square(marks@, dfa@.num_states as int),
        forall|p: State, q: State|
            p < dfa@.num_states && q < dfa@.num_states ==> (!is_marked(marks@, p, q)
                <==> #[trigger] dfa@.equivalent(p, q)),
{
    let symbols = dfa.symbol_table().symbols();
    let mut marks = initial_marks(dfa);
    loop
        invariant_except_break
            dfa.wf(),
            dfa@.begin == 0,
            symbols@ == dfa@.table,
            square(marks@, dfa@.num_states as int),
            marks_sound(dfa@, marks@),
            marks_cover_finals(dfa@, marks@),
        ensures
            square(marks@, dfa@.num_states as int),
            marks_sound(dfa@, marks@),
            marks_cover_finals(dfa@, marks@),
            marks_closed(dfa@, marks@),
            dfa.wf(),
            dfa@.begin == 0,
        decreases blanks(marks@),
    {
        let changed = sweep(dfa, &mut marks, &symbols);
        if !changed {
            break ;
        }
    }
    proof {
        lemma_marks_decide(dfa@, marks@);
    }
    marks
}

/// Joins the states that do the same into classes.
fn classes(dfa: &DFA, marks: &Vec<Vec<bool>>) -> (dsu: DSU)
    requires
        dfa.wf(),
        dfa@.begin == 0,
        square(marks@, dfa@.num_states as int),
        forall|p: State, q: State|
            p < dfa@.num_states && q < dfa@.num_states ==> (!is_marked(marks@, p, q)
                <==> #[trigger] dfa@.equivalent(p, q)),
    ensures
        dsu.wf(),
        reps_decide(dfa@, dsu@),
{
    let n = dfa.num_states();
    let mut dsu = DSU::new(n);
    let mut i: usize = 0;
    while i < n
        invariant
            i <= n,
            n == dfa@.num_states,
            dfa.wf(),
            dfa@.begin == 0,
            square(marks@, n as int),
            forall|p: State, q: State|
                p < n && q < n ==> (!is_marked(marks@, p, q) <==> #[trigger] dfa@.equivalent(p, q)),
            dsu.wf(),
            dsu@.len() == n,
            forall|p: State, q: State|
                p < n && q < n && dsu@[p as int] == dsu@[q as int] ==> #[trigger] dfa@.equivalent(
                    p,
                    q,
                ),
            forall|a: int, b: int|
                0 <= a < i && a < b < n && !(#[trigger] marks@[a]@[b]) ==> dsu@[a] == dsu@[b],
        decreases n - i,
    {
        let mut j: usize = i + 1;
        while j < n
            invariant
                i < j <= n,
                n == dfa@.num_states,
                dfa.wf(),
                dfa@.begin == 0,
                square(marks@, n as int),
                forall|p: State, q: State|
                    p < n && q < n ==> (!is_marked(marks@, p, q) <==> #[trigger] dfa@.equivalent(
                        p,
                        q,
                    )),
                dsu.wf(),
                dsu@.len() == n,
                forall|p: State, q: State|
                    p < n && q < n && dsu@[p as int] == dsu@[q as int]
                        ==> #[trigger] dfa@.equivalent(p, q),
                forall|a: int, b: int|
                    0 <= a < b < n && (a < i || (a == i && b < j)) && !(#[trigger] marks@[a]@[b])
                        ==> dsu@[a] == dsu@[b],
            decreases n - j,
        {
            if !marks[i][j] {
                let ghost before = dsu@;
                proof {
                    dsu.lemma_representative(i as int);
                    dsu.lemma_representative(j as int);
                    assert(dfa@.equivalent(i, j));
                    assert(dfa@.equivalent(i, before[i as int]));
                    assert(dfa@.equivalent(j, before[j as int]));
                }
                dsu.union(i, j);
                proof {
                    let ri = before[i as int];
                    let rj = before[j as int];
                    assert forall|p: State, q: State|
                        p < n && q < n && dsu@[p as int] == dsu@[q as int] implies #[trigger] dfa@.equivalent(
                        p,
                        q,
                    ) by {
                        if !(before[p as int] == before[q as int]) {
                            // One of the two belonged to the class of `i`, the
                            // other to the class of `j`.
                            if before[p as int] == ri {
                                assert(dfa@.equivalent(p, ri));
                                assert(dfa@.equivalent(q, rj));
                            } else {
                                assert(dfa@.equivalent(p, rj));
                                assert(dfa@.equivalent(q, ri));
                            }
                        }
                    }
                }
            }
            j += 1;
        }
        i += 1;
    }
    proof {
        assert forall|p: State| p < n implies #[trigger] dsu@[p as int] <= p && dsu@[dsu@[p as int] as int]
            == dsu@[p as int] by {
            dsu.lemma_representative(p as int);
        }
    }
    dsu
}

/// The automaton whose transitions lead to the representatives of the states
/// that the transitions of `dfa` lead to.
fn quotient(dfa: &DFA, dsu: &DSU) -> (result: DFA)
    requires
        dfa.wf(),
        dfa@.begin == 0,
        dfa@.start == 0,
        dsu.wf(),
        reps_decide(dfa@, dsu@),
    ensures
        result.wf(),
        quotient_of(dfa@, dsu@, result@),
{
    let n = dfa.num_states();
    let symbols = dfa.symbol_table().symbols();
    let mut transition_function = DTransitionFunction::new();
    let mut i: usize = 0;
    while i < n
        invariant
            i <= n,
            n == dfa@.num_states,
            dfa.wf(),
            dfa@.begin == 0,
            dsu.wf(),
            reps_decide(dfa@, dsu@),
            symbols@ == dfa@.table,
            transition_function.wf(),
            forall|key: (State, char)| #[trigger]
                transition_function@.contains_key(key) <==> key.0 < i && dfa@.has_char(key.1),
            forall|key: (State, char)|
                transition_function@.contains_key(key) ==> #[trigger] transition_function@[key]
                    == dsu@[dfa@.delta[key] as int],
        decreases n - i,
    {
        let mut targets: Vec<State> = Vec::new();
        let mut k: usize = 0;
        while k < symbols.len()
            invariant
                k <= symbols@.len(),
                i < n,
                n == dfa@.num_states,
                dfa.wf(),
                dfa@.begin == 0,
                dsu.wf(),
                reps_decide(dfa@, dsu@),
                symbols@ == dfa@.table,
                targets@.len() == k,
                forall|x: int|
                    0 <= x < k ==> (#[trigger] symbols@[x] matches Symbol::Character(c)
                        ==> targets@[x] == dsu@[dfa@.delta[(i, c)] as int]),
            decreases symbols.len() - k,
        {
            let mut target: State = 0;
            match symbols[k] {
                Symbol::Epsilon => {},
                Symbol::Character(c) => {
                    match dfa.transitions().next(i, c) {
                        Some(next_state) => {
                            target = dsu.representative(next_state);
                        },
                        None => {},
                    }
                },
            }
            targets.push(target);
            k += 1;
        }
        let ghost before = transition_function@;
        transition_function.add_row(i, &symbols, &targets);
        proof {
            assert forall|key: (State, char)|
                transition_function@.contains_key(key) implies #[trigger] transition_function@[key]
                == dsu@[dfa@.delta[key] as int] by {
                if !(before.contains_key(key)) {
                    let x = choose|x: int|
                        0 <= x < symbols@.len() && symbols@[x] == Symbol::Character(key.1);
                    assert(symbols@[x] matches Symbol::Character(c) ==> transition_function@[(i, c)]
                        == targets@[x]);
                }
            }
        }
        i += 1;
    }
    let result = DFA::assemble(
        dfa.symbol_table().clone(),
        0,
        n - 1,
        0,
        copy_states(dfa.final_states()),
        transition_function,
    );
    proof {
        assert(result@.wf()) by {
            assert forall|s: State, c: char| #[trigger]
                result@.delta.contains_key((s, c)) implies result@.has_state(
                result@.delta[(s, c)],
            ) by {
                assert(dfa@.delta.contains_key((s, c)));
            }
        }
    }
    result
}

impl DFA {
    /// The smallest automaton with the language of this one: every state of
    /// it can be reached, and every two of its states are told apart by a word.
    pub fn minimized_dfa(self) -> (dfa: DFA)
        requires
            self.wf(),
        ensures
            dfa.wf(),
            dfa@.table == self@.table,
            dfa@.begin == 0,
            dfa@.start == 0,
            dfa@.same_language(self@),
            dfa@.minimal(),
            minimization_of(dfa@, self@),
    {
        let mut cleaned = self;
        cleaned.cleanup();
        let marks = marked_pairs(&cleaned);
        let dsu = classes(&cleaned, &marks);
        let mut result = quotient(&cleaned, &dsu);
        let ghost middle = result@;
        result.cleanup();
        proof {
            let order = choose|order: Seq<State>| renumbering(middle, result@, order);
            lemma_cleaned_quotient_is_minimal(cleaned@, dsu@, middle, result@, order);
        }
        result
    }
}

} // verus!
