//! The subset construction: from a non-deterministic automaton to a
//! deterministic one whose states stand for sets of states.

use std::collections::HashSet;
use vstd::prelude::*;

use crate::dfa::DFA;
use crate::dfa_model::DfaView;
use crate::n_transition_function::{lemma_moved_from_insert, moved_from};
use crate::nfa::NFA;
use crate::nfa_model::{lemma_closure_stays, lemma_moved_stays, lemma_run_of_nothing, NfaView};
use crate::powerset::{lemma_distinct_subsets_bounded, subsets_of};
use crate::state::{
    copy_states, lemma_state_range_finite, lemma_take_step, members, same_states, State,
};
use crate::symbol_table::Symbol;
use crate::transition_function::{BasicFunctionsForTransitions, DTransitionFunction};

verus! {

broadcast use vstd::std_specs::hash::group_hash_axioms;

/// What the sets of the list hold.
pub open spec fn views(subsets: Seq<HashSet<State>>) -> Seq<Set<State>> {
    Seq::new(subsets.len(), |i: int| subsets[i]@)
}

/// The state `i` of `d` stands for the set `subsets[i]` of states of `n`: the
/// start state for the states that `n` can be in at first, an accepting state
/// for a set that holds the accepting state of `n`, and a transition leads to
/// the state that stands for the states that `n` can get to.
pub open spec fn subset_automaton(n: NfaView, d: DfaView, subsets: Seq<Set<State>>) -> bool {
    &&& d.table == n.table
    &&& d.begin == 0
    &&& d.start == 0
    &&& d.end + 1 == subsets.len()
    &&& subsets[0] == n.initial()
    &&& forall|i: int|
        0 <= i < subsets.len() ==> d.finals.contains(i as State) == (#[trigger] subsets[i]).contains(
            n.accept,
        )
    &&& forall|i: int, c: char|
        0 <= i < subsets.len() && d.has_char(c) ==> (#[trigger] d.delta[(i as State, c)])
            < subsets.len() && subsets[d.delta[(i as State, c)] as int] == n.step(subsets[i], c)
}

/// From the state that stands for a set, the subset automaton accepts the
/// words that lead the other automaton from a state of the set to acceptance.
pub proof fn lemma_subset_run(
    n: NfaView,
    d: DfaView,
    subsets: Seq<Set<State>>,
    i: State,
    w: Seq<char>,
)
    requires
        n.wf(),
        d.wf(),
        subset_automaton(n, d, subsets),
        i < subsets.len(),
    ensures
        d.accepts_from(i, w) == n.run(subsets[i as int], w).contains(n.accept),
    decreases w.len(),
{
    if w.len() > 0 {
        let c = w[0];
        assert(d.has_state(i));
        if d.has_char(c) {
            lemma_subset_run(n, d, subsets, d.delta[(i, c)], w.drop_first());
        } else {
            lemma_moved_stays(n, subsets[i as int], c);
            lemma_run_of_nothing(n, w.drop_first());
        }
    }
}

/// The subset automaton accepts the words that the other automaton accepts.
pub proof fn lemma_subset_language(n: NfaView, d: DfaView, subsets: Seq<Set<State>>)
    requires
        n.wf(),
        d.wf(),
        subset_automaton(n, d, subsets),
    ensures
        forall|w: Seq<char>| d.accepts(w) == n.accepts(w),
{
    assert forall|w: Seq<char>| d.accepts(w) == n.accepts(w) by {
        lemma_subset_run(n, d, subsets, 0, w);
    }
}

/// The place of `set` in the list, if a set of the list holds the same states.
fn position_of(subsets: &Vec<HashSet<State>>, set: &HashSet<State>) -> (place: Option<usize>)
    ensures
        match place {
            Some(j) => j < subsets@.len() && subsets@[j as int]@ == set@,
            None => forall|j: int| 0 <= j < subsets@.len() ==> (#[trigger] subsets@[j])@ != set@,
        },
{
    let mut j: usize = 0;
    while j < subsets.len()
        invariant
            j <= subsets@.len(),
            forall|x: int| 0 <= x < j ==> (#[trigger] subsets@[x])@ != set@,
        decreases subsets.len() - j,
    {
        if same_states(&subsets[j], set) {
            return Some(j);
        }
        j += 1;
    }
    None
}

/// The states that the transitions on `symbol` lead to from the states of `set`.
fn move_on(nfa: &NFA, set: &HashSet<State>, symbol: &Symbol) -> (moved: HashSet<State>)
    ensures
        moved@ == moved_from(nfa@.edges, set@, *symbol),
{
    let list = members(set);
    let mut moved: HashSet<State> = HashSet::new();
    let mut i: usize = 0;
    proof {
        lemma_moved_from_insert(nfa@.edges, Set::empty(), 0, *symbol);
    }
    while i < list.len()
        invariant
            i <= list@.len(),
            list@.to_set() == set@,
            moved@ == moved_from(nfa@.edges, list@.take(i as int).to_set(), *symbol),
        decreases list.len() - i,
    {
        let state = list[i];
        let ghost before = moved@;
        match nfa.get_transition(&state, symbol) {
            Some(targets) => {
                let found = members(&targets);
                let mut k: usize = 0;
                assert(moved@ =~= before.union(found@.take(0).to_set()));
                while k < found.len()
                    invariant
                        k <= found@.len(),
                        moved@ == before.union(found@.take(k as int).to_set()),
                    decreases found.len() - k,
                {
                    moved.insert(found[k]);
                    proof {
                        lemma_take_step(found@, k as int);
                    }
                    k += 1;
                }
                assert(found@.take(found@.len() as int) =~= found@);
            },
            None => {},
        }
        proof {
            lemma_take_step(list@, i as int);
            lemma_moved_from_insert(nfa@.edges, list@.take(i as int).to_set(), state, *symbol);
        }
        i += 1;
    }
    assert(list@.take(list@.len() as int) =~= list@);
    moved
}

/// The sets of the list are sets of states of `n`, no two of them the same.
pub open spec fn distinct_subsets(n: NfaView, subsets: Seq<HashSet<State>>) -> bool {
    &&& forall|i: int| 0 <= i < subsets.len() ==> (#[trigger] subsets[i])@.subset_of(n.states)
    &&& forall|i: int, j: int|
        0 <= i < subsets.len() && 0 <= j < subsets.len() && i != j ==> (#[trigger] subsets[i])@
            != (#[trigger] subsets[j])@
}

/// There are no more such sets than there are sets of states of `n`.
proof fn lemma_subsets_bounded(n: NfaView, subsets: Seq<HashSet<State>>)
    requires
        n.wf(),
        distinct_subsets(n, subsets),
    ensures
        subsets.len() <= subsets_of(n.states).len(),
{
    lemma_state_range_finite(n.begin, n.end);
    let sets = views(subsets);
    lemma_distinct_subsets_bounded(sets, n.states);
}

impl DFA {
    /// The deterministic automaton whose states stand for the sets of states
    /// that `nfa` can be in, as far as they can be reached: state 0 for the
    /// states that `nfa` can be in at first, and then every set under the
    /// number at which a search that goes through the symbols by their
    /// numbers finds it.
    pub fn subset_construction(nfa: &NFA) -> (dfa: DFA)
        requires
            nfa.wf(),
        ensures
            dfa.wf(),
            exists|subsets: Seq<Set<State>>| subset_automaton(nfa@, dfa@, subsets),
            forall|w: Seq<char>| dfa@.accepts(w) == nfa@.accepts(w),
    {
        let symbols = nfa.symbol_table().symbols();
        let accept = nfa.final_state();
        let mut subsets: Vec<HashSet<State>> = Vec::new();
        subsets.push(nfa.epsilon_closure(&nfa.start_state()));
        let mut transition_function = DTransitionFunction::new();
        let mut final_states: HashSet<State> = HashSet::new();
        let mut next: usize = 0;
        proof {
            lemma_closure_stays(nfa@, set![nfa@.start]);
        }
        while next < subsets.len()
            invariant
                nfa.wf(),
                symbols@ == nfa@.table,
                accept == nfa@.accept,
                subsets@.len() >= 1,
                subsets@[0]@ == nfa@.initial(),
                distinct_subsets(nfa@, subsets@),
                next <= subsets@.len(),
                transition_function.wf(),
                forall|key: (State, char)| #[trigger]
                    transition_function@.contains_key(key) <==> key.0 < next
                        && nfa@.table.contains(Symbol::Character(key.1)),
                forall|key: (State, char)|
                    transition_function@.contains_key(key) ==> (
                    #[trigger] transition_function@[key]) < subsets@.len()
                        && subsets@[transition_function@[key] as int]@ == nfa@.step(
                        subsets@[key.0 as int]@,
                        key.1,
                    ),
                forall|s: State|
                    final_states@.contains(s) <==> s < next && subsets@[s as int]@.contains(accept),
            decreases subsets_of(nfa@.states).len() - next,
        {
            proof {
                lemma_subsets_bounded(nfa@, subsets@);
            }
            let current = copy_states(&subsets[next]);
            let mut targets: Vec<State> = Vec::new();
            let mut k: usize = 0;
            while k < symbols.len()
                invariant
                    nfa.wf(),
                    symbols@ == nfa@.table,
                    k <= symbols@.len(),
                    next < subsets@.len(),
                    current@ == subsets@[next as int]@,
                    subsets@[0]@ == nfa@.initial(),
                    distinct_subsets(nfa@, subsets@),
                    transition_function.wf(),
                    forall|key: (State, char)| #[trigger]
                        transition_function@.contains_key(key) <==> key.0 < next
                            && nfa@.table.contains(Symbol::Character(key.1)),
                    forall|key: (State, char)|
                        transition_function@.contains_key(key) ==> (
                        #[trigger] transition_function@[key]) < subsets@.len()
                            && subsets@[transition_function@[key] as int]@ == nfa@.step(
                            subsets@[key.0 as int]@,
                            key.1,
                        ),
                    forall|s: State|
                        final_states@.contains(s) <==> s < next && subsets@[s as int]@.contains(
                            accept,
                        ),
                    targets@.len() == k,
                    forall|x: int|
                        0 <= x < k ==> (#[trigger] symbols@[x] matches Symbol::Character(c)
                            ==> targets@[x] < subsets@.len() && subsets@[targets@[x] as int]@
                            == nfa@.step(current@, c)),
                decreases symbols.len() - k,
            {
                let symbol = symbols[k];
                let ghost before = subsets@;
                let mut target: State = 0;
                match symbol {
                    Symbol::Epsilon => {},
                    Symbol::Character(c) => {
                        let moved = move_on(nfa, &current, &symbol);
                        let closed = nfa.epsilon_closure_of_set_of_states(&moved);
                        proof {
                            lemma_moved_stays(nfa@, current@, c);
                        }
                        match position_of(&subsets, &closed) {
                            Some(place) => {
                                target = place;
                            },
                            None => {
                                target = subsets.len();
                                subsets.push(closed);
                            },
                        }
                    },
                }
                targets.push(target);
                proof {
                    assert forall|key: (State, char)|
                        transition_function@.contains_key(key) implies (
                    #[trigger] transition_function@[key]) < subsets@.len()
                        && subsets@[transition_function@[key] as int]@ == nfa@.step(
                        subsets@[key.0 as int]@,
                        key.1,
                    ) by {
                        assert(subsets@[transition_function@[key] as int]
                            == before[transition_function@[key] as int]);
                    }
                }
                k += 1;
            }
            let ghost rows = transition_function@;
            transition_function.add_row(next, &symbols, &targets);
            if current.contains(&accept) {
                final_states.insert(next);
            }
            proof {
                assert forall|key: (State, char)|
                    transition_function@.contains_key(key) implies (
                #[trigger] transition_function@[key]) < subsets@.len()
                    && subsets@[transition_function@[key] as int]@ == nfa@.step(
                    subsets@[key.0 as int]@,
                    key.1,
                ) by {
                    if !(rows.contains_key(key)) {
                        let x = choose|x: int|
                            0 <= x < symbols@.len() && symbols@[x] == Symbol::Character(key.1);
                        assert(symbols@[x] matches Symbol::Character(c) ==> transition_function@[(
                            next,
                            c,
                        )] == targets@[x]);
                    }
                }
            }
            next += 1;
        }
        let count = subsets.len();
        let dfa = DFA::assemble(
            nfa.symbol_table().clone(),
            0,
            count - 1,
            0,
            final_states,
            transition_function,
        );
        proof {
            let sets = views(subsets@);
            assert(dfa@.wf());
            assert(subset_automaton(nfa@, dfa@, sets));
            lemma_subset_language(nfa@, dfa@, sets);
        }
        dfa
    }

    /// The smallest deterministic automaton that accepts the words that `nfa` accepts.
    pub fn convert_to_dfa(nfa: NFA) -> (dfa: DFA)
        requires
            nfa.wf(),
        ensures
            dfa.wf(),
            dfa@.table == nfa@.table,
            dfa@.begin == 0,
            dfa@.start == 0,
            forall|w: Seq<char>| dfa@.accepts(w) == nfa@.accepts(w),
            dfa@.minimal(),
    {
        let found = DFA::subset_construction(&nfa);
        let dfa = found.minimized_dfa();
        proof {
            assert forall|w: Seq<char>| dfa@.accepts(w) == nfa@.accepts(w) by {
                assert(dfa@.verdict(w) == found@.verdict(w));
            }
        }
        dfa
    }
}

} // verus!
