//! The complement of a deterministic automaton and the intersection of two.

use std::collections::HashSet;
use vstd::prelude::*;

use crate::dfa::DFA;
use crate::dfa_model::{lemma_same_symbols, DfaView, Verdict};
use crate::state::State;
use crate::symbol_table::Symbol;
use crate::transition_function::{BasicFunctionsForTransitions, DTransitionFunction};

verus! {

broadcast use vstd::std_specs::hash::group_hash_axioms;

/// Acceptance for rejection and rejection for acceptance; a failure stays
/// what it is.
pub open spec fn opposite(verdict: Verdict) -> Verdict {
    match verdict {
        Verdict::Accepted => Verdict::Rejected,
        Verdict::Rejected => Verdict::Accepted,
        Verdict::InvalidState => Verdict::InvalidState,
        Verdict::InvalidTransition => Verdict::InvalidTransition,
    }
}

/// The automaton `d` with the states that accept and the states that do not
/// accept exchanged.
pub open spec fn flipped_view(d: DfaView) -> DfaView {
    DfaView {
        num_states: d.num_states,
        table: d.table,
        states: d.states,
        begin: d.begin,
        end: d.end,
        start: d.start,
        finals: Set::new(|s: State| d.has_state(s) && !d.finals.contains(s)),
        delta: d.delta,
    }
}

/// The flipped automaton is well formed, and its runs end in the opposite of
/// what the runs of the automaton end in.
pub proof fn lemma_flipped_run(d: DfaView, s: State, w: Seq<char>)
    requires
        d.wf(),
        d.has_state(s),
    ensures
        flipped_view(d).wf(),
        flipped_view(d).verdict_from(s, w) == opposite(d.verdict_from(s, w)),
    decreases w.len(),
{
    let f = flipped_view(d);
    assert(f.leaves(s) == d.leaves(s));
    if w.len() > 0 && d.delta.contains_key((s, w[0])) {
        lemma_flipped_run(d, d.delta[(s, w[0])], w.drop_first());
    }
}

/// Every state of `d` stands for a pair of a state of `a` and a state of `b`:
/// the start state for the pair of the start states, an accepting state for a
/// pair of accepting states, and a transition leads to the state that stands
/// for the pair of the states that the transitions of `a` and `b` lead to.
pub open spec fn product_automaton(a: DfaView, b: DfaView, d: DfaView, pairs: Seq<(State, State)>) -> bool {
    &&& d.table == a.table
    &&& d.begin == 0
    &&& d.start == 0
    &&& d.end + 1 == pairs.len()
    &&& pairs[0] == (a.start, b.start)
    &&& forall|i: int|
        0 <= i < pairs.len() ==> a.has_state((#[trigger] pairs[i]).0) && b.has_state(pairs[i].1)
    &&& forall|i: int|
        0 <= i < pairs.len() ==> d.finals.contains(i as State) == (a.finals.contains(
            (#[trigger] pairs[i]).0,
        ) && b.finals.contains(pairs[i].1))
    &&& forall|i: int, c: char|
        0 <= i < pairs.len() && d.has_char(c) ==> (#[trigger] d.delta[(i as State, c)])
            < pairs.len() && pairs[d.delta[(i as State, c)] as int] == (
            a.delta[(pairs[i].0, c)],
            b.delta[(pairs[i].1, c)],
        )
}

/// Whether the pair of `p` and `q` comes before the pair of the start states
/// when the pairs are put in the order of their first and then of their
/// second state.
pub open spec fn before_start(a: DfaView, b: DfaView, p: State, q: State) -> bool {
    p < a.start || (p == a.start && q < b.start)
}

/// The number of the pair of `p` and `q`: 0 for the pair of the start states;
/// for the others their place in the order of the first and then of the second
/// state, moved up by one for those that come before the pair of the start
/// states.
pub open spec fn pair_number(a: DfaView, b: DfaView, p: State, q: State) -> int {
    let place = (p - a.begin) * b.num_states + (q - b.begin);
    if p == a.start && q == b.start {
        0
    } else if before_start(a, b, p, q) {
        place + 1
    } else {
        place
    }
}

/// Every pair of a state of `a` and a state of `b` stands in the list once,
/// at its number.
pub open spec fn numbered_by_rows(a: DfaView, b: DfaView, pairs: Seq<(State, State)>) -> bool {
    &&& pairs.len() == a.num_states * b.num_states
    &&& forall|p: State, q: State|
        a.has_state(p) && b.has_state(q) ==> 0 <= #[trigger] pair_number(a, b, p, q) < pairs.len()
            && pairs[pair_number(a, b, p, q)] == (p, q)
}

/// How many pairs are numbered when the rows before `i` are done and, of the
/// row `i`, the places before `j`: one more while the pair of the start states
/// has not been met, since its number was given in advance.
pub open spec fn pairs_so_far(a: DfaView, b: DfaView, i: int, j: int) -> int {
    let met = a.start - a.begin < i || (a.start - a.begin == i && b.start - b.begin < j);
    i * b.num_states + j + if met {
        0int
    } else {
        1int
    }
}

/// From the state that stands for a pair, the product accepts the words that
/// both automata accept from the states of the pair.
pub proof fn lemma_product_run(
    a: DfaView,
    b: DfaView,
    d: DfaView,
    pairs: Seq<(State, State)>,
    i: State,
    w: Seq<char>,
)
    requires
        a.wf(),
        b.wf(),
        d.wf(),
        a.table.to_set() == b.table.to_set(),
        product_automaton(a, b, d, pairs),
        i < pairs.len(),
    ensures
        d.accepts_from(i, w) == (a.accepts_from(pairs[i as int].0, w) && b.accepts_from(
            pairs[i as int].1,
            w,
        )),
    decreases w.len(),
{
    let p = pairs[i as int].0;
    let q = pairs[i as int].1;
    if w.len() > 0 {
        let c = w[0];
        lemma_same_symbols(a.table, b.table, Symbol::Character(c));
        if d.has_char(c) {
            assert(d.delta.contains_key((i, c)));
            assert(a.delta.contains_key((p, c)));
            assert(b.delta.contains_key((q, c)));
            lemma_product_run(a, b, d, pairs, d.delta[(i, c)], w.drop_first());
        }
    }
}

/// A table of `rows` rows of `columns` zeros.
fn zeros(rows: usize, columns: usize) -> (table: Vec<Vec<State>>)
    ensures
        table@.len() == rows,
        forall|i: int| 0 <= i < rows ==> (#[trigger] table@[i])@.len() == columns,
{
    let mut table: Vec<Vec<State>> = Vec::new();
    let mut i: usize = 0;
    while i < rows
        invariant
            i <= rows,
            table@.len() == i,
            forall|a: int| 0 <= a < i ==> (#[trigger] table@[a])@.len() == columns,
        decreases rows - i,
    {
        let mut row: Vec<State> = Vec::new();
        let mut j: usize = 0;
        while j < columns
            invariant
                j <= columns,
                row@.len() == j,
            decreases columns - j,
        {
            row.push(0);
            j += 1;
        }
        table.push(row);
        i += 1;
    }
    table
}

impl DFA {
    /// The smallest automaton that accepts the words that this one rejects.
    pub fn complement(&self) -> (dfa: DFA)
        requires
            self.wf(),
        ensures
            dfa.wf(),
            dfa@.table == self@.table,
            dfa@.begin == 0,
            dfa@.start == 0,
            dfa@.minimal(),
            forall|w: Seq<char>| dfa@.verdict(w) == opposite(self@.verdict(w)),
            forall|w: Seq<char>| dfa@.accepts(w) == (self@.verdict(w) == Verdict::Rejected),
    {
        let begin = self.begin_state_num();
        let end = self.end_state_num();
        let mut final_states: HashSet<State> = HashSet::new();
        let mut state = begin;
        loop
            invariant_except_break
                begin <= state <= end,
                forall|s: State|
                    final_states@.contains(s) <==> begin <= s < state && !self@.finals.contains(s),
            invariant
                begin == self@.begin,
                end == self@.end,
                begin <= end,
            ensures
                forall|s: State|
                    final_states@.contains(s) <==> begin <= s <= end && !self@.finals.contains(s),
            decreases end - state,
        {
            if !self.final_states().contains(&state) {
                final_states.insert(state);
            }
            if state == end {
                break ;
            }
            state += 1;
        }
        let flipped = DFA::assemble(
            self.symbol_table().clone(),
            begin,
            end,
            self.start_state(),
            final_states,
            self.transitions().clone(),
        );
        proof {
            assert(flipped@.finals =~= flipped_view(self@).finals);
            lemma_flipped_run(self@, self@.start, Seq::<char>::empty());
        }
        let dfa = flipped.minimized_dfa();
        proof {
            assert forall|w: Seq<char>| dfa@.verdict(w) == opposite(self@.verdict(w)) by {
                lemma_flipped_run(self@, self@.start, w);
            }
            assert forall|w: Seq<char>|
                dfa@.accepts(w) == (self@.verdict(w) == Verdict::Rejected) by {
                assert(dfa@.verdict(w) == opposite(self@.verdict(w)));
            }
        }
        dfa
    }

    /// The automaton whose states stand for the pairs of a state of `self` and
    /// a state of `other`: state 0 for the pair of the start states, and
    /// then the other pairs in the order of their first and then of their
    /// second state.
    pub fn product(&self, other: &DFA) -> (dfa: DFA)
        requires
            self.wf(),
            other.wf(),
            self@.table.to_set() == other@.table.to_set(),
        ensures
            dfa.wf(),
            dfa@.num_states == self@.num_states * other@.num_states,
            exists|pairs: Seq<(State, State)>|
                product_automaton(self@, other@, dfa@, pairs) && numbered_by_rows(
                    self@,
                    other@,
                    pairs,
                ),
            forall|w: Seq<char>| dfa@.accepts(w) == (self@.accepts(w) && other@.accepts(w)),
    {
        let symbols = self.symbol_table().symbols();
        let x = self.num_states();
        let y = other.num_states();
        let begin_of_first = self.begin_state_num();
        let begin_of_second = other.begin_state_num();
        let start_of_first = self.start_state();
        let start_of_second = other.start_state();
        // The number of every pair, and the pair of every number.
        let mut numbers = zeros(x, y);
        let mut pairs: Vec<(State, State)> = Vec::new();
        pairs.push((start_of_first, start_of_second));
        let mut i: usize = 0;
        while i < x
            invariant
                self.wf(),
                other.wf(),
                x == self@.num_states,
                y == other@.num_states,
                begin_of_first == self@.begin,
                begin_of_second == other@.begin,
                start_of_first == self@.start,
                start_of_second == other@.start,
                i <= x,
                numbers@.len() == x,
                forall|a: int| 0 <= a < x ==> (#[trigger] numbers@[a])@.len() == y,
                pairs@.len() >= 1,
                pairs@[0] == (start_of_first, start_of_second),
                forall|n: int|
                    0 <= n < pairs@.len() ==> self@.has_state((#[trigger] pairs@[n]).0)
                        && other@.has_state(pairs@[n].1),
                forall|a: int, b: int|
                    0 <= a < i && 0 <= b < y ==> (#[trigger] numbers@[a]@[b]) < pairs@.len()
                        && pairs@[numbers@[a]@[b] as int] == (
                        (begin_of_first + a) as State,
                        (begin_of_second + b) as State,
                    ) && numbers@[a]@[b] == pair_number(
                        self@,
                        other@,
                        (begin_of_first + a) as State,
                        (begin_of_second + b) as State,
                    ),
                pairs@.len() == pairs_so_far(self@, other@, i as int, 0),
            decreases x - i,
        {
            let mut j: usize = 0;
            while j < y
                invariant
                    self.wf(),
                    other.wf(),
                    x == self@.num_states,
                    y == other@.num_states,
                    begin_of_first == self@.begin,
                    begin_of_second == other@.begin,
                    start_of_first == self@.start,
                    start_of_second == other@.start,
                    i < x,
                    j <= y,
                    numbers@.len() == x,
                    forall|a: int| 0 <= a < x ==> (#[trigger] numbers@[a])@.len() == y,
                    pairs@.len() >= 1,
                    pairs@[0] == (start_of_first, start_of_second),
                    forall|n: int|
                        0 <= n < pairs@.len() ==> self@.has_state((#[trigger] pairs@[n]).0)
                            && other@.has_state(pairs@[n].1),
                    forall|a: int, b: int|
                        0 <= a < x && 0 <= b < y && (a < i || (a == i && b < j)) ==> (
                        #[trigger] numbers@[a]@[b]) < pairs@.len() && pairs@[numbers@[a]@[b] as int]
                            == ((begin_of_first + a) as State, (begin_of_second + b) as State)
                            && numbers@[a]@[b] == pair_number(
                            self@,
                            other@,
                            (begin_of_first + a) as State,
                            (begin_of_second + b) as State,
                        ),
                    pairs@.len() == pairs_so_far(self@, other@, i as int, j as int),
                decreases y - j,
            {
                let first_state = begin_of_first + i;
                let second_state = begin_of_second + j;
                let ghost pairs_before = pairs@;
                if first_state == start_of_first && second_state == start_of_second {
                    numbers[i][j] = 0;
                } else {
                    numbers[i][j] = pairs.len();
                    pairs.push((first_state, second_state));
                }
                proof {
                    assert forall|a: int, b: int|
                        0 <= a < x && 0 <= b < y && (a < i || (a == i && b < j + 1)) implies (
                    #[trigger] numbers@[a]@[b]) < pairs@.len() && pairs@[numbers@[a]@[b] as int]
                        == ((begin_of_first + a) as State, (begin_of_second + b) as State)
                        && numbers@[a]@[b] == pair_number(
                        self@,
                        other@,
                        (begin_of_first + a) as State,
                        (begin_of_second + b) as State,
                    ) by {
                        if a != i || b != j {
                            assert(pairs@[numbers@[a]@[b] as int]
                                == pairs_before[numbers@[a]@[b] as int]);
                        }
                    }
                }
                j += 1;
            }
            proof {
                assert((i + 1) * y == i * y + y) by (nonlinear_arith);
            }
            i += 1;
        }
        proof {
            assert forall|p: State, q: State|
                self@.has_state(p) && other@.has_state(q) implies 0 <= #[trigger] pair_number(
                self@,
                other@,
                p,
                q,
            ) < pairs@.len() && pairs@[pair_number(self@, other@, p, q)] == (p, q) by {
                let a = p - begin_of_first;
                let b = q - begin_of_second;
                assert(numbers@[a]@[b] == pair_number(
                    self@,
                    other@,
                    (begin_of_first + a) as State,
                    (begin_of_second + b) as State,
                ));
            }
        }
        // The transitions and the accepting states, pair by pair.
        let count = pairs.len();
        let mut transition_function = DTransitionFunction::new();
        let mut final_states: HashSet<State> = HashSet::new();
        let mut n: usize = 0;
        while n < count
            invariant
                self.wf(),
                other.wf(),
                self@.table.to_set() == other@.table.to_set(),
                symbols@ == self@.table,
                x == self@.num_states,
                y == other@.num_states,
                begin_of_first == self@.begin,
                begin_of_second == other@.begin,
                count == pairs@.len(),
                numbered_by_rows(self@, other@, pairs@),
                n <= count,
                numbers@.len() == x,
                forall|a: int| 0 <= a < x ==> (#[trigger] numbers@[a])@.len() == y,
                forall|k: int|
                    0 <= k < pairs@.len() ==> self@.has_state((#[trigger] pairs@[k]).0)
                        && other@.has_state(pairs@[k].1),
                forall|a: int, b: int|
                    0 <= a < x && 0 <= b < y ==> (#[trigger] numbers@[a]@[b]) < pairs@.len()
                        && pairs@[numbers@[a]@[b] as int] == (
                        (begin_of_first + a) as State,
                        (begin_of_second + b) as State,
                    ),
                transition_function.wf(),
                forall|key: (State, char)| #[trigger]
                    transition_function@.contains_key(key) <==> key.0 < n && self@.has_char(key.1),
                forall|key: (State, char)|
                    transition_function@.contains_key(key) ==> (
                    #[trigger] transition_function@[key]) < count
                        && pairs@[transition_function@[key] as int] == (
                        self@.delta[(pairs@[key.0 as int].0, key.1)],
                        other@.delta[(pairs@[key.0 as int].1, key.1)],
                    ),
                forall|s: State|
                    final_states@.contains(s) <==> s < n && self@.finals.contains(
                        pairs@[s as int].0,
                    ) && other@.finals.contains(pairs@[s as int].1),
            decreases count - n,
        {
            let (first_state, second_state) = pairs[n];
            let mut targets: Vec<State> = Vec::new();
            let mut k: usize = 0;
            while k < symbols.len()
                invariant
                    self.wf(),
                    other.wf(),
                    self@.table.to_set() == other@.table.to_set(),
                    symbols@ == self@.table,
                    x == self@.num_states,
                    y == other@.num_states,
                    begin_of_first == self@.begin,
                    begin_of_second == other@.begin,
                    count == pairs@.len(),
                    self@.has_state(first_state),
                    other@.has_state(second_state),
                    k <= symbols@.len(),
                    numbers@.len() == x,
                    forall|a: int| 0 <= a < x ==> (#[trigger] numbers@[a])@.len() == y,
                    forall|a: int, b: int|
                        0 <= a < x && 0 <= b < y ==> (#[trigger] numbers@[a]@[b]) < pairs@.len()
                            && pairs@[numbers@[a]@[b] as int] == (
                            (begin_of_first + a) as State,
                            (begin_of_second + b) as State,
                        ),
                    targets@.len() == k,
                    forall|z: int|
                        0 <= z < k ==> (#[trigger] symbols@[z] matches Symbol::Character(c)
                            ==> targets@[z] < count && pairs@[targets@[z] as int] == (
                            self@.delta[(first_state, c)],
                            other@.delta[(second_state, c)],
                        )),
                decreases symbols.len() - k,
            {
                let mut target: State = 0;
                match symbols[k] {
                    Symbol::Epsilon => {},
                    Symbol::Character(c) => {
                        proof {
                            lemma_same_symbols(self@.table, other@.table, Symbol::Character(c));
                        }
                        let next_pair = (
                            self.transitions().next(first_state, c),
                            other.transitions().next(second_state, c),
                        );
                        match next_pair {
                            (Some(p), Some(q)) => {
                                let a = p - begin_of_first;
                                let b = q - begin_of_second;
                                target = numbers[a][b];
                            },
                            _ => {},
                        }
                    },
                }
                targets.push(target);
                k += 1;
            }
            let ghost rows = transition_function@;
            transition_function.add_row(n, &symbols, &targets);
            if self.final_states().contains(&first_state) && other.final_states().contains(
                &second_state,
            ) {
                final_states.insert(n);
            }
            proof {
                assert forall|key: (State, char)|
                    transition_function@.contains_key(key) implies (
                #[trigger] transition_function@[key]) < count
                    && pairs@[transition_function@[key] as int] == (
                    self@.delta[(pairs@[key.0 as int].0, key.1)],
                    other@.delta[(pairs@[key.0 as int].1, key.1)],
                ) by {
                    if !(rows.contains_key(key)) {
                        let z = choose|z: int|
                            0 <= z < symbols@.len() && symbols@[z] == Symbol::Character(key.1);
                        assert(symbols@[z] matches Symbol::Character(c) ==> transition_function@[(
                            n,
                            c,
                        )] == targets@[z]);
                    }
                }
            }
            n += 1;
        }
        let dfa = DFA::assemble(
            self.symbol_table().clone(),
            0,
            count - 1,
            0,
            final_states,
            transition_function,
        );
        proof {
            assert(dfa@.wf());
            assert(product_automaton(self@, other@, dfa@, pairs@));
            assert forall|w: Seq<char>|
                dfa@.accepts(w) == (self@.accepts(w) && other@.accepts(w)) by {
                lemma_product_run(self@, other@, dfa@, pairs@, 0, w);
            }
        }
        dfa
    }

    /// The smallest automaton that accepts the words that both automata accept.
    pub fn intersection(&self, other: DFA) -> (dfa: DFA)
        requires
            self.wf(),
            other.wf(),
            self@.table.to_set() == other@.table.to_set(),
        ensures
            dfa.wf(),
            dfa@.table == self@.table,
            dfa@.begin == 0,
            dfa@.start == 0,
            dfa@.minimal(),
            forall|w: Seq<char>| dfa@.accepts(w) == (self@.accepts(w) && other@.accepts(w)),
    {
        let both = self.product(&other);
        let dfa = both.minimized_dfa();
        proof {
            assert forall|w: Seq<char>|
                dfa@.accepts(w) == (self@.accepts(w) && other@.accepts(w)) by {
                assert(dfa@.verdict(w) == both@.verdict(w));
            }
        }
        dfa
    }
}

} // verus!
