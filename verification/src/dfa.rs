//! Deterministic finite automata.

use std::collections::HashSet;
use vstd::prelude::*;
use vstd::string::*;

use crate::custom_errors::DFAError;
use crate::d_transition_function::shifted_table;
use crate::dfa_model::{bisimulation, lemma_bisimilar, table_wf, DfaView, Verdict};
use crate::state::{copy_states, shifted_states, state_range, State};
use crate::symbol_table::{Symbol, SymbolTable};
use crate::transition_function::{BasicFunctionsForTransitions, DTransitionFunction};

verus! {

broadcast use vstd::std_specs::hash::group_hash_axioms;

/// The word that a byte string stands for: one character for every byte.
pub open spec fn code_units(bytes: Seq<u8>) -> Seq<char> {
    Seq::new(bytes.len(), |i: int| bytes[i] as char)
}

/// The text that tells of a transition that is missing from `state` on `c`.
pub uninterp spec fn missing_transition_text(state: State, c: char) -> Seq<char>;

/// Formats, with `format!`, the detail of the error for a transition that is
/// missing: the state by its number, the symbol as `Debug` shows it. The text
/// depends on the state and the character alone.
#[verifier::external_body]
fn describe_missing_transition(state: State, c: char) -> (text: String)
    ensures
        text@ == missing_transition_text(state, c),
{
    format!("Invalid Transition from {} on symbol {:?}", state, Symbol::Character(c))
}

/// The next state from `from` on `c` in the automaton that accepts `w` alone:
/// one state further if `c` is the character of `w` at `from`, else the
/// rejecting state.
pub open spec fn literal_target(w: Seq<char>, from: State, c: char) -> State {
    if from < w.len() && w[from as int] == c {
        (from + 1) as State
    } else {
        (w.len() + 1) as State
    }
}

/// The automaton that accepts the word `w` and nothing else: a chain of
/// states along `w`, the last of which accepts, and one more state that
/// rejects whatever follows.
pub open spec fn literal_view(table: Seq<Symbol>, w: Seq<char>) -> DfaView {
    DfaView {
        num_states: (w.len() + 2) as usize,
        table: table,
        states: state_range(0, (w.len() + 1) as State),
        begin: 0,
        end: (w.len() + 1) as State,
        start: 0,
        finals: set![w.len() as State],
        delta: Map::new(
            |key: (State, char)| key.0 <= w.len() + 1 && table.contains(Symbol::Character(key.1)),
            |key: (State, char)| literal_target(w, key.0, key.1),
        ),
    }
}

/// The automaton `d` with every state moved up by `increment`.
pub open spec fn shifted_view(d: DfaView, increment: usize) -> DfaView {
    DfaView {
        num_states: d.num_states,
        table: d.table,
        states: state_range((d.begin + increment) as State, (d.end + increment) as State),
        begin: (d.begin + increment) as State,
        end: (d.end + increment) as State,
        start: (d.start + increment) as State,
        finals: shifted_states(d.finals, increment),
        delta: shifted_table(d.delta, increment),
    }
}

/// Where the run on `w` from `s` stops if it cannot read all of `w`: the state
/// it is in and the character that it cannot read there.
pub open spec fn stuck_at(d: DfaView, s: State, w: Seq<char>) -> (State, char)
    decreases w.len(),
{
    if w.len() == 0 {
        (s, ' ')
    } else if !d.delta.contains_key((s, w[0])) {
        (s, w[0])
    } else {
        stuck_at(d, d.delta[(s, w[0])], w.drop_first())
    }
}

/// The states of `set`, which lie between `lo` and `hi`, moved up by `increment`.
pub fn shift_states(set: &HashSet<State>, lo: State, hi: State, increment: usize) -> (moved:
    HashSet<State>)
    requires
        lo <= hi,
        hi + increment <= usize::MAX,
        forall|s: State| set@.contains(s) ==> lo <= s <= hi,
    ensures
        moved@ == shifted_states(set@, increment),
{
    let mut moved: HashSet<State> = HashSet::new();
    let mut state = lo;
    loop
        invariant_except_break
            lo <= state <= hi,
            forall|t: State|
                moved@.contains(t) <==> t >= increment && t - increment < state && set@.contains(
                    (t - increment) as State,
                ),
        invariant
            lo <= hi,
            hi + increment <= usize::MAX,
            forall|s: State| set@.contains(s) ==> lo <= s <= hi,
        ensures
            forall|t: State|
                moved@.contains(t) <==> t >= increment && set@.contains((t - increment) as State),
        decreases hi - state,
    {
        if set.contains(&state) {
            moved.insert(state + increment);
        }
        if state == hi {
            break ;
        }
        state += 1;
    }
    moved
}

/// The states from `lo` to `hi`.
pub fn range_of_states(lo: State, hi: State) -> (all: HashSet<State>)
    requires
        lo <= hi,
    ensures
        all@ == state_range(lo, hi),
{
    let mut all: HashSet<State> = HashSet::new();
    let mut state = lo;
    loop
        invariant_except_break
            lo <= state <= hi,
            forall|t: State| all@.contains(t) <==> lo <= t < state,
        invariant
            lo <= hi,
        ensures
            forall|t: State| all@.contains(t) <==> lo <= t <= hi,
        decreases hi - state,
    {
        all.insert(state);
        if state == hi {
            break ;
        }
        state += 1;
    }
    all
}

/// A deterministic finite automaton over the characters of a symbol table.
#[derive(Debug)]
pub struct DFA {
    num_states: usize,
    symbol_table: SymbolTable,
    states: HashSet<State>,
    begin_state_num: State,
    end_state_num: State,
    start_state: State,
    final_states: HashSet<State>,
    transition_function: DTransitionFunction,
}

impl View for DFA {
    type V = DfaView;

    closed spec fn view(&self) -> DfaView {
        DfaView {
            num_states: self.num_states,
            table: self.symbol_table@,
            states: self.states@,
            begin: self.begin_state_num,
            end: self.end_state_num,
            start: self.start_state,
            finals: self.final_states@,
            delta: self.transition_function@,
        }
    }
}

impl Clone for DFA {
    fn clone(&self) -> (copy: DFA)
        ensures
            copy@ == self@,
            self.wf() ==> copy.wf(),
    {
        DFA {
            num_states: self.num_states,
            symbol_table: self.symbol_table.clone(),
            states: copy_states(&self.states),
            begin_state_num: self.begin_state_num,
            end_state_num: self.end_state_num,
            start_state: self.start_state,
            final_states: copy_states(&self.final_states),
            transition_function: self.transition_function.clone(),
        }
    }
}

impl DFA {
    /// The automaton is well formed, and so is the table of its transitions.
    pub open spec fn wf(&self) -> bool {
        self@.wf() && self.table_is_wf()
    }

    /// The table of the transitions is well formed.
    pub closed spec fn table_is_wf(&self) -> bool {
        self.transition_function.wf()
    }

    /// Puts an automaton together from its parts.
    pub fn assemble(
        symbol_table: SymbolTable,
        begin: State,
        end: State,
        start: State,
        final_states: HashSet<State>,
        transition_function: DTransitionFunction,
    ) -> (dfa: DFA)
        requires
            begin <= end,
            end - begin < usize::MAX,
            transition_function.wf(),
        ensures
            dfa@ == (DfaView {
                num_states: (end - begin + 1) as usize,
                table: symbol_table@,
                states: state_range(begin, end),
                begin: begin,
                end: end,
                start: start,
                finals: final_states@,
                delta: transition_function@,
            }),
            dfa.table_is_wf(),
    {
        DFA {
            num_states: end - begin + 1,
            symbol_table,
            states: range_of_states(begin, end),
            begin_state_num: begin,
            end_state_num: end,
            start_state: start,
            final_states,
            transition_function,
        }
    }

    pub fn num_states(&self) -> (n: usize)
        ensures
            n == self@.num_states,
    {
        self.num_states
    }

    pub fn symbol_table(&self) -> (table: &SymbolTable)
        ensures
            table@ == self@.table,
    {
        &self.symbol_table
    }

    pub fn begin_state_num(&self) -> (state: State)
        ensures
            state == self@.begin,
    {
        self.begin_state_num
    }

    pub fn end_state_num(&self) -> (state: State)
        ensures
            state == self@.end,
    {
        self.end_state_num
    }

    pub fn start_state(&self) -> (state: State)
        ensures
            state == self@.start,
    {
        self.start_state
    }

    pub fn final_states(&self) -> (set: &HashSet<State>)
        ensures
            set@ == self@.finals,
    {
        &self.final_states
    }

    pub fn states(&self) -> (set: &HashSet<State>)
        ensures
            set@ == self@.states,
    {
        &self.states
    }

    /// The table of the transitions.
    pub fn transitions(&self) -> (table: &DTransitionFunction)
        ensures
            table@ == self@.delta,
            self.table_is_wf() ==> table.wf(),
    {
        &self.transition_function
    }

    /// The next state from `state` on `symbol`, if there is one.
    pub fn get_transition(&self, state: &State, symbol: &Symbol) -> (next_state: Option<State>)
        ensures
            next_state == match *symbol {
                Symbol::Epsilon => None,
                Symbol::Character(c) => if self@.delta.contains_key((*state, c)) {
                    Some(self@.delta[(*state, c)])
                } else {
                    None
                },
            },
    {
        self.transition_function.get_transition(state, symbol)
    }

    /// The automaton that accepts the bytes of `s`, read as characters, and
    /// nothing else.
    pub fn from_string(s: &str, symbol_table: &SymbolTable) -> (dfa: DFA)
        requires
            symbol_table.wf(),
            s.spec_bytes().len() + 2 <= usize::MAX,
        ensures
            dfa.wf(),
            dfa@ == literal_view(symbol_table@, code_units(s.spec_bytes())),
    {
        let bytes = s.as_bytes();
        let n = bytes.len();
        let ghost w = code_units(bytes@);
        let ghost table = symbol_table@;
        let symbols = symbol_table.symbols();
        let mut transition_function = DTransitionFunction::new();
        let mut state: usize = 0;
        while state < n + 2
            invariant
                state <= n + 2,
                n + 2 <= usize::MAX,
                n == bytes@.len(),
                w == code_units(bytes@),
                symbols@ == table,
                table_wf(table),
                transition_function.wf(),
                forall|key: (State, char)| #[trigger]
                    transition_function@.contains_key(key) <==> key.0 < state && table.contains(
                        Symbol::Character(key.1),
                    ),
                forall|key: (State, char)|
                    transition_function@.contains_key(key) ==> #[trigger] transition_function@[key]
                        == literal_target(w, key.0, key.1),
            decreases n + 2 - state,
        {
            let mut targets: Vec<State> = Vec::new();
            let mut k: usize = 0;
            while k < symbols.len()
                invariant
                    k <= symbols.len(),
                    state < n + 2,
                    n + 2 <= usize::MAX,
                    n == bytes@.len(),
                    w == code_units(bytes@),
                    targets@.len() == k,
                    forall|j: int|
                        0 <= j < k ==> (#[trigger] symbols@[j] matches Symbol::Character(c)
                            ==> targets@[j] == literal_target(w, state, c)),
                decreases symbols.len() - k,
            {
                let target = match symbols[k] {
                    Symbol::Epsilon => n + 1,
                    Symbol::Character(c) => if state < n && bytes[state] as char == c {
                        state + 1
                    } else {
                        n + 1
                    },
                };
                targets.push(target);
                k += 1;
            }
            transition_function.add_row(state, &symbols, &targets);
            state += 1;
        }
        let mut final_states: HashSet<State> = HashSet::new();
        final_states.insert(n);
        let dfa = DFA::assemble(symbol_table.clone(), 0, n + 1, 0, final_states, transition_function);
        proof {
            assert(dfa@.delta =~= literal_view(table, w).delta);
        }
        dfa
    }

    /// Runs the automaton on the bytes of `s`, read as characters.
    pub fn run(&self, s: &str) -> (result: Result<bool, DFAError>)
        ensures
            match result {
                Ok(accepted) => self@.verdict(code_units(s.spec_bytes())) == if accepted {
                    Verdict::Accepted
                } else {
                    Verdict::Rejected
                },
                Err(DFAError::InvalidState(detail)) => self@.verdict(code_units(s.spec_bytes()))
                    == Verdict::InvalidState && detail@ == "{current_state}"@,
                Err(DFAError::InvalidTransition(detail)) => {
                    let stuck = stuck_at(self@, self@.start, code_units(s.spec_bytes()));
                    self@.verdict(code_units(s.spec_bytes())) == Verdict::InvalidTransition
                        && detail@ == missing_transition_text(stuck.0, stuck.1)
                },
                Err(DFAError::InvalidSymbol(_)) => false,
            },
    {
        let bytes = s.as_bytes();
        let ghost w = code_units(bytes@);
        let mut current = self.start_state;
        let mut i: usize = 0;
        assert(w.skip(0) =~= w);
        while i < bytes.len()
            invariant
                i <= bytes.len(),
                w == code_units(bytes@),
                bytes@ == s.spec_bytes(),
                self@.verdict(w) == self@.verdict_from(current, w.skip(i as int)),
                stuck_at(self@, self@.start, w) == stuck_at(self@, current, w.skip(i as int)),
            decreases bytes.len() - i,
        {
            let c = bytes[i] as char;
            proof {
                assert(w.skip(i as int).drop_first() =~= w.skip(i + 1));
            }
            if !self.transition_function.contains_state(&current) {
                return Err(DFAError::InvalidState("{current_state}".to_string()));
            }
            match self.transition_function.next(current, c) {
                None => {
                    return Err(DFAError::InvalidTransition(describe_missing_transition(current, c)));
                },
                Some(next_state) => {
                    current = next_state;
                },
            }
            i += 1;
        }
        Ok(self.final_states.contains(&current))
    }

    /// Moves every state up by `increment`. The language stays as it is.
    pub fn extend(&mut self, increment: usize)
        requires
            old(self).wf(),
            old(self)@.end + increment <= usize::MAX,
        ensures
            final(self).wf(),
            final(self)@ == shifted_view(old(self)@, increment),
            final(self)@.same_language(old(self)@),
    {
        let ghost before = self@;
        let begin = self.begin_state_num;
        let end = self.end_state_num;
        proof {
            assert forall|key: (State, char)| #[trigger]
                self.transition_function@.contains_key(key) implies key.0 + increment <= usize::MAX
                && self.transition_function@[key] + increment <= usize::MAX by {
                assert(before.delta.contains_key((key.0, key.1)));
            }
        }
        assert forall|s: State| self.final_states@.contains(s) implies begin <= s <= end by {
            assert(before.finals.contains(s));
        }
        let states = range_of_states(begin + increment, end + increment);
        let final_states = shift_states(&self.final_states, begin, end, increment);
        self.transition_function.extend(increment);
        self.states = states;
        self.final_states = final_states;
        self.begin_state_num = begin + increment;
        self.end_state_num = end + increment;
        self.start_state = self.start_state + increment;
        proof {
            lemma_shift_keeps_language(before, increment);
        }
    }
}

/// An automaton whose states have all moved up by the same number is well
/// formed as before and ends alike on every word, from every state.
pub proof fn lemma_shift_keeps_language(d: DfaView, increment: usize)
    requires
        d.wf(),
        d.end + increment <= usize::MAX,
    ensures
        shifted_view(d, increment).wf(),
        shifted_view(d, increment).same_language(d),
        forall|s: State, w: Seq<char>|
            d.has_state(s) ==> shifted_view(d, increment).verdict_from((s + increment) as State, w)
                == d.verdict_from(s, w),
{
    let moved = shifted_view(d, increment);
    let r = |s: State, t: State| d.has_state(s) && t == s + increment;
    assert(bisimulation(d, moved, r));
    assert forall|s: State, w: Seq<char>| d.has_state(s) implies moved.verdict_from(
        (s + increment) as State,
        w,
    ) == d.verdict_from(s, w) by {
        lemma_bisimilar(d, moved, r, s, (s + increment) as State, w);
    }
    assert(moved.wf());
}

} // verus!
