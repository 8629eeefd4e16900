//! The transition function of a deterministic automaton.

use vstd::prelude::*;
use vstd::string::*;

use crate::custom_errors::{AutomatonError, DFAError};
use crate::state::State;
use crate::symbol_table::Symbol;
use crate::transition_function::BasicFunctionsForTransitions;

verus! {

/// A transition: from a state, on a character, to a state.
pub type Entry = (State, char, State);

/// The function that a list of entries stands for. Where two entries have the
/// same state and character, the later one counts.
pub open spec fn table_of(entries: Seq<Entry>) -> Map<(State, char), State>
    decreases entries.len(),
{
    if entries.len() == 0 {
        Map::empty()
    } else {
        table_of(entries.drop_last()).insert((entries.last().0, entries.last().1), entries.last().2)
    }
}

/// No two entries have the same state and character.
pub open spec fn distinct_keys(entries: Seq<Entry>) -> bool {
    forall|i: int, j: int|
        0 <= i < entries.len() && 0 <= j < entries.len() && i != j ==> !(entries[i].0
            == entries[j].0 && entries[i].1 == entries[j].1)
}

/// The function `table` with every state moved up by `increment`.
pub open spec fn shifted_table(table: Map<(State, char), State>, increment: usize) -> Map<
    (State, char),
    State,
> {
    Map::new(
        |key: (State, char)|
            key.0 >= increment && table.contains_key(((key.0 - increment) as State, key.1)),
        |key: (State, char)| (table[((key.0 - increment) as State, key.1)] + increment) as State,
    )
}

/// Whether an entry of the list stands at `key`.
pub open spec fn has_entry(entries: Seq<Entry>, key: (State, char)) -> bool {
    exists|i: int| 0 <= i < entries.len() && entries[i].0 == key.0 && entries[i].1 == key.1
}

/// The function is defined exactly where an entry stands.
pub proof fn lemma_table_keys(entries: Seq<Entry>)
    ensures
        forall|key: (State, char)| #[trigger]
            table_of(entries).contains_key(key) <==> has_entry(entries, key),
    decreases entries.len(),
{
    if entries.len() > 0 {
        let rest = entries.drop_last();
        let last = entries.len() - 1;
        lemma_table_keys(rest);
        assert forall|key: (State, char)| #[trigger]
            table_of(entries).contains_key(key) <==> has_entry(entries, key) by {
            if !(key == (entries[last].0, entries[last].1)) {
                assert(table_of(entries).contains_key(key) == table_of(rest).contains_key(key));
                if has_entry(entries, key) {
                    let i = choose|i: int|
                        0 <= i < entries.len() && entries[i].0 == key.0 && entries[i].1 == key.1;
                    assert(rest[i].0 == key.0 && rest[i].1 == key.1);
                }
            }
        }
    }
}

/// Where no two entries have the same state and character, every entry gives
/// the value of the function at its state and character.
pub proof fn lemma_table_values(entries: Seq<Entry>, i: int)
    requires
        distinct_keys(entries),
        0 <= i < entries.len(),
    ensures
        table_of(entries).contains_key((entries[i].0, entries[i].1)),
        table_of(entries)[(entries[i].0, entries[i].1)] == entries[i].2,
    decreases entries.len(),
{
    if i < entries.len() - 1 {
        let rest = entries.drop_last();
        lemma_table_values(rest, i);
    }
}

/// A partial function from a state and a character to a next state.
///
/// The view is that function. The empty word never stands in it.
#[derive(Debug)]
pub struct DTransitionFunction {
    entries: Vec<Entry>,
}

impl View for DTransitionFunction {
    type V = Map<(State, char), State>;

    closed spec fn view(&self) -> Map<(State, char), State> {
        table_of(self.entries@)
    }
}

impl DTransitionFunction {
    /// Whether a transition leaves `state`.
    pub open spec fn has_state(&self, state: State) -> bool {
        exists|c: char| self@.contains_key((state, c))
    }

    /// Whether a transition leaves `state`.
    pub fn contains_state(&self, state: &State) -> (found: bool)
        ensures
            found == self.has_state(*state),
    {
        proof {
            lemma_table_keys(self.entries@);
        }
        let mut i: usize = 0;
        while i < self.entries.len()
            invariant
                i <= self.entries.len(),
                forall|j: int| 0 <= j < i ==> self.entries@[j].0 != *state,
            decreases self.entries.len() - i,
        {
            if self.entries[i].0 == *state {
                proof {
                    lemma_table_keys(self.entries@);
                    assert(self@.contains_key((*state, self.entries@[i as int].1)));
                }
                return true;
            }
            i += 1;
        }
        false
    }

    /// The next state from `state` on the character `c`, if there is one.
    pub fn next(&self, state: State, c: char) -> (next_state: Option<State>)
        ensures
            next_state == if self@.contains_key((state, c)) {
                Some(self@[(state, c)])
            } else {
                None
            },
    {
        let mut i: usize = self.entries.len();
        assert(self.entries@.take(i as int) =~= self.entries@);
        while i > 0
            invariant
                i <= self.entries.len(),
                self@.contains_key((state, c)) == table_of(
                    self.entries@.take(i as int),
                ).contains_key((state, c)),
                self@.contains_key((state, c)) ==> self@[(state, c)] == table_of(
                    self.entries@.take(i as int),
                )[(state, c)],
            decreases i,
        {
            assert(self.entries@.take(i as int).drop_last() =~= self.entries@.take(i - 1));
            i -= 1;
            let entry = self.entries[i];
            if entry.0 == state && entry.1 == c {
                return Some(entry.2);
            }
        }
        None
    }

    /// Adds the transitions that leave `state`: on the character that stands
    /// under a number of the table, to the state that stands under that number
    /// in `targets`.
    pub fn add_row(&mut self, state: State, symbols: &Vec<Symbol>, targets: &Vec<State>)
        requires
            old(self).wf(),
            crate::dfa_model::table_wf(symbols@),
            targets@.len() == symbols@.len(),
            forall|c: char| !old(self)@.contains_key((state, c)),
        ensures
            final(self).wf(),
            forall|key: (State, char)| #[trigger]
                final(self)@.contains_key(key) <==> old(self)@.contains_key(key) || (key.0 == state
                    && symbols@.contains(Symbol::Character(key.1))),
            forall|key: (State, char)|
                old(self)@.contains_key(key) ==> #[trigger] final(self)@[key] == old(self)@[key],
            forall|k: int|
                0 <= k < symbols@.len() ==> (#[trigger] symbols@[k] matches Symbol::Character(c)
                    ==> final(self)@[(state, c)] == targets@[k]),
    {
        let mut k: usize = 0;
        while k < symbols.len()
            invariant
                k <= symbols.len(),
                self.wf(),
                crate::dfa_model::table_wf(symbols@),
                targets@.len() == symbols@.len(),
                forall|c: char| !old(self)@.contains_key((state, c)),
                forall|key: (State, char)| #[trigger]
                    self@.contains_key(key) <==> old(self)@.contains_key(key) || (key.0 == state
                        && exists|j: int| 0 <= j < k && symbols@[j] == Symbol::Character(key.1)),
                forall|key: (State, char)|
                    old(self)@.contains_key(key) ==> #[trigger] self@[key] == old(self)@[key],
                forall|j: int|
                    0 <= j < k ==> (#[trigger] symbols@[j] matches Symbol::Character(c) ==> self@[(
                        state,
                        c,
                    )] == targets@[j]),
            decreases symbols.len() - k,
        {
            let symbol = symbols[k];
            match symbol {
                Symbol::Epsilon => {},
                Symbol::Character(c) => {
                    let _ = self.add_transition(&state, &symbol, &targets[k]);
                },
            }
            k += 1;
        }
    }

    /// Whether a transition leaves `state` on `symbol`.
    pub fn is_valid_transition(&self, state: &State, symbol: &Symbol) -> (valid: bool)
        ensures
            valid == (*symbol matches Symbol::Character(c) && self@.contains_key((*state, c))),
    {
        match *symbol {
            Symbol::Epsilon => false,
            Symbol::Character(c) => self.next(*state, c).is_some(),
        }
    }

    /// The next state from `state` on `symbol`, if there is one.
    pub fn get_transition(&self, state: &State, symbol: &Symbol) -> (next_state: Option<State>)
        ensures
            next_state == match *symbol {
                Symbol::Epsilon => None,
                Symbol::Character(c) => if self@.contains_key((*state, c)) {
                    Some(self@[(*state, c)])
                } else {
                    None
                },
            },
    {
        match *symbol {
            Symbol::Epsilon => None,
            Symbol::Character(c) => self.next(*state, c),
        }
    }
}

impl Clone for DTransitionFunction {
    fn clone(&self) -> (copy: DTransitionFunction)
        ensures
            copy@ == self@,
            self.wf() ==> copy.wf(),
    {
        let mut entries: Vec<Entry> = Vec::new();
        let mut i: usize = 0;
        while i < self.entries.len()
            invariant
                i <= self.entries.len(),
                entries@ == self.entries@.take(i as int),
            decreases self.entries.len() - i,
        {
            entries.push(self.entries[i]);
            assert(self.entries@.take(i + 1) =~= self.entries@.take(i as int).push(
                self.entries@[i as int],
            ));
            i += 1;
        }
        assert(self.entries@.take(self.entries@.len() as int) =~= self.entries@);
        DTransitionFunction { entries }
    }
}

impl BasicFunctionsForTransitions for DTransitionFunction {
    closed spec fn wf(&self) -> bool {
        distinct_keys(self.entries@)
    }

    open spec fn can_extend(&self, increment: usize) -> bool {
        forall|key: (State, char)| #[trigger]
            self@.contains_key(key) ==> key.0 + increment <= usize::MAX && self@[key] + increment
                <= usize::MAX
    }

    fn new() -> (table: Self)
        ensures
            table@ == Map::<(State, char), State>::empty(),
    {
        DTransitionFunction { entries: Vec::new() }
    }

    /// Adds a transition. The empty word is refused, and so is a second
    /// transition from the same state on the same character; the table then
    /// stays as it is.
    fn add_transition(&mut self, state: &State, symbol: &Symbol, next_state: &State) -> (result:
        Result<(), AutomatonError>)
        ensures
            match *symbol {
                Symbol::Epsilon => final(self)@ == old(self)@ && (result matches Err(
                    AutomatonError::DFAError(DFAError::InvalidTransition(detail)),
                ) && detail@ == "Epsilon should not be present in DFA Transitions"@),
                Symbol::Character(c) => if old(self)@.contains_key((*state, c)) {
                    final(self)@ == old(self)@ && (result matches Err(
                        AutomatonError::DFAError(DFAError::InvalidTransition(detail)),
                    ) && detail@ == "Adding more than one state for the same transition for DFA"@)
                } else {
                    final(self)@ == old(self)@.insert((*state, c), *next_state) && result is Ok
                },
            },
    {
        match *symbol {
            Symbol::Epsilon => Err(
                AutomatonError::DFAError(
                    DFAError::InvalidTransition(
                        "Epsilon should not be present in DFA Transitions".to_string(),
                    ),
                ),
            ),
            Symbol::Character(c) => {
                if self.next(*state, c).is_some() {
                    return Err(
                        AutomatonError::DFAError(
                            DFAError::InvalidTransition(
                                "Adding more than one state for the same transition for DFA".to_string(),
                            ),
                        ),
                    );
                }
                proof {
                    lemma_table_keys(self.entries@);
                }
                let ghost before = self.entries@;
                self.entries.push((*state, c, *next_state));
                assert(self.entries@.drop_last() =~= before);
                Ok(())
            },
        }
    }

    /// Moves every state up by `increment`.
    fn extend(&mut self, increment: usize)
        ensures
            final(self)@ == shifted_table(old(self)@, increment),
    {
        let mut shifted: Vec<Entry> = Vec::new();
        let mut i: usize = 0;
        while i < self.entries.len()
            invariant
                i <= self.entries.len(),
                self.can_extend(increment),
                distinct_keys(self.entries@),
                shifted@.len() == i,
                forall|j: int|
                    0 <= j < i ==> shifted@[j] == (
                        (self.entries@[j].0 + increment) as State,
                        self.entries@[j].1,
                        (self.entries@[j].2 + increment) as State,
                    ),
                forall|j: int| 0 <= j < i ==> self.entries@[j].0 + increment <= usize::MAX,
                table_of(shifted@) == shifted_table(
                    table_of(self.entries@.take(i as int)),
                    increment,
                ),
            decreases self.entries.len() - i,
        {
            let entry = self.entries[i];
            proof {
                lemma_table_values(self.entries@, i as int);
                assert(self@.contains_key((entry.0, entry.1)));
            }
            let ghost before = shifted@;
            shifted.push((entry.0 + increment, entry.1, entry.2 + increment));
            proof {
                assert(shifted@.drop_last() =~= before);
                assert(self.entries@.take(i + 1).drop_last() =~= self.entries@.take(i as int));
                assert(table_of(shifted@) =~= shifted_table(
                    table_of(self.entries@.take(i + 1)),
                    increment,
                ));
            }
            i += 1;
        }
        proof {
            assert(self.entries@.take(self.entries@.len() as int) =~= self.entries@);
        }
        self.entries = shifted;
    }
}

} // verus!
