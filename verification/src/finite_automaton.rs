//! An automaton of either kind.

use vstd::prelude::*;

use crate::dfa::DFA;
use crate::nfa::NFA;

verus! {

/// A deterministic or a non-deterministic automaton.
#[derive(Debug)]
pub enum FA {
    DFA(DFA),
    NFA(NFA),
}

} // verus!
