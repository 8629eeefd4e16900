//! What the two kinds of transition table have in common.

use vstd::prelude::*;

use crate::custom_errors::AutomatonError;
use crate::state::State;
use crate::symbol_table::Symbol;

pub use crate::d_transition_function::DTransitionFunction;
pub use crate::n_transition_function::NTransitionFunction;

verus! {

/// A transition table of either kind.
#[derive(Debug)]
pub enum TransitionFunction {
    DT(DTransitionFunction),
    NT(NTransitionFunction),
}

/// The operations that both kinds of transition table offer.
pub trait BasicFunctionsForTransitions: Sized {
    /// What the table keeps true of itself.
    spec fn wf(&self) -> bool;

    /// Whether every state that occurs in the table stays a state when it is
    /// moved up by `increment`.
    spec fn can_extend(&self, increment: usize) -> bool;

    /// A table without transitions.
    fn new() -> (table: Self)
        ensures
            table.wf(),
    ;

    /// Adds the transition from `state` on `symbol` to `next_state`.
    fn add_transition(&mut self, state: &State, symbol: &Symbol, next_state: &State) -> (result:
        Result<(), AutomatonError>)
        requires
            old(self).wf(),
        ensures
            final(self).wf(),
    ;

    /// Moves every state that occurs in the table up by `increment`.
    fn extend(&mut self, increment: usize)
        requires
            old(self).wf(),
            old(self).can_extend(increment),
        ensures
            final(self).wf(),
    ;
}

} // verus!
