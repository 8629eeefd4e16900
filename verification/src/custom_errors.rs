//! The errors that the automata report.

use vstd::prelude::*;
use vstd::string::*;

verus! {

/// What can go wrong with a deterministic automaton.
#[derive(Debug)]
pub enum DFAError {
    InvalidTransition(String),
    InvalidState(String),
    InvalidSymbol(String),
}

/// What can go wrong with a non-deterministic automaton.
#[derive(Debug)]
pub enum NFAError {
    ExistingTransition(String),
}

/// An error of either kind of automaton.
#[derive(Debug)]
pub enum AutomatonError {
    DFAError(DFAError),
    NFAError(NFAError),
}

impl DFAError {
    /// The text of the error: what kind it is, then its detail.
    pub open spec fn text(&self) -> Seq<char> {
        match self {
            DFAError::InvalidTransition(detail) => "Invalid transition: "@ + detail@,
            DFAError::InvalidState(detail) => "Invalid state: "@ + detail@,
            DFAError::InvalidSymbol(detail) => "Invalid symbol: "@ + detail@,
        }
    }

    pub fn to_string(&self) -> (text: String)
        ensures
            text@ == self.text(),
    {
        match self {
            DFAError::InvalidTransition(detail) => String::from_str("Invalid transition: ").concat(
                detail.as_str(),
            ),
            DFAError::InvalidState(detail) => String::from_str("Invalid state: ").concat(
                detail.as_str(),
            ),
            DFAError::InvalidSymbol(detail) => String::from_str("Invalid symbol: ").concat(
                detail.as_str(),
            ),
        }
    }
}

impl NFAError {
    /// The text of the error: what kind it is, then its detail.
    pub open spec fn text(&self) -> Seq<char> {
        match self {
            NFAError::ExistingTransition(detail) => "Already Existing Transition "@ + detail@,
        }
    }

    pub fn to_string(&self) -> (text: String)
        ensures
            text@ == self.text(),
    {
        match self {
            NFAError::ExistingTransition(detail) => String::from_str(
                "Already Existing Transition ",
            ).concat(detail.as_str()),
        }
    }
}

impl AutomatonError {
    /// The text of the error: which automaton it comes from, then the text of
    /// that automaton's error.
    pub open spec fn text(&self) -> Seq<char> {
        match self {
            AutomatonError::DFAError(inner) => "DFA Error "@ + inner.text(),
            AutomatonError::NFAError(inner) => "NFA Error "@ + inner.text(),
        }
    }

    pub fn to_string(&self) -> (text: String)
        ensures
            text@ == self.text(),
    {
        match self {
            AutomatonError::DFAError(inner) => {
                let rest = inner.to_string();
                String::from_str("DFA Error ").concat(rest.as_str())
            },
            AutomatonError::NFAError(inner) => {
                let rest = inner.to_string();
                String::from_str("NFA Error ").concat(rest.as_str())
            },
        }
    }
}

} // verus!
