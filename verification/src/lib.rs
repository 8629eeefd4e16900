//! Finite automata for regular expressions, with proofs.
//!
//! A regular expression is read from its text ([`parsing`]), built into a
//! non-deterministic automaton ([`nfa`]), turned into a deterministic one by
//! the subset construction ([`dfa_subset`]), cleaned of the states that cannot
//! be reached ([`dfa_cleanup`]) and minimised ([`dfa_minimize`]). Deterministic
//! automata can be complemented and intersected ([`dfa_operations`]) and run on
//! words ([`dfa`]).
//!
//! What an automaton is and does is said in [`dfa_model`] and [`nfa_model`];
//! what holds of the constructions is proved next to them and in [`dfa_laws`],
//! [`nfa_laws`], the `thompson_*` modules and [`regex_language`].

pub mod custom_errors;
pub mod d_transition_function;
pub mod dfa;
pub mod dfa_cleanup;
pub mod dfa_laws;
pub mod dfa_minimize;
pub mod dfa_model;
pub mod dfa_operations;
pub mod dfa_subset;
pub mod disjoint_set_union;
pub mod finite_automaton;
pub mod n_transition_function;
pub mod nfa;
pub mod nfa_algebra;
pub mod nfa_laws;
pub mod nfa_model;
pub mod parsing;
pub mod powerset;
pub mod regex;
pub mod regex_language;
pub mod state;
pub mod symbol_table;
pub mod thompson_atom;
pub mod thompson_concat;
pub mod thompson_star;
pub mod thompson_union;
pub mod transition_function;
