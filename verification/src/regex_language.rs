//! The language of a regular expression, and that the automaton that is
//! built for the expression accepts it.

use vstd::prelude::*;

use crate::dfa_model::table_wf;
use crate::nfa::{
    concat_view, lemma_concat_view_wf, lemma_star_view_wf, lemma_union_view_wf, star_view,
};
use crate::nfa_model::NfaView;
use crate::parsing::{parsed, with_symbol};
use crate::regex::{lemma_parsed_render, render, symbols_of, thompson, with_symbols, Regex};
use crate::symbol_table::Symbol;
use crate::thompson_atom::lemma_atom_language;
use crate::thompson_concat::{can_chain, lemma_concat_language};
use crate::thompson_star::{can_star, lemma_star_language, repeated};
use crate::thompson_union::lemma_union_language;

verus! {

/// Whether `w` is a word of the language of the expression. A word of a star
/// is the empty word, or a word of the star followed by a word of its part
/// that is not empty.
pub open spec fn matches(r: Regex, w: Seq<char>) -> bool
    decreases r, w.len(),
{
    match r {
        Regex::Symbol(c) => w == seq![c],
        Regex::Concat(a, b) => exists|k: int|
            0 <= k <= w.len() && matches(*a, w.take(k)) && matches(*b, w.skip(k)),
        Regex::Union(a, b) => matches(*a, w) || matches(*b, w),
        Regex::Star(a) => w.len() == 0 || exists|k: int|
            0 <= k < w.len() && matches(r, w.take(k)) && matches(*a, w.skip(k)),
    }
}

/// Whether the table holds every character of the expression.
pub open spec fn symbols_in(r: Regex, table: Seq<Symbol>) -> bool
    decreases r,
{
    match r {
        Regex::Symbol(c) => table.contains(Symbol::Character(c)),
        Regex::Concat(a, b) => symbols_in(*a, table) && symbols_in(*b, table),
        Regex::Union(a, b) => symbols_in(*a, table) && symbols_in(*b, table),
        Regex::Star(a) => symbols_in(*a, table),
    }
}

/// How many states the automaton of the expression has.
pub open spec fn size_of(r: Regex) -> int
    decreases r,
{
    match r {
        Regex::Symbol(c) => 2,
        Regex::Concat(a, b) => size_of(*a) + size_of(*b) + 1,
        Regex::Union(a, b) => size_of(*a) + size_of(*b) + 2,
        Regex::Star(a) => size_of(*a) + 2,
    }
}

/// The automaton of an expression has at least two states, and no more than
/// the text of the expression has characters.
pub proof fn lemma_size_of(r: Regex)
    ensures
        2 <= size_of(r) <= render(r).len(),
    decreases r,
{
    match r {
        Regex::Symbol(c) => {},
        Regex::Concat(a, b) => {
            lemma_size_of(*a);
            lemma_size_of(*b);
        },
        Regex::Union(a, b) => {
            lemma_size_of(*a);
            lemma_size_of(*b);
        },
        Regex::Star(a) => {
            lemma_size_of(*a);
        },
    }
}

/// The automaton of a concatenation accepts the words of the concatenation,
/// if the automata of the parts accept the words of the parts.
proof fn lemma_thompson_concat(a: Regex, b: Regex, first: NfaView, second: NfaView, w: Seq<char>)
    requires
        can_chain(first, second),
        forall|u: Seq<char>| first.accepts(u) == matches(a, u),
        forall|u: Seq<char>| second.accepts(u) == matches(b, u),
    ensures
        concat_view(first, second).accepts(w) == matches(
            Regex::Concat(Box::new(a), Box::new(b)),
            w,
        ),
{
    lemma_concat_language(first, second, w);
}

/// The automaton of a star accepts the words of the star, if the automaton
/// of the part accepts the words of the part.
proof fn lemma_thompson_star(a: Regex, first: NfaView, w: Seq<char>)
    requires
        can_star(first),
        forall|u: Seq<char>| first.accepts(u) == matches(a, u),
    ensures
        star_view(first).accepts(w) == matches(Regex::Star(Box::new(a)), w),
    decreases w.len(),
{
    lemma_star_language(first, w);
    let whole = Regex::Star(Box::new(a));
    if w.len() > 0 {
        if repeated(first, w) {
            let k = choose|k: int|
                0 <= k < w.len() && repeated(first, w.take(k)) && first.accepts(w.skip(k));
            lemma_star_language(first, w.take(k));
            lemma_thompson_star(a, first, w.take(k));
        }
        if matches(whole, w) {
            let k = choose|k: int|
                0 <= k < w.len() && matches(whole, w.take(k)) && matches(a, w.skip(k));
            lemma_star_language(first, w.take(k));
            lemma_thompson_star(a, first, w.take(k));
        }
    }
}

/// The automaton of an expression is well formed, its states are numbered
/// from 0, and it accepts the words of the language of the expression.
pub proof fn lemma_thompson_language(r: Regex, table: Seq<Symbol>)
    requires
        table_wf(table),
        symbols_in(r, table),
        size_of(r) <= usize::MAX,
    ensures
        thompson(r, table).wf(),
        thompson(r, table).begin == 0,
        thompson(r, table).table == table,
        thompson(r, table).num_states == size_of(r),
        forall|w: Seq<char>| thompson(r, table).accepts(w) == matches(r, w),
    decreases r,
{
    let n = thompson(r, table);
    match r {
        Regex::Symbol(c) => {
            assert(n.wf());
            assert forall|w: Seq<char>| n.accepts(w) == matches(r, w) by {
                lemma_atom_language(c, table, w);

            }
        },
        Regex::Concat(a, b) => {
            lemma_size_of(*a);
            lemma_size_of(*b);
            lemma_thompson_language(*a, table);
            lemma_thompson_language(*b, table);
            let first = thompson(*a, table);
            let second = thompson(*b, table);
            lemma_concat_view_wf(first, second);
            assert forall|w: Seq<char>| n.accepts(w) == matches(r, w) by {
                lemma_thompson_concat(*a, *b, first, second, w);
            }
        },
        Regex::Union(a, b) => {
            lemma_size_of(*a);
            lemma_size_of(*b);
            lemma_thompson_language(*a, table);
            lemma_thompson_language(*b, table);
            let first = thompson(*a, table);
            let second = thompson(*b, table);
            lemma_union_view_wf(first, second);
            assert forall|w: Seq<char>| n.accepts(w) == matches(r, w) by {
                lemma_union_language(first, second, w);
                assert(first.accepts(w) == matches(*a, w));
                assert(second.accepts(w) == matches(*b, w));
            }
        },
        Regex::Star(a) => {
            lemma_size_of(*a);
            lemma_thompson_language(*a, table);
            let first = thompson(*a, table);
            lemma_star_view_wf(first);
            assert forall|w: Seq<char>| n.accepts(w) == matches(r, w) by {
                lemma_thompson_star(*a, first, w);
            }
        },
    }
}

/// A table that holds the characters of an expression still holds them when
/// it has grown.
proof fn lemma_symbols_stay(r: Regex, small: Seq<Symbol>, big: Seq<Symbol>)
    requires
        symbols_in(r, small),
        forall|s: Symbol| small.contains(s) ==> big.contains(s),
    ensures
        symbols_in(r, big),
    decreases r,
{
    match r {
        Regex::Symbol(c) => {},
        Regex::Concat(a, b) => {
            lemma_symbols_stay(*a, small, big);
            lemma_symbols_stay(*b, small, big);
        },
        Regex::Union(a, b) => {
            lemma_symbols_stay(*a, small, big);
            lemma_symbols_stay(*b, small, big);
        },
        Regex::Star(a) => {
            lemma_symbols_stay(*a, small, big);
        },
    }
}

/// A table to which the characters of an expression were added is a table
/// still, holds what it held, and holds the characters of the expression.
pub proof fn lemma_with_symbols(table: Seq<Symbol>, r: Regex)
    requires
        table_wf(table),
    ensures
        table_wf(with_symbols(table, r)),
        forall|s: Symbol| table.contains(s) ==> with_symbols(table, r).contains(s),
        symbols_in(r, with_symbols(table, r)),
    decreases r,
{
    match r {
        Regex::Symbol(c) => {
            let symbol = Symbol::Character(c);
            let grown = with_symbol(table, symbol);
            if !table.contains(symbol) {
                assert(grown[table.len() as int] == symbol);
                assert forall|s: Symbol| table.contains(s) implies grown.contains(s) by {
                    let k = choose|k: int| 0 <= k < table.len() && table[k] == s;
                    assert(grown[k] == s);
                }
            }
        },
        Regex::Concat(a, b) => {
            let middle = with_symbols(table, *a);
            lemma_with_symbols(table, *a);
            lemma_with_symbols(middle, *b);
            lemma_symbols_stay(*a, middle, with_symbols(middle, *b));
        },
        Regex::Union(a, b) => {
            let middle = with_symbols(table, *a);
            lemma_with_symbols(table, *a);
            lemma_with_symbols(middle, *b);
            lemma_symbols_stay(*a, middle, with_symbols(middle, *b));
        },
        Regex::Star(a) => {
            lemma_with_symbols(table, *a);
        },
    }
}

/// The text of an expression is read as an automaton that accepts the words
/// of the language of the expression, and no others.
pub proof fn lemma_text_means_language(r: Regex)
    requires
        render(r).len() <= usize::MAX,
    ensures
        parsed(render(r)) == Some(thompson(r, symbols_of(r))),
        thompson(r, symbols_of(r)).wf(),
        forall|w: Seq<char>| thompson(r, symbols_of(r)).accepts(w) == matches(r, w),
{
    lemma_parsed_render(r);
    lemma_size_of(r);
    let start = seq![Symbol::Epsilon];
    lemma_with_symbols(start, r);
    lemma_thompson_language(r, symbols_of(r));
}

} // verus!
