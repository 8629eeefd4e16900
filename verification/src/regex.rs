//! Regular expressions, the text that stands for them, and the automaton
//! that reading the text builds.

use vstd::prelude::*;

use crate::nfa::{atom_view, concat_view, star_view, union_view};
use crate::nfa_model::NfaView;
use crate::parsing::{
    closed, concat_at, parse_from, parsed, star_at, table_from, table_of, union_at, with_symbol,
    word_at, Operator, Token,
};
use crate::symbol_table::Symbol;

verus! {

/// A regular expression.
#[derive(Debug)]
pub enum Regex {
    /// The word of the one character.
    Symbol(char),
    /// A word of the first followed by a word of the second.
    Concat(Box<Regex>, Box<Regex>),
    /// A word of the first or a word of the second.
    Union(Box<Regex>, Box<Regex>),
    /// Any number of words of the expression, one after the other.
    Star(Box<Regex>),
}

/// The text that stands for the expression.
pub open spec fn render(r: Regex) -> Seq<char>
    decreases r,
{
    match r {
        Regex::Symbol(c) => seq!['s', 'y', 'm', 'b', 'o', 'l', '(', c, ')'],
        Regex::Concat(a, b) => seq!['c', 'o', 'n', 'c', 'a', 't', '('] + render(*a) + seq![',']
            + render(*b) + seq![')'],
        Regex::Union(a, b) => seq!['u', 'n', 'i', 'o', 'n', '('] + render(*a) + seq![','] + render(
            *b,
        ) + seq![')'],
        Regex::Star(a) => seq!['s', 't', 'a', 'r', '('] + render(*a) + seq![')'],
    }
}

/// The automaton that is built for the expression from the automata of its
/// parts: for a symbol the automaton of its word, for the others what the
/// construction of their name makes of their parts.
pub open spec fn thompson(r: Regex, table: Seq<Symbol>) -> NfaView
    decreases r,
{
    match r {
        Regex::Symbol(c) => atom_view(Symbol::Character(c), table),
        Regex::Concat(a, b) => concat_view(thompson(*a, table), thompson(*b, table)),
        Regex::Union(a, b) => union_view(thompson(*a, table), thompson(*b, table)),
        Regex::Star(a) => star_view(thompson(*a, table)),
    }
}

/// The table with the characters of the expression added, in the order in
/// which they occur in it.
pub open spec fn with_symbols(table: Seq<Symbol>, r: Regex) -> Seq<Symbol>
    decreases r,
{
    match r {
        Regex::Symbol(c) => with_symbol(table, Symbol::Character(c)),
        Regex::Concat(a, b) => with_symbols(with_symbols(table, *a), *b),
        Regex::Union(a, b) => with_symbols(with_symbols(table, *a), *b),
        Regex::Star(a) => with_symbols(table, *a),
    }
}

/// The table of the expression: the empty word and the characters of the expression.
pub open spec fn symbols_of(r: Regex) -> Seq<Symbol> {
    with_symbols(seq![Symbol::Epsilon], r)
}

/// Whether the text of `r` stands in `w` at `i`.
#[verifier::opaque]
pub open spec fn stands_at(w: Seq<char>, i: int, r: Regex) -> bool {
    &&& 0 <= i
    &&& i + render(r).len() <= w.len()
    &&& forall|k: int| 0 <= k < render(r).len() ==> w[i + k] == #[trigger] render(r)[k]
}

/// A comma or a closing bracket is the word that stands where it stands.
proof fn lemma_mark_at(w: Seq<char>, i: int)
    requires
        0 <= i < w.len(),
        w[i] == ',' || w[i] == ')',
    ensures
        word_at(w, i) == if w[i] == ')' {
            Some(Token::Close)
        } else {
            Some(Token::Comma)
        },
{
}

/// Where the text of a concatenation stands, `concat(` stands, then the text
/// of the first part, a comma, the text of the second part and a closing bracket.
proof fn lemma_concat_stands(w: Seq<char>, i: int, a: Regex, b: Regex)
    requires
        stands_at(w, i, Regex::Concat(Box::new(a), Box::new(b))),
    ensures
        concat_at(w, i),
        stands_at(w, i + 7, a),
        i + 7 + render(a).len() + 1 + render(b).len() < w.len(),
        w[i + 7 + render(a).len()] == ',',
        stands_at(w, i + 7 + render(a).len() + 1, b),
        w[i + 7 + render(a).len() + 1 + render(b).len()] == ')',
        render(Regex::Concat(Box::new(a), Box::new(b))).len() == render(a).len() + render(b).len()
            + 9,
{
    reveal(stands_at);
    let whole = render(Regex::Concat(Box::new(a), Box::new(b)));
    let head = seq!['c', 'o', 'n', 'c', 'a', 't', '('];
    let ra = render(a);
    let rb = render(b);
    assert forall|k: int| 0 <= k < 7 implies w[i + k] == #[trigger] head[k] by {
        assert(whole[k] == head[k]);
    }
    assert(w[i] == head[0] && w[i + 1] == head[1] && w[i + 2] == head[2] && w[i + 3] == head[3]
        && w[i + 4] == head[4] && w[i + 5] == head[5] && w[i + 6] == head[6]);
    assert forall|k: int| 0 <= k < ra.len() implies w[i + 7 + k] == #[trigger] ra[k] by {
        assert(whole[7 + k] == ra[k]);
    }
    assert(whole[7 + ra.len() as int] == ',');
    assert forall|k: int| 0 <= k < rb.len() implies w[i + 7 + ra.len() + 1 + k]
        == #[trigger] rb[k] by {
        assert(whole[7 + ra.len() + 1 + k] == rb[k]);
    }
    assert(whole[7 + ra.len() + 1 + rb.len() as int] == ')');
}

/// Where the text of a union stands, `union(` stands, then the text of the
/// first part, a comma, the text of the second part and a closing bracket.
proof fn lemma_union_stands(w: Seq<char>, i: int, a: Regex, b: Regex)
    requires
        stands_at(w, i, Regex::Union(Box::new(a), Box::new(b))),
    ensures
        union_at(w, i),
        !concat_at(w, i),
        stands_at(w, i + 6, a),
        i + 6 + render(a).len() + 1 + render(b).len() < w.len(),
        w[i + 6 + render(a).len()] == ',',
        stands_at(w, i + 6 + render(a).len() + 1, b),
        w[i + 6 + render(a).len() + 1 + render(b).len()] == ')',
        render(Regex::Union(Box::new(a), Box::new(b))).len() == render(a).len() + render(b).len()
            + 8,
{
    reveal(stands_at);
    let whole = render(Regex::Union(Box::new(a), Box::new(b)));
    let head = seq!['u', 'n', 'i', 'o', 'n', '('];
    let ra = render(a);
    let rb = render(b);
    assert forall|k: int| 0 <= k < 6 implies w[i + k] == #[trigger] head[k] by {
        assert(whole[k] == head[k]);
    }
    assert(w[i] == head[0] && w[i + 1] == head[1] && w[i + 2] == head[2] && w[i + 3] == head[3]
        && w[i + 4] == head[4] && w[i + 5] == head[5]);
    assert forall|k: int| 0 <= k < ra.len() implies w[i + 6 + k] == #[trigger] ra[k] by {
        assert(whole[6 + k] == ra[k]);
    }
    assert(whole[6 + ra.len() as int] == ',');
    assert forall|k: int| 0 <= k < rb.len() implies w[i + 6 + ra.len() + 1 + k]
        == #[trigger] rb[k] by {
        assert(whole[6 + ra.len() + 1 + k] == rb[k]);
    }
    assert(whole[6 + ra.len() + 1 + rb.len() as int] == ')');
}

/// Where the text of a star stands, `star(` stands, then the text of the part
/// and a closing bracket.
proof fn lemma_star_stands(w: Seq<char>, i: int, a: Regex)
    requires
        stands_at(w, i, Regex::Star(Box::new(a))),
    ensures
        star_at(w, i),
        !concat_at(w, i),
        !union_at(w, i),
        stands_at(w, i + 5, a),
        i + 5 + render(a).len() < w.len(),
        w[i + 5 + render(a).len()] == ')',
        render(Regex::Star(Box::new(a))).len() == render(a).len() + 6,
{
    reveal(stands_at);
    let whole = render(Regex::Star(Box::new(a)));
    let head = seq!['s', 't', 'a', 'r', '('];
    let ra = render(a);
    assert forall|k: int| 0 <= k < 5 implies w[i + k] == #[trigger] head[k] by {
        assert(whole[k] == head[k]);
    }
    assert(w[i] == head[0] && w[i + 1] == head[1] && w[i + 2] == head[2] && w[i + 3] == head[3]
        && w[i + 4] == head[4]);
    assert forall|k: int| 0 <= k < ra.len() implies w[i + 5 + k] == #[trigger] ra[k] by {
        assert(whole[5 + k] == ra[k]);
    }
    assert(whole[5 + ra.len() as int] == ')');
}

/// Where the text of a symbol stands, `symbol(`, the character and a closing
/// bracket stand.
proof fn lemma_symbol_stands(w: Seq<char>, i: int, c: char)
    requires
        stands_at(w, i, Regex::Symbol(c)),
    ensures
        word_at(w, i) == Some(Token::Atom(c)),
        render(Regex::Symbol(c)).len() == 9,
{
    reveal(stands_at);
    let text = render(Regex::Symbol(c));
    assert(w[i] == text[0] && w[i + 1] == text[1] && w[i + 2] == text[2] && w[i + 3] == text[3]
        && w[i + 4] == text[4] && w[i + 5] == text[5] && w[i + 6] == text[6] && w[i + 7]
        == text[7] && w[i + 8] == text[8]);
}

/// What a closing bracket does when an operator for two waits over an
/// opening bracket and two automata lie on the other stack.
proof fn lemma_closed_two(
    ops: Seq<Operator>,
    nfas: Seq<NfaView>,
    op: Operator,
    a: NfaView,
    b: NfaView,
)
    requires
        op == Operator::Concat || op == Operator::Union,
    ensures
        closed(ops.push(Operator::Open).push(op), nfas.push(a).push(b)) == Some(
            (
                ops,
                nfas.push(
                    if op == Operator::Concat {
                        concat_view(a, b)
                    } else {
                        union_view(a, b)
                    },
                ),
            ),
        ),
{
    let full_ops = ops.push(Operator::Open).push(op);
    let full = nfas.push(a).push(b);
    assert(full_ops.drop_last() =~= ops.push(Operator::Open));
    assert(full.drop_last().drop_last() =~= nfas);
    let built = if op == Operator::Concat {
        concat_view(a, b)
    } else {
        union_view(a, b)
    };
    assert(closed(full_ops, full) == closed(ops.push(Operator::Open), nfas.push(built)));
}

/// What a closing bracket does when a star waits over an opening bracket and
/// an automaton lies on the other stack.
proof fn lemma_closed_one(ops: Seq<Operator>, nfas: Seq<NfaView>, a: NfaView)
    ensures
        closed(ops.push(Operator::Open).push(Operator::Star), nfas.push(a)) == Some(
            (ops, nfas.push(star_view(a))),
        ),
{
    let full_ops = ops.push(Operator::Open).push(Operator::Star);
    let full = nfas.push(a);
    assert(full_ops.drop_last() =~= ops.push(Operator::Open));
    assert(full.drop_last() =~= nfas);
    assert(closed(full_ops, full) == closed(
        ops.push(Operator::Open),
        nfas.push(star_view(a)),
    ));
    assert(closed(ops.push(Operator::Open), nfas.push(star_view(a))) == Some(
        (ops, nfas.push(star_view(a))),
    ));
}

/// Reading `symbol(c)` puts the automaton of the word `c` on the stack.
proof fn lemma_parse_symbol(
    w: Seq<char>,
    table: Seq<Symbol>,
    i: int,
    ops: Seq<Operator>,
    nfas: Seq<NfaView>,
    c: char,
)
    requires
        stands_at(w, i, Regex::Symbol(c)),
    ensures
        parse_from(w, table, i, ops, nfas) == parse_from(
            w,
            table,
            i + 9,
            ops,
            nfas.push(atom_view(Symbol::Character(c), table)),
        ),
{
    lemma_symbol_stands(w, i, c);
}

/// Reading an operator for two, its parts and its brackets puts the
/// automaton that the operator makes of the automata of the parts on the
/// stack, if reading the parts puts their automata there.
#[verifier::rlimit(40)]
proof fn lemma_parse_two(
    w: Seq<char>,
    table: Seq<Symbol>,
    i: int,
    ops: Seq<Operator>,
    nfas: Seq<NfaView>,
    op: Operator,
    first: NfaView,
    second: NfaView,
    length_of_first: int,
    length_of_second: int,
)
    requires
        op == Operator::Concat || op == Operator::Union,
        op == Operator::Concat ==> concat_at(w, i),
        op == Operator::Union ==> union_at(w, i),
        length_of_first >= 0,
        length_of_second >= 0,
        ({
            let head = if op == Operator::Concat {
                7int
            } else {
                6int
            };
            let waiting = ops.push(Operator::Open).push(op);
            let comma = i + head + length_of_first;
            let close = comma + 1 + length_of_second;
            &&& close < w.len()
            &&& w[comma] == ','
            &&& w[close] == ')'
            &&& parse_from(w, table, i + head, waiting, nfas) == parse_from(
                w,
                table,
                comma,
                waiting,
                nfas.push(first),
            )
            &&& parse_from(w, table, comma + 1, waiting, nfas.push(first)) == parse_from(
                w,
                table,
                close,
                waiting,
                nfas.push(first).push(second),
            )
        }),
    ensures
        ({
            let head = if op == Operator::Concat {
                7int
            } else {
                6int
            };
            parse_from(w, table, i, ops, nfas) == parse_from(
                w,
                table,
                i + head + length_of_first + length_of_second + 2,
                ops,
                nfas.push(
                    if op == Operator::Concat {
                        concat_view(first, second)
                    } else {
                        union_view(first, second)
                    },
                ),
            )
        }),
{
    let head = if op == Operator::Concat {
        7int
    } else {
        6int
    };
    let waiting = ops.push(Operator::Open).push(op);
    let comma = i + head + length_of_first;
    let close = comma + 1 + length_of_second;
    lemma_mark_at(w, comma);
    assert(parse_from(w, table, comma, waiting, nfas.push(first)) == parse_from(
        w,
        table,
        comma + 1,
        waiting,
        nfas.push(first),
    ));
    lemma_mark_at(w, close);
    lemma_closed_two(ops, nfas, op, first, second);
    let built = if op == Operator::Concat {
        concat_view(first, second)
    } else {
        union_view(first, second)
    };
    assert(parse_from(w, table, close, waiting, nfas.push(first).push(second)) == parse_from(
        w,
        table,
        close + 1,
        ops,
        nfas.push(built),
    ));
}

/// Reading a star, its part and its brackets puts the star of the automaton
/// of the part on the stack, if reading the part puts its automaton there.
proof fn lemma_parse_one(
    w: Seq<char>,
    table: Seq<Symbol>,
    i: int,
    ops: Seq<Operator>,
    nfas: Seq<NfaView>,
    first: NfaView,
    length_of_first: int,
)
    requires
        star_at(w, i),
        length_of_first >= 0,
        i + 5 + length_of_first < w.len(),
        w[i + 5 + length_of_first] == ')',
        parse_from(w, table, i + 5, ops.push(Operator::Open).push(Operator::Star), nfas)
            == parse_from(
            w,
            table,
            i + 5 + length_of_first,
            ops.push(Operator::Open).push(Operator::Star),
            nfas.push(first),
        ),
    ensures
        parse_from(w, table, i, ops, nfas) == parse_from(
            w,
            table,
            i + 5 + length_of_first + 1,
            ops,
            nfas.push(star_view(first)),
        ),
{
    let waiting = ops.push(Operator::Open).push(Operator::Star);
    let close = i + 5 + length_of_first;
    lemma_mark_at(w, close);
    lemma_closed_one(ops, nfas, first);
    assert(parse_from(w, table, close, waiting, nfas.push(first)) == parse_from(
        w,
        table,
        close + 1,
        ops,
        nfas.push(star_view(first)),
    ));
}

/// Reading the text of an expression puts the automaton of the expression on
/// the stack and leaves the rest as it is.
pub proof fn lemma_parse_render(
    w: Seq<char>,
    table: Seq<Symbol>,
    i: int,
    ops: Seq<Operator>,
    nfas: Seq<NfaView>,
    r: Regex,
)
    requires
        stands_at(w, i, r),
    ensures
        parse_from(w, table, i, ops, nfas) == parse_from(
            w,
            table,
            i + render(r).len(),
            ops,
            nfas.push(thompson(r, table)),
        ),
    decreases r, 1int,
{
    match r {
        Regex::Symbol(c) => {
            lemma_parse_symbol(w, table, i, ops, nfas, c);
        },
        Regex::Concat(a, b) => {
            lemma_parse_render_concat(w, table, i, ops, nfas, r);
        },
        Regex::Union(a, b) => {
            lemma_parse_render_union(w, table, i, ops, nfas, r);
        },
        Regex::Star(a) => {
            lemma_parse_render_star(w, table, i, ops, nfas, r);
        },
    }
}

/// The same, for a concatenation.
#[verifier::rlimit(40)]
proof fn lemma_parse_render_concat(
    w: Seq<char>,
    table: Seq<Symbol>,
    i: int,
    ops: Seq<Operator>,
    nfas: Seq<NfaView>,
    r: Regex,
)
    requires
        stands_at(w, i, r),
        r is Concat,
    ensures
        parse_from(w, table, i, ops, nfas) == parse_from(
            w,
            table,
            i + render(r).len(),
            ops,
            nfas.push(thompson(r, table)),
        ),
    decreases r, 0int,
{
    match r {
        Regex::Concat(a, b) => {
            lemma_concat_stands(w, i, *a, *b);
            let first = thompson(*a, table);
            let second = thompson(*b, table);
            let waiting = ops.push(Operator::Open).push(Operator::Concat);
            let comma = i + 7 + render(*a).len();
            lemma_parse_render(w, table, i + 7, waiting, nfas, *a);
            lemma_parse_render(w, table, comma + 1, waiting, nfas.push(first), *b);
            lemma_parse_two(
                w,
                table,
                i,
                ops,
                nfas,
                Operator::Concat,
                first,
                second,
                render(*a).len() as int,
                render(*b).len() as int,
            );
        },
        _ => {},
    }
}

/// The same, for a union.
#[verifier::rlimit(40)]
proof fn lemma_parse_render_union(
    w: Seq<char>,
    table: Seq<Symbol>,
    i: int,
    ops: Seq<Operator>,
    nfas: Seq<NfaView>,
    r: Regex,
)
    requires
        stands_at(w, i, r),
        r is Union,
    ensures
        parse_from(w, table, i, ops, nfas) == parse_from(
            w,
            table,
            i + render(r).len(),
            ops,
            nfas.push(thompson(r, table)),
        ),
    decreases r, 0int,
{
    match r {
        Regex::Union(a, b) => {
            lemma_union_stands(w, i, *a, *b);
            let first = thompson(*a, table);
            let second = thompson(*b, table);
            let waiting = ops.push(Operator::Open).push(Operator::Union);
            let comma = i + 6 + render(*a).len();
            lemma_parse_render(w, table, i + 6, waiting, nfas, *a);
            lemma_parse_render(w, table, comma + 1, waiting, nfas.push(first), *b);
            lemma_parse_two(
                w,
                table,
                i,
                ops,
                nfas,
                Operator::Union,
                first,
                second,
                render(*a).len() as int,
                render(*b).len() as int,
            );
        },
        _ => {},
    }
}

/// The same, for a star.
#[verifier::rlimit(40)]
proof fn lemma_parse_render_star(
    w: Seq<char>,
    table: Seq<Symbol>,
    i: int,
    ops: Seq<Operator>,
    nfas: Seq<NfaView>,
    r: Regex,
)
    requires
        stands_at(w, i, r),
        r is Star,
    ensures
        parse_from(w, table, i, ops, nfas) == parse_from(
            w,
            table,
            i + render(r).len(),
            ops,
            nfas.push(thompson(r, table)),
        ),
    decreases r, 0int,
{
    match r {
        Regex::Star(a) => {
            lemma_star_stands(w, i, *a);
            let first = thompson(*a, table);
            let waiting = ops.push(Operator::Open).push(Operator::Star);
            lemma_parse_render(w, table, i + 5, waiting, nfas, *a);
            lemma_parse_one(w, table, i, ops, nfas, first, render(*a).len() as int);
        },
        _ => {},
    }
}

/// Reading the text of an expression adds the characters of the expression to
/// the table.
pub proof fn lemma_table_render(w: Seq<char>, table: Seq<Symbol>, i: int, r: Regex)
    requires
        stands_at(w, i, r),
    ensures
        table_from(w, i, table) == table_from(w, i + render(r).len(), with_symbols(table, r)),
    decreases r,
{
    match r {
        Regex::Symbol(c) => {
            lemma_symbol_stands(w, i, c);
        },
        Regex::Concat(a, b) => {
            lemma_concat_stands(w, i, *a, *b);
            let comma = i + 7 + render(*a).len();
            let close = comma + 1 + render(*b).len();
            let middle = with_symbols(table, *a);
            lemma_table_render(w, table, i + 7, *a);
            lemma_mark_at(w, comma);
            lemma_table_render(w, middle, comma + 1, *b);
            lemma_mark_at(w, close);
        },
        Regex::Union(a, b) => {
            lemma_union_stands(w, i, *a, *b);
            let comma = i + 6 + render(*a).len();
            let close = comma + 1 + render(*b).len();
            let middle = with_symbols(table, *a);
            lemma_table_render(w, table, i + 6, *a);
            lemma_mark_at(w, comma);
            lemma_table_render(w, middle, comma + 1, *b);
            lemma_mark_at(w, close);
        },
        Regex::Star(a) => {
            lemma_star_stands(w, i, *a);
            let close = i + 5 + render(*a).len();
            lemma_table_render(w, table, i + 5, *a);
            lemma_mark_at(w, close);
        },
    }
}

/// The text of every expression is read as the expression: it yields the
/// automaton of the expression over the table of the expression.
pub proof fn lemma_parsed_render(r: Regex)
    ensures
        table_of(render(r)) == Some(symbols_of(r)),
        parsed(render(r)) == Some(thompson(r, symbols_of(r))),
{
    let w = render(r);
    let table = symbols_of(r);
    assert(stands_at(w, 0, r)) by {
        reveal(stands_at);
    }
    lemma_table_render(w, seq![Symbol::Epsilon], 0, r);
    lemma_parse_render(w, table, 0, Seq::empty(), Seq::empty(), r);
}

} // verus!
