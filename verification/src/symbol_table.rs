//! Symbols and the table that numbers them.
//!
//! A table holds the empty word under number 0 and every character that was
//! added to it under the next free number, in the order of insertion.

use vstd::prelude::*;
use vstd::std_specs::cmp::PartialEqSpecImpl;

verus! {

/// A transition label: the empty word or one character.
#[derive(Clone, Copy, Debug, Hash, PartialEq, Eq, Structural)]
pub enum Symbol {
    Epsilon,
    Character(char),
}

/// The numbering of the symbols of an alphabet.
///
/// The view is the sequence of the symbols in the order of their numbers: the
/// symbol at index `n` has number `n`.
#[derive(Debug)]
pub struct SymbolTable {
    symbols: Vec<Symbol>,
}

impl View for SymbolTable {
    type V = Seq<Symbol>;

    closed spec fn view(&self) -> Seq<Symbol> {
        self.symbols@
    }
}

impl SymbolTable {
    /// The empty word has number 0 and no symbol stands in the table twice.
    pub open spec fn wf(&self) -> bool {
        &&& self@.len() >= 1
        &&& self@[0] == Symbol::Epsilon
        &&& self@.no_duplicates()
    }

    /// The characters of the table, as a set.
    pub open spec fn alphabet(&self) -> Set<char> {
        Set::new(|c: char| self@.contains(Symbol::Character(c)))
    }

    /// A table that holds the empty word only.
    pub fn new() -> (table: SymbolTable)
        ensures
            table@ == seq![Symbol::Epsilon],
            table.wf(),
    {
        let mut symbols: Vec<Symbol> = Vec::new();
        symbols.push(Symbol::Epsilon);
        SymbolTable { symbols }
    }

    /// Whether the table holds the symbol.
    pub fn contains(&self, symbol: Symbol) -> (found: bool)
        ensures
            found == self@.contains(symbol),
    {
        let mut i: usize = 0;
        while i < self.symbols.len()
            invariant
                i <= self.symbols.len(),
                forall|j: int| 0 <= j < i ==> self@[j] != symbol,
            decreases self.symbols.len() - i,
        {
            if self.symbols[i] == symbol {
                return true;
            }
            i += 1;
        }
        false
    }

    /// Adds a symbol under the next free number, unless the table holds it already.
    pub fn add_symbol(&mut self, symbol: Symbol)
        requires
            old(self).wf(),
        ensures
            final(self).wf(),
            old(self)@.contains(symbol) ==> final(self)@ == old(self)@,
            !old(self)@.contains(symbol) ==> final(self)@ == old(self)@.push(symbol),
    {
        if symbol == Symbol::Epsilon {
            return ;
        }
        if self.contains(symbol) {
            return ;
        }
        self.symbols.push(symbol);
    }

    /// Adds a character under the next free number, unless the table holds it already.
    pub fn add_character(&mut self, ch: char)
        requires
            old(self).wf(),
        ensures
            final(self).wf(),
            old(self)@.contains(Symbol::Character(ch)) ==> final(self)@ == old(self)@,
            !old(self)@.contains(Symbol::Character(ch)) ==> final(self)@ == old(self)@.push(
                Symbol::Character(ch),
            ),
    {
        self.add_symbol(Symbol::Character(ch));
    }

    /// The number of symbols, the empty word included.
    pub fn len(&self) -> (n: usize)
        ensures
            n == self@.len(),
    {
        self.symbols.len()
    }

    /// All symbols in the order of their numbers.
    pub fn symbols(&self) -> (all: Vec<Symbol>)
        ensures
            all@ == self@,
    {
        let mut all: Vec<Symbol> = Vec::new();
        let mut i: usize = 0;
        while i < self.symbols.len()
            invariant
                i <= self.symbols.len(),
                all@ == self@.take(i as int),
            decreases self.symbols.len() - i,
        {
            all.push(self.symbols[i]);
            i += 1;
        }
        all
    }

    /// The number under which the table holds the symbol.
    pub fn number(&self, symbol: Symbol) -> (n: usize)
        requires
            self@.contains(symbol),
        ensures
            n < self@.len(),
            self@[n as int] == symbol,
    {
        let mut i: usize = 0;
        while i < self.symbols.len()
            invariant
                i <= self.symbols.len(),
                forall|j: int| 0 <= j < i ==> self@[j] != symbol,
            decreases self.symbols.len() - i,
        {
            if self.symbols[i] == symbol {
                return i;
            }
            i += 1;
        }
        0
    }

    /// The symbol that stands under the number.
    pub fn symbol(&self, n: usize) -> (symbol: Symbol)
        requires
            n < self@.len(),
        ensures
            symbol == self@[n as int],
    {
        self.symbols[n]
    }

    /// Whether two tables hold the same symbols, whatever their numbers.
    pub fn same_symbols(&self, other: &SymbolTable) -> (same: bool)
        ensures
            same == (self@.to_set() == other@.to_set()),
    {
        let mut i: usize = 0;
        while i < self.symbols.len()
            invariant
                i <= self.symbols.len(),
                forall|j: int| 0 <= j < i ==> other@.contains(self@[j]),
            decreases self.symbols.len() - i,
        {
            if !other.contains(self.symbols[i]) {
                assert(self@.to_set().contains(self@[i as int]));
                return false;
            }
            i += 1;
        }
        let mut k: usize = 0;
        while k < other.symbols.len()
            invariant
                k <= other.symbols.len(),
                forall|j: int| 0 <= j < self@.len() ==> other@.contains(self@[j]),
                forall|j: int| 0 <= j < k ==> self@.contains(other@[j]),
            decreases other.symbols.len() - k,
        {
            if !self.contains(other.symbols[k]) {
                assert(other@.to_set().contains(other@[k as int]));
                return false;
            }
            k += 1;
        }
        assert(self@.to_set() =~= other@.to_set());
        true
    }
}

/// Two tables are equal if they hold the same symbols, whatever their numbers.
impl PartialEq for SymbolTable {
    fn eq(&self, other: &SymbolTable) -> (same: bool) {
        self.same_symbols(other)
    }
}

impl PartialEqSpecImpl for SymbolTable {
    open spec fn obeys_eq_spec() -> bool {
        true
    }

    open spec fn eq_spec(&self, other: &SymbolTable) -> bool {
        self@.to_set() == other@.to_set()
    }
}

impl Eq for SymbolTable {
}

impl Clone for SymbolTable {
    fn clone(&self) -> (copy: SymbolTable)
        ensures
            copy@ == self@,
    {
        SymbolTable { symbols: self.symbols() }
    }
}

/// The numbering is one to one: two numbers of a table that hold the same
/// symbol are the same number, every symbol of the table stands under a
/// number, and the empty word has number 0.
pub proof fn lemma_numbering_is_bijective(table: SymbolTable, symbol: Symbol, m: int, n: int)
    requires
        table.wf(),
    ensures
        table@[0] == Symbol::Epsilon,
        table@.contains(symbol) ==> 0 <= table@.index_of(symbol) < table@.len() && table@[table@.index_of(
            symbol,
        )] == symbol,
        0 <= n < table@.len() ==> table@.index_of(table@[n]) == n,
        0 <= m < table@.len() && 0 <= n < table@.len() && table@[m] == table@[n] ==> m == n,
{
}

} // verus!
