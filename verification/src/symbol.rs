//! The alphabet the Turing machine can write on the tape.
//!
//! Only an alphabet of size two is of interest here.

use vstd::prelude::*;

verus! {

/// The symbols that can be written on a tape cell.
#[derive(Debug, PartialEq, Eq, Structural, Copy, Clone, Hash)]
pub enum Symbol {
    /// The blank symbol, written "0".
    Blank,
    /// The non-blank symbol, written "1".
    NonBlank,
}

impl Symbol {
    /// The symbol chosen by an index: odd indices pick the non-blank symbol.
    pub fn from_index(index: usize) -> (r: Symbol)
        ensures
            r == Symbol::spec_from_index(index as int),
    {
        if index % 2 == 1 {
            Symbol::NonBlank
        } else {
            Symbol::Blank
        }
    }

    /// What `from_index` returns.
    pub open spec fn spec_from_index(index: int) -> Symbol {
        if index % 2 == 1 {
            Symbol::NonBlank
        } else {
            Symbol::Blank
        }
    }

    /// Parse "0" or "1"; everything else is rejected with the offending text.
    pub fn from_str(input: &str) -> (r: Result<Symbol, ParseError>)
        ensures
            input@ == seq!['0'] ==> r == Ok::<Symbol, ParseError>(Symbol::Blank),
            input@ == seq!['1'] ==> r == Ok::<Symbol, ParseError>(Symbol::NonBlank),
            input@ != seq!['0'] && input@ != seq!['1'] ==> (r matches Err(
                ParseError::UnknownSymbol(s),
            ) && s@ == input@),
    {
        proof {
            reveal_strlit("0");
            reveal_strlit("1");
        }
        if input.unicode_len() == 1 {
            let c = input.get_char(0);
            proof {
                assert(input@ =~= seq![input@[0]]);
            }
            if c == '0' {
                return Ok(Symbol::Blank);
            }
            if c == '1' {
                return Ok(Symbol::NonBlank);
            }
        }
        Err(ParseError::UnknownSymbol(input.to_owned()))
    }
}

impl Default for Symbol {
    /// The blank symbol is the default: an untouched cell reads as blank.
    fn default() -> (r: Self)
        ensures
            r == Symbol::Blank,
    {
        Symbol::Blank
    }
}

/// The reason a piece of text does not denote a symbol.
#[derive(Debug)]
pub enum ParseError {
    /// The text is neither "0" nor "1".
    UnknownSymbol(String),
}

impl ParseError {
    /// Whether two parse errors report the same offending text.
    pub open spec fn spec_same(&self, other: &ParseError) -> bool {
        match (*self, *other) {
            (ParseError::UnknownSymbol(a), ParseError::UnknownSymbol(b)) => a@ == b@,
        }
    }
}

impl PartialEq for ParseError {
    fn eq(&self, other: &ParseError) -> (r: bool) {
        match (self, other) {
            (ParseError::UnknownSymbol(a), ParseError::UnknownSymbol(b)) => <String as PartialEq>::eq(a, b),
        }
    }
}

impl Eq for ParseError {

}

impl vstd::std_specs::cmp::PartialEqSpecImpl for ParseError {
    open spec fn obeys_eq_spec() -> bool {
        true
    }

    open spec fn eq_spec(&self, other: &ParseError) -> bool {
        self.spec_same(other)
    }
}

/// Yields every symbol once, the blank symbol first.
pub struct Symbols {
    current: Option<Symbol>,
}

impl Symbols {
    /// The symbols this iterator will still yield, in order.
    pub closed spec fn remaining(&self) -> Seq<Symbol> {
        match self.current {
            Some(Symbol::Blank) => seq![Symbol::Blank, Symbol::NonBlank],
            Some(Symbol::NonBlank) => seq![Symbol::NonBlank],
            None => seq![],
        }
    }

    /// An iterator over all symbols.
    pub fn all() -> (r: Self)
        ensures
            r.remaining() == seq![Symbol::Blank, Symbol::NonBlank],
    {
        Self { current: Some(Symbol::Blank) }
    }

    /// The next symbol, if any is left.
    pub fn next(&mut self) -> (r: Option<Symbol>)
        ensures
            old(self).remaining().len() == 0 ==> r is None && final(self).remaining()
                == old(self).remaining(),
            old(self).remaining().len() > 0 ==> r == Some(old(self).remaining()[0]) && final(self).remaining() == old(self).remaining().drop_first(),
    {
        let item = self.current;
        self.current = match item {
            Some(Symbol::Blank) => Some(Symbol::NonBlank),
            _ => None,
        };
        proof {
            if old(self).remaining().len() > 0 {
                assert(final(self).remaining() =~= old(self).remaining().drop_first());
            }
        }
        item
    }
}

} // verus!
