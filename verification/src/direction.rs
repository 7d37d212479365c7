//! Directions the tape head can move in.

use vstd::prelude::*;

verus! {

/// The two directions the tape head can move in.
#[derive(Debug, PartialEq, Eq, Structural, Copy, Clone)]
pub enum Direction {
    /// Move the head one cell to the left.
    Left,
    /// Move the head one cell to the right.
    Right,
}

impl Direction {
    /// The direction chosen by an index: odd indices pick right.
    pub fn from_index(index: usize) -> (r: Direction)
        ensures
            r == Direction::spec_from_index(index as int),
    {
        if index % 2 == 1 {
            Direction::Right
        } else {
            Direction::Left
        }
    }

    /// What `from_index` returns.
    pub open spec fn spec_from_index(index: int) -> Direction {
        if index % 2 == 1 {
            Direction::Right
        } else {
            Direction::Left
        }
    }

    /// Parse "L" or "R"; everything else is rejected with the offending text.
    pub fn from_str(input: &str) -> (r: Result<Direction, ParseError>)
        ensures
            input@ == seq!['L'] ==> r == Ok::<Direction, ParseError>(Direction::Left),
            input@ == seq!['R'] ==> r == Ok::<Direction, ParseError>(Direction::Right),
            input@ != seq!['L'] && input@ != seq!['R'] ==> (r matches Err(
                ParseError::UnknownSymbol(s),
            ) && s@ == input@),
    {
        proof {
            reveal_strlit("L");
            reveal_strlit("R");
        }
        if input.unicode_len() == 1 {
            let c = input.get_char(0);
            proof {
                assert(input@ =~= seq![input@[0]]);
            }
            if c == 'L' {
                return Ok(Direction::Left);
            }
            if c == 'R' {
                return Ok(Direction::Right);
            }
        }
        Err(ParseError::UnknownSymbol(input.to_owned()))
    }
}

/// The reason a piece of text does not denote a direction.
#[derive(Debug)]
pub enum ParseError {
    /// The text is neither "L" nor "R".
    UnknownSymbol(String),
}

impl ParseError {
    /// Whether two parse errors report the same offending text.
    pub open spec fn spec_same(&self, other: &ParseError) -> bool {
        match (*self, *other) {
            (ParseError::UnknownSymbol(a), ParseError::UnknownSymbol(b)) => a@ == b@,
        }
    }
}

impl PartialEq for ParseError {
    fn eq(&self, other: &ParseError) -> (r: bool) {
        match (self, other) {
            (ParseError::UnknownSymbol(a), ParseError::UnknownSymbol(b)) => <String as PartialEq>::eq(a, b),
        }
    }
}

impl Eq for ParseError {

}

impl vstd::std_specs::cmp::PartialEqSpecImpl for ParseError {
    open spec fn obeys_eq_spec() -> bool {
        true
    }

    open spec fn eq_spec(&self, other: &ParseError) -> bool {
        self.spec_same(other)
    }
}

/// Yields every direction once, left first.
pub struct Directions {
    current: Option<Direction>,
}

impl Directions {
    /// The directions this iterator will still yield, in order.
    pub closed spec fn remaining(&self) -> Seq<Direction> {
        match self.current {
            Some(Direction::Left) => seq![Direction::Left, Direction::Right],
            Some(Direction::Right) => seq![Direction::Right],
            None => seq![],
        }
    }

    /// An iterator over all directions.
    pub fn all() -> (r: Self)
        ensures
            r.remaining() == seq![Direction::Left, Direction::Right],
    {
        Self { current: Some(Direction::Left) }
    }

    /// The next direction, if any is left.
    pub fn next(&mut self) -> (r: Option<Direction>)
        ensures
            old(self).remaining().len() == 0 ==> r is None && final(self).remaining()
                == old(self).remaining(),
            old(self).remaining().len() > 0 ==> r == Some(old(self).remaining()[0]) && final(self).remaining() == old(self).remaining().drop_first(),
    {
        let item = self.current;
        self.current = match item {
            Some(Direction::Left) => Some(Direction::Right),
            _ => None,
        };
        proof {
            if old(self).remaining().len() > 0 {
                assert(final(self).remaining() =~= old(self).remaining().drop_first());
            }
        }
        item
    }
}

} // verus!
