//! The effect of a transition: write, move and change state, or halt.

use vstd::prelude::*;

use crate::direction::Direction;
use crate::state::{digit_value, is_decimal, is_digit, State};
use crate::symbol::Symbol;
use crate::{direction, state, symbol};

verus! {

/// What a program tells the machine to do for one key.
#[derive(Debug, PartialEq, Eq, Structural, Copy, Clone)]
pub enum Action {
    /// Stop: the machine enters the halted state.
    Halt,
    /// Write a symbol, move the head, and enter the given working state.
    Do {
        /// The symbol written to the cell under the head.
        symbol: Symbol,
        /// The direction the head moves in afterwards.
        direction: Direction,
        /// The state the machine transitions to.
        state: State,
    },
}

/// The action with index `d` in the canonical action order: halt first, then
/// for each destination state the four write/move combinations.
pub open spec fn action_at(d: int) -> Action {
    if d <= 0 {
        Action::Halt
    } else {
        Action::Do {
            symbol: if (d - 1) % 4 >= 2 {
                Symbol::NonBlank
            } else {
                Symbol::Blank
            },
            direction: if (d - 1) % 2 == 1 {
                Direction::Right
            } else {
                Direction::Left
            },
            state: State::Number(((d - 1) / 4) as u8),
        }
    }
}

/// The symbol a single character denotes, if any.
pub open spec fn symbol_of_char(c: char) -> Option<Symbol> {
    if c == '0' {
        Some(Symbol::Blank)
    } else if c == '1' {
        Some(Symbol::NonBlank)
    } else {
        None
    }
}

/// The direction a single character denotes, if any.
pub open spec fn direction_of_char(c: char) -> Option<Direction> {
    if c == 'L' {
        Some(Direction::Left)
    } else if c == 'R' {
        Some(Direction::Right)
    } else {
        None
    }
}

/// The fixed three-character token denoting the halt action.
pub open spec fn halt_token() -> Seq<char> {
    seq![' ', ' ', 'H']
}

/// Whether a three-character token denotes a well-formed non-halting action:
/// a symbol, a direction, and a decimal digit for the destination state.
pub open spec fn is_do_token(s: Seq<char>) -> bool {
    &&& s.len() == 3
    &&& symbol_of_char(s[0]) is Some
    &&& direction_of_char(s[1]) is Some
    &&& is_digit(s[2])
}

/// The action a well-formed non-halting token denotes.
pub open spec fn do_token_action(s: Seq<char>) -> Action {
    Action::Do {
        symbol: symbol_of_char(s[0])->0,
        direction: direction_of_char(s[1])->0,
        state: State::Number(digit_value(s[2]) as u8),
    }
}

/// Two one-character texts are equal exactly when their characters are.
proof fn lemma_singleton_eq(c: char, d: char)
    ensures
        (seq![c] == seq![d]) <==> (c == d),
{
    if c == d {
        assert(seq![c] =~= seq![d]);
    }
    if seq![c] == seq![d] {
        assert(seq![c][0] == seq![d][0]);
    }
}

/// A one-character text is a digit run exactly when its character is a
/// digit, and then denotes that digit's value.
proof fn lemma_singleton_is_decimal(c: char)
    ensures
        is_decimal(seq![c]) <==> is_digit(c),
        is_digit(c) ==> state::decimal_value(seq![c]) == digit_value(c),
{
    assert(seq![c][0] == c);
    if is_digit(c) {
        assert(forall|j: int| 0 <= j < 1 ==> is_digit(#[trigger] seq![c][j]));
        assert(state::decimal_value_prefix(seq![c], 0) == 0);
        assert(state::decimal_value(seq![c]) == digit_value(c));
    }
    if is_decimal(seq![c]) {
        assert(is_digit(seq![c][0]));
    }
}

/// The error `Action::from_str` reports for a three-character token: the
/// first broken component — symbol, then direction, then destination —
/// with the offending character.
pub open spec fn error_for_token(t: Seq<char>, e: ParseError) -> bool {
    &&& (symbol_of_char(t[0]) is None ==> (e matches ParseError::SymbolProblem(
        symbol::ParseError::UnknownSymbol(x),
    ) && x@ == seq![t[0]]))
    &&& (symbol_of_char(t[0]) is Some && direction_of_char(t[1]) is None ==> (e matches ParseError::DirectionProblem(direction::ParseError::UnknownSymbol(x)) && x@ == seq![t[1]]))
    &&& (symbol_of_char(t[0]) is Some && direction_of_char(t[1]) is Some && !is_digit(t[2]) ==> (
    e matches ParseError::StateProblem(state::ParseError::UnknownState(x)) && x@ == seq![t[2]]))
}

impl Action {
    /// Parse a three-character action token: the halt token, or symbol,
    /// direction and destination state. The destination must be a decimal
    /// digit: the halted state is only ever denoted by the halt token itself,
    /// so an "H" destination is rejected like any other malformed state.
    pub fn from_str(input: &str) -> (r: Result<Action, ParseError>)
        ensures
            input@.len() != 3 ==> r == Err::<Action, ParseError>(
                ParseError::IncorrectLength(input@.len() as usize),
            ),
            input@ == halt_token() ==> r == Ok::<Action, ParseError>(Action::Halt),
            input@.len() == 3 && input@ != halt_token() && symbol_of_char(input@[0]) is None ==> (
            r matches Err(ParseError::SymbolProblem(symbol::ParseError::UnknownSymbol(t))) && t@
                == seq![input@[0]]),
            input@.len() == 3 && input@ != halt_token() && symbol_of_char(input@[0]) is Some
                && direction_of_char(input@[1]) is None ==> (r matches Err(
                ParseError::DirectionProblem(direction::ParseError::UnknownSymbol(t)),
            ) && t@ == seq![input@[1]]),
            input@.len() == 3 && input@ != halt_token() && symbol_of_char(input@[0]) is Some
                && direction_of_char(input@[1]) is Some && !is_digit(input@[2]) ==> (r matches Err(
                ParseError::StateProblem(state::ParseError::UnknownState(t)),
            ) && t@ == seq![input@[2]]),
            input@ != halt_token() && is_do_token(input@) ==> r == Ok::<Action, ParseError>(
                do_token_action(input@),
            ),
    {
        let n = input.unicode_len();
        if n != 3 {
            return Err(ParseError::IncorrectLength(n));
        }
        proof {
            assert(input@ =~= seq![input@[0], input@[1], input@[2]]);
        }
        if input.get_char(0) == ' ' && input.get_char(1) == ' ' && input.get_char(2) == 'H' {
            proof {
                assert(input@ =~= halt_token());
            }
            return Ok(Action::Halt);
        }
        proof {
            assert(input@ != halt_token()) by {
                if input@ == halt_token() {
                    assert(input@[0] == ' ' && input@[1] == ' ' && input@[2] == 'H');
                }
            }
        }
        let symbol_text = input.substring_char(0, 1);
        proof {
            assert(symbol_text@ =~= seq![input@[0]]);
            lemma_singleton_eq(input@[0], '0');
            lemma_singleton_eq(input@[0], '1');
        }
        let symbol = match symbol::Symbol::from_str(symbol_text) {
            Ok(symbol) => symbol,
            Err(error) => {
                return Err(ParseError::SymbolProblem(error));
            },
        };
        proof {
            assert(symbol_of_char(input@[0]) is Some && symbol == symbol_of_char(input@[0])->0);
        }
        let direction_text = input.substring_char(1, 2);
        proof {
            assert(direction_text@ =~= seq![input@[1]]);
            lemma_singleton_eq(input@[1], 'L');
            lemma_singleton_eq(input@[1], 'R');
        }
        let direction = match direction::Direction::from_str(direction_text) {
            Ok(direction) => direction,
            Err(error) => {
                return Err(ParseError::DirectionProblem(error));
            },
        };
        proof {
            assert(direction_of_char(input@[1]) is Some && direction == direction_of_char(
                input@[1],
            )->0);
        }
        let state_text = input.substring_char(2, 3);
        proof {
            assert(state_text@ =~= seq![input@[2]]);
            lemma_singleton_eq(input@[2], 'H');
            lemma_singleton_is_decimal(input@[2]);
        }
        let state = match state::State::from_str(state_text) {
            Ok(State::Number(s)) => State::Number(s),
            Ok(State::Halted) => {
                return Err(ParseError::StateProblem(state::ParseError::UnknownState(
                    state_text.to_owned(),
                )));
            },
            Err(error) => {
                return Err(ParseError::StateProblem(error));
            },
        };
        Ok(Action::Do { symbol, direction, state })
    }
}

/// The reason a piece of text does not denote an action.
#[derive(Debug)]
pub enum ParseError {
    /// The token is not exactly three characters long.
    IncorrectLength(usize),
    /// The symbol character is malformed.
    SymbolProblem(symbol::ParseError),
    /// The direction character is malformed.
    DirectionProblem(direction::ParseError),
    /// The destination state character is malformed.
    StateProblem(state::ParseError),
    /// A leftover kind for text that denotes nothing at all.
    UnknownSymbol(String),
}

impl ParseError {
    /// Whether two parse errors report the same problem about the same text.
    pub open spec fn spec_same(&self, other: &ParseError) -> bool {
        match (*self, *other) {
            (ParseError::IncorrectLength(a), ParseError::IncorrectLength(b)) => a == b,
            (ParseError::SymbolProblem(a), ParseError::SymbolProblem(b)) => a.spec_same(&b),
            (ParseError::DirectionProblem(a), ParseError::DirectionProblem(b)) => a.spec_same(&b),
            (ParseError::StateProblem(a), ParseError::StateProblem(b)) => a.spec_same(&b),
            (ParseError::UnknownSymbol(a), ParseError::UnknownSymbol(b)) => a@ == b@,
            _ => false,
        }
    }
}

impl PartialEq for ParseError {
    fn eq(&self, other: &ParseError) -> (r: bool) {
        match (self, other) {
            (ParseError::IncorrectLength(a), ParseError::IncorrectLength(b)) => a == b,
            (ParseError::SymbolProblem(a), ParseError::SymbolProblem(b)) => a == b,
            (ParseError::DirectionProblem(a), ParseError::DirectionProblem(b)) => a == b,
            (ParseError::StateProblem(a), ParseError::StateProblem(b)) => a == b,
            (ParseError::UnknownSymbol(a), ParseError::UnknownSymbol(b)) => <String as PartialEq>::eq(a, b),
            _ => false,
        }
    }
}

impl Eq for ParseError {

}

impl vstd::std_specs::cmp::PartialEqSpecImpl for ParseError {
    open spec fn obeys_eq_spec() -> bool {
        true
    }

    open spec fn eq_spec(&self, other: &ParseError) -> bool {
        self.spec_same(other)
    }
}

/// Yields every action available with destination states below a maximum,
/// halt first, in canonical action order.
pub struct Actions {
    items: Vec<Action>,
    index: usize,
}

impl Actions {
    /// The actions this iterator will still yield, in order.
    pub closed spec fn remaining(&self) -> Seq<Action> {
        if self.index <= self.items.len() {
            self.items@.skip(self.index as int)
        } else {
            seq![]
        }
    }

    /// The `4 * maximum + 1` actions whose destinations lie below `maximum`:
    /// halt, then for each destination state every write/move combination.
    pub fn up_to(maximum: u8) -> (r: Self)
        ensures
            r.remaining() == Seq::new(4 * maximum as nat + 1, |d: int| action_at(d)),
    {
        let mut items: Vec<Action> = Vec::new();
        items.push(Action::Halt);
        let mut s: u8 = 0;
        while s < maximum
            invariant
                0 <= s <= maximum,
                items@.len() == 4 * s as int + 1,
                forall|d: int| 0 <= d < items@.len() ==> items@[d] == action_at(d),
            decreases maximum - s,
        {
            items.push(
                Action::Do {
                    symbol: Symbol::Blank,
                    direction: Direction::Left,
                    state: State::Number(s),
                },
            );
            items.push(
                Action::Do {
                    symbol: Symbol::Blank,
                    direction: Direction::Right,
                    state: State::Number(s),
                },
            );
            items.push(
                Action::Do {
                    symbol: Symbol::NonBlank,
                    direction: Direction::Left,
                    state: State::Number(s),
                },
            );
            items.push(
                Action::Do {
                    symbol: Symbol::NonBlank,
                    direction: Direction::Right,
                    state: State::Number(s),
                },
            );
            s = s + 1;
        }
        let r = Self { items, index: 0 };
        proof {
            assert(r.remaining() =~= Seq::new(4 * maximum as nat + 1, |d: int| action_at(d)));
        }
        r
    }

    /// The next action, if any is left.
    pub fn next(&mut self) -> (r: Option<Action>)
        ensures
            old(self).remaining().len() == 0 ==> r is None && final(self).remaining()
                == old(self).remaining(),
            old(self).remaining().len() > 0 ==> r == Some(old(self).remaining()[0]) && final(self).remaining() == old(self).remaining().drop_first(),
    {
        if self.index < self.items.len() {
            let item = self.items[self.index];
            self.index = self.index + 1;
            proof {
                assert(final(self).remaining() =~= old(self).remaining().drop_first());
            }
            Some(item)
        } else {
            None
        }
    }
}


/// The character denoting a symbol.
pub open spec fn symbol_char(symbol: Symbol) -> char {
    match symbol {
        Symbol::Blank => '0',
        Symbol::NonBlank => '1',
    }
}

/// The character denoting a direction.
pub open spec fn direction_char(direction: Direction) -> char {
    match direction {
        Direction::Left => 'L',
        Direction::Right => 'R',
    }
}

/// The character denoting a one-digit state index.
pub open spec fn state_char(s: u8) -> char {
    seq!['0', '1', '2', '3', '4', '5', '6', '7', '8', '9'][s as int]
}

/// Whether an action can be written as a canonical three-character token:
/// its destination, if any, must be a state with a one-digit index.
pub open spec fn renderable(action: Action) -> bool {
    match action {
        Action::Halt => true,
        Action::Do { state, .. } => state matches State::Number(s) && s <= 9,
    }
}

/// The canonical three-character token for an action.
pub open spec fn action_text(action: Action) -> Seq<char> {
    match action {
        Action::Halt => halt_token(),
        Action::Do { symbol, direction, state } => seq![
            symbol_char(symbol),
            direction_char(direction),
            state_char(state->Number_0),
        ],
    }
}

/// The one-character text for a one-digit state index.
fn digit_text(s: u8) -> (r: &'static str)
    requires
        s <= 9,
    ensures
        r@ == seq![state_char(s)],
{
    proof {
        reveal_strlit("0");
        reveal_strlit("1");
        reveal_strlit("2");
        reveal_strlit("3");
        reveal_strlit("4");
        reveal_strlit("5");
        reveal_strlit("6");
        reveal_strlit("7");
        reveal_strlit("8");
        reveal_strlit("9");
    }
    let r = match s {
        0 => "0",
        1 => "1",
        2 => "2",
        3 => "3",
        4 => "4",
        5 => "5",
        6 => "6",
        7 => "7",
        8 => "8",
        _ => "9",
    };
    proof {
        assert(r@ =~= seq![state_char(s)]);
    }
    r
}

impl Action {
    /// The canonical three-character token for this action: the halt token,
    /// or symbol, direction and one-digit destination.
    pub fn render(&self) -> (r: String)
        requires
            renderable(*self),
        ensures
            r@ == action_text(*self),
    {
        proof {
            reveal_strlit("  H");
            reveal_strlit("0");
            reveal_strlit("1");
            reveal_strlit("L");
            reveal_strlit("R");
        }
        match self {
            Action::Halt => {
                let r = String::from_str("  H");
                proof {
                    assert(r@ =~= halt_token());
                }
                r
            },
            Action::Do { symbol, direction, state } => {
                let mut r = String::new();
                match symbol {
                    Symbol::Blank => r.append("0"),
                    Symbol::NonBlank => r.append("1"),
                }
                match direction {
                    Direction::Left => r.append("L"),
                    Direction::Right => r.append("R"),
                }
                let digit = match state {
                    State::Number(s) => *s,
                    State::Halted => 0,
                };
                r.append(digit_text(digit));
                proof {
                    assert(r@ =~= action_text(*self));
                }
                r
            },
        }
    }
}


} // verus!
