//! The states a Turing machine can be in.

use vstd::prelude::*;

verus! {

/// A machine state: either halted, or one of the numbered working states.
#[derive(Debug, PartialEq, Eq, Structural, Copy, Clone, Hash)]
pub enum State {
    /// The halted state: the machine has finished operating.
    Halted,
    /// A working state, indexed by a small natural number.
    Number(u8),
}

impl State {
    /// Whether this is the halted state.
    pub fn halted(&self) -> (r: bool)
        ensures
            r == self.spec_halted(),
    {
        matches!(self, State::Halted)
    }

    /// Holds exactly of `State::Halted`.
    pub open spec fn spec_halted(&self) -> bool {
        self is Halted
    }

    /// The working state owning a table slot index: slot `i` belongs to state `i / 2`.
    pub fn from_index(index: usize) -> (r: State)
        requires
            index < 512,
        ensures
            r == State::spec_from_index(index as int),
    {
        let n = index / 2;
        State::Number(n as u8)
    }

    /// What `from_index` returns.
    pub open spec fn spec_from_index(index: int) -> State {
        State::Number((index / 2) as u8)
    }

    /// Parse "H" as the halted state, or a decimal number up to 255 as a
    /// working state; anything else is rejected with the offending text.
    pub fn from_str(input: &str) -> (r: Result<State, ParseError>)
        ensures
            input@ == seq!['H'] ==> r == Ok::<State, ParseError>(State::Halted),
            r == Ok::<State, ParseError>(State::Halted) ==> input@ == seq!['H'],
            r matches Ok(s) ==> (s is Number ==> is_decimal(input@) && s->0 == decimal_value(
                input@,
            )),
            is_decimal(input@) && decimal_value(input@) <= u8::MAX ==> r == Ok::<
                State,
                ParseError,
            >(State::Number(decimal_value(input@) as u8)),
            r matches Err(ParseError::UnknownState(s)) ==> s@ == input@ && input@ != seq!['H'] && !(
                is_decimal(input@) && decimal_value(input@) <= u8::MAX
            ),
    {
        proof {
            reveal_strlit("H");
        }
        let n = input.unicode_len();
        if n == 1 {
            proof {
                assert(input@ =~= seq![input@[0]]);
            }
            if input.get_char(0) == 'H' {
                return Ok(State::Halted);
            }
        }
        if n == 0 {
            return Err(ParseError::UnknownState(input.to_owned()));
        }
        let mut value: u32 = 0;
        let mut i: usize = 0;
        proof {
            assert(input@ != seq!['H']) by {
                if input@ == seq!['H'] {
                    assert(input@[0] == 'H');
                }
            }
        }
        while i < n
            invariant
                input@ != seq!['H'],
                0 < n == input@.len() <= usize::MAX,
                0 <= i <= n,
                forall|j: int| 0 <= j < i ==> is_digit(input@[j]),
                value == decimal_value_prefix(input@, i as int),
                value <= 0xfff,
            decreases n - i,
        {
            let c = input.get_char(i);
            if c < '0' || c > '9' {
                proof {
                    assert(!is_digit(input@[i as int]));
                    assert(!is_decimal(input@));
                }
                return Err(ParseError::UnknownState(input.to_owned()));
            }
            let d = (c as u32) - 48;
            assert(d == digit_value(input@[i as int]));
            if value > 255 {
                // Already too large for a state index: scanning further digits
                // cannot bring it back down, reject without reading them.
                proof {
                    if i == 0 {
                        assert(decimal_value_prefix(input@, 0) == 0);
                    }
                    assert(1 <= i < n);
                    if is_decimal(input@) {
                        lemma_decimal_value_prefix_grows(input@, i as int, input@.len() as int);
                    }
                }
                return Err(ParseError::UnknownState(input.to_owned()));
            }
            value = value * 10 + d;
            i = i + 1;
        }
        assert(input@.subrange(0, i as int) =~= input@);
        assert(is_decimal(input@));
        if value <= 255 {
            Ok(State::Number(value as u8))
        } else {
            proof {
                lemma_decimal_value_prefix_grows(input@, i as int, input@.len() as int);
            }
            Err(ParseError::UnknownState(input.to_owned()))
        }
    }
}

/// Whether a character is a decimal digit.
pub open spec fn is_digit(c: char) -> bool {
    '0' <= c && c <= '9'
}

/// The value of a decimal digit character.
pub open spec fn digit_value(c: char) -> int {
    c as int - 48
}

/// Whether a piece of text is a non-empty run of decimal digits.
pub open spec fn is_decimal(s: Seq<char>) -> bool {
    s.len() > 0 && forall|j: int| 0 <= j < s.len() ==> is_digit(s[j])
}

/// The number denoted by the first `i` characters of a digit run.
pub open spec fn decimal_value_prefix(s: Seq<char>, i: int) -> int
    decreases i,
{
    if i <= 0 {
        0
    } else {
        decimal_value_prefix(s, i - 1) * 10 + digit_value(s[i - 1])
    }
}

/// The number denoted by a run of decimal digits.
pub open spec fn decimal_value(s: Seq<char>) -> int {
    decimal_value_prefix(s, s.len() as int)
}

/// A digit run prefix denotes a non-negative number.
proof fn lemma_decimal_value_prefix_nonneg(s: Seq<char>, i: int)
    requires
        forall|k: int| 0 <= k < i ==> is_digit(#[trigger] s[k]),
    ensures
        decimal_value_prefix(s, i) >= 0,
    decreases i,
{
    if i > 0 {
        lemma_decimal_value_prefix_nonneg(s, i - 1);
        assert(decimal_value_prefix(s, i - 1) * 10 >= 0) by (nonlinear_arith)
            requires
                decimal_value_prefix(s, i - 1) >= 0,
        ;
    }
}

/// Reading further digits never makes the denoted number smaller.
proof fn lemma_decimal_value_prefix_grows(s: Seq<char>, i: int, j: int)
    requires
        0 <= i <= j,
        forall|k: int| 0 <= k < j ==> is_digit(#[trigger] s[k]),
    ensures
        decimal_value_prefix(s, i) <= decimal_value_prefix(s, j),
    decreases j - i,
{
    lemma_decimal_value_prefix_nonneg(s, i);
    if i < j {
        lemma_decimal_value_prefix_grows(s, i, j - 1);
        lemma_decimal_value_prefix_nonneg(s, j - 1);
        assert(decimal_value_prefix(s, j - 1) * 10 >= decimal_value_prefix(s, j - 1)) by (
        nonlinear_arith)
            requires
                decimal_value_prefix(s, j - 1) >= 0,
        ;
    }
}

/// The reason a piece of text does not denote a state.
#[derive(Debug)]
pub enum ParseError {
    /// The text is neither "H" nor a decimal state index.
    UnknownState(String),
}

impl ParseError {
    /// Whether two parse errors report the same offending text.
    pub open spec fn spec_same(&self, other: &ParseError) -> bool {
        match (*self, *other) {
            (ParseError::UnknownState(a), ParseError::UnknownState(b)) => a@ == b@,
        }
    }
}

impl PartialEq for ParseError {
    fn eq(&self, other: &ParseError) -> (r: bool) {
        match (self, other) {
            (ParseError::UnknownState(a), ParseError::UnknownState(b)) => <String as PartialEq>::eq(a, b),
        }
    }
}

impl Eq for ParseError {

}

impl vstd::std_specs::cmp::PartialEqSpecImpl for ParseError {
    open spec fn obeys_eq_spec() -> bool {
        true
    }

    open spec fn eq_spec(&self, other: &ParseError) -> bool {
        self.spec_same(other)
    }
}

/// Yields states in order, optionally starting with the halted state.
pub struct States {
    maximum: u8,
    current: Option<State>,
}

/// The numbered states from `from` up to (excluding) `to`, in order.
pub open spec fn number_range(from: int, to: int) -> Seq<State> {
    Seq::new(if to >= from {
        (to - from) as nat
    } else {
        0
    }, |i: int| State::Number((from + i) as u8))
}

impl States {
    /// The states this iterator will still yield, in order.
    pub closed spec fn remaining(&self) -> Seq<State> {
        match self.current {
            Some(State::Halted) => seq![State::Halted] + number_range(0, self.maximum as int),
            Some(State::Number(m)) => seq![State::Number(m)] + number_range(
                m as int + 1,
                self.maximum as int,
            ),
            None => seq![],
        }
    }

    /// The halted state, then the numbered states below `maximum`, in order.
    pub fn up_to(maximum: u8) -> (r: Self)
        ensures
            r.remaining() == seq![State::Halted] + number_range(0, maximum as int),
    {
        Self { maximum, current: Some(State::Halted) }
    }

    /// The numbered states below `maximum`, in order; state 0 is always yielded.
    pub fn non_halted_up_to(maximum: u8) -> (r: Self)
        ensures
            r.remaining() == seq![State::Number(0)] + number_range(1, maximum as int),
    {
        Self { maximum, current: Some(State::Number(0)) }
    }

    /// The next state, if any is left.
    pub fn next(&mut self) -> (r: Option<State>)
        ensures
            old(self).remaining().len() == 0 ==> r is None && final(self).remaining()
                == old(self).remaining(),
            old(self).remaining().len() > 0 ==> r == Some(old(self).remaining()[0]) && final(self).remaining() == old(self).remaining().drop_first(),
    {
        let item = self.current;
        self.current = match item {
            Some(State::Halted) => {
                if self.maximum > 0 {
                    Some(State::Number(0))
                } else {
                    None
                }
            },
            Some(State::Number(m)) => {
                if m < 255 && m + 1 < self.maximum {
                    Some(State::Number(m + 1))
                } else {
                    None
                }
            },
            _ => None,
        };
        proof {
            if old(self).remaining().len() > 0 {
                assert(final(self).remaining() =~= old(self).remaining().drop_first());
            }
        }
        item
    }
}

} // verus!
