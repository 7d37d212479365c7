//! Complete programs: a fully determined transition table, its textual
//! form, and the enumeration of every complete program for a state count.

use vstd::arithmetic::power::{lemma_pow0, lemma_pow_increases, pow};
use vstd::prelude::*;

use crate::action::{
    action_at, action_text, do_token_action, error_for_token, halt_token, is_do_token, renderable,
    Action, ParseError as ActionParseError,
};
use crate::direction::Direction;
use crate::key::{key_at, Key};
use crate::program::{
    count_undecided, lemma_multiplicity_bound, spec_lookup, spec_multiplicity, Lookup, Program,
};
use crate::state::State;
use crate::symbol::Symbol;

verus! {

/// A complete program: an action for every key, stored in key index order.
///
/// A table built in memory may carry a transition whose destination is the
/// halted state, and the machine performs it; the canonical boundaries —
/// the textual encoding and the enumeration — express halting only through
/// the halt action and never produce such a transition.
#[derive(Debug, PartialEq, Eq)]
pub struct CompleteProgram {
    program: Vec<Action>,
}

impl CompleteProgram {
    /// The stored actions, in key index order.
    pub closed spec fn actions(&self) -> Seq<Action> {
        self.program@
    }

    /// Create an empty complete program.
    pub fn new() -> (r: Self)
        ensures
            r.actions() == Seq::<Action>::empty(),
            r.wf(),
    {
        Self { program: Vec::new() }
    }

    /// The number of actions stored so far: two per state once complete.
    pub fn size(&self) -> (r: usize)
        ensures
            r == self.actions().len(),
    {
        self.program.len()
    }

    /// Insert an action for a key, shifting any actions stored at or after
    /// its index. Inserting past the end of the table is a construction
    /// error and is ruled out.
    pub fn insert(&mut self, key: Key, action: Action)
        requires
            key.spec_idx() <= old(self).actions().len(),
            old(self).actions().len() < usize::MAX,
        ensures
            final(self).wf(),
            final(self).actions() == old(self).actions().insert(key.spec_idx(), action),
    {
        let idx = key.idx();
        self.program.insert(idx, action);
    }
}

impl Program for CompleteProgram {
    open spec fn slots(&self) -> Seq<Option<Action>> {
        self.actions().map_values(|a: Action| Some(a))
    }

    open spec fn state_count(&self) -> nat {
        self.actions().len() / 2
    }

    open spec fn wf(&self) -> bool {
        true
    }

    fn lookup(&self, key: &Key) -> (r: Lookup) {
        let idx = key.idx();
        if idx < self.program.len() {
            Lookup::Determined(self.program[idx])
        } else {
            Lookup::Unknown
        }
    }

    fn multiplicity(&self) -> (r: usize) {
        proof {
            lemma_all_determined(self.program@);
            lemma_pow0(4 * self.state_count() as int + 1);
        }
        1
    }
}

/// A complete program represents exactly one concrete program: its table
/// has no undecided slot, so its multiplicity is one.
pub proof fn lemma_complete_multiplicity(program: &CompleteProgram)
    ensures
        count_undecided(program.slots()) == 0,
        spec_multiplicity(program.slots(), program.state_count()) == 1,
{
    lemma_all_determined(program.actions());
    lemma_pow0(4 * program.state_count() as int + 1);
}

/// What looking up a key in a complete program yields: the stored action
/// for every key within the table, and `Unknown` — never `Indeterminate` —
/// outside it.
pub proof fn lemma_complete_lookup(program: &CompleteProgram, key: Key)
    ensures
        0 <= key.spec_idx() < program.actions().len() ==> spec_lookup(program.slots(), key)
            == Lookup::Determined(program.actions()[key.spec_idx()]),
        !(0 <= key.spec_idx() < program.actions().len()) ==> spec_lookup(program.slots(), key)
            == Lookup::Unknown,
        spec_lookup(program.slots(), key) != Lookup::Indeterminate,
{
    assert(program.slots().len() == program.actions().len());
    if 0 <= key.spec_idx() < program.actions().len() {
        assert(program.slots()[key.spec_idx()] == Some(program.actions()[key.spec_idx()]));
    }
}

/// A table of stored actions has no undecided slot.
proof fn lemma_all_determined(actions: Seq<Action>)
    ensures
        count_undecided(actions.map_values(|a: Action| Some(a))) == 0,
    decreases actions.len(),
{
    let slots = actions.map_values(|a: Action| Some(a));
    if actions.len() > 0 {
        lemma_all_determined(actions.drop_last());
        assert(slots.drop_last() =~= actions.drop_last().map_values(|a: Action| Some(a)));
        assert(slots.last() == Some(actions.last()));
    } else {
        assert(slots.len() == 0);
    }
}

/// The number of three-character tokens laid out on a four-character grid
/// in a text of the given length.
pub open spec fn num_tokens(n: nat) -> nat {
    if n >= 3 {
        ((n - 3) / 4 + 1) as nat
    } else {
        0
    }
}

/// The token at grid slot `k`.
pub open spec fn token_at(s: Seq<char>, k: int) -> Seq<char> {
    s.subrange(4 * k, 4 * k + 3)
}

/// Whether a token denotes an action.
pub open spec fn token_valid(t: Seq<char>) -> bool {
    t == halt_token() || is_do_token(t)
}

/// The action a valid token denotes.
pub open spec fn token_action(t: Seq<char>) -> Action {
    if t == halt_token() {
        Action::Halt
    } else {
        do_token_action(t)
    }
}

/// Whether every token of a text denotes an action.
pub open spec fn tokens_good(s: Seq<char>) -> bool {
    forall|k: int| 0 <= k < num_tokens(s.len()) ==> token_valid(#[trigger] token_at(s, k))
}

/// The character standing between token `k` and its successor.
pub open spec fn separator_at(s: Seq<char>, k: int) -> char {
    s[4 * k + 3]
}

/// Whether every character standing between two tokens is a single space:
/// tokens must be whitespace separated.
pub open spec fn separators_good(s: Seq<char>) -> bool {
    forall|k: int| 0 <= k < num_tokens(s.len()) - 1 ==> separator_at(s, k) == ' '
}

impl CompleteProgram {
    /// Parse a whitespace-separated run of action tokens into a complete
    /// program: one token per key, in key index order, single spaces
    /// between tokens, and an even number of tokens, two per state. Empty
    /// input, a malformed token or separator — reported with its position
    /// and reason — and an odd token count are each rejected.
    pub fn from_str(input: &str) -> (r: Result<CompleteProgram, ParseError>)
        ensures
            input@.len() == 0 <==> r == Err::<CompleteProgram, ParseError>(ParseError::NoInput),
            r matches Ok(p) ==> p.wf() && tokens_good(input@) && separators_good(input@)
                && num_tokens(input@.len()) % 2 == 0 && p.actions() == Seq::new(
                num_tokens(input@.len()),
                |k: int| token_action(token_at(input@, k)),
            ),
            input@.len() > 0 && tokens_good(input@) && separators_good(input@) && num_tokens(
                input@.len(),
            ) % 2 == 0 ==> r is Ok,
            r matches Err(ParseError::InsufficientActions(k)) ==> tokens_good(input@)
                && separators_good(input@) && k == num_tokens(input@.len()) && k % 2 == 1,
            input@.len() > 0 && tokens_good(input@) && separators_good(input@) && num_tokens(
                input@.len(),
            ) % 2 == 1 ==> (r matches Err(ParseError::InsufficientActions(k)) && k == num_tokens(
                input@.len(),
            )),
            r matches Err(ParseError::ActionProblem(d)) ==> !(tokens_good(input@)
                && separators_good(input@)) && ((exists|k0: int|
                0 <= k0 < num_tokens(input@.len()) && !token_valid(#[trigger] token_at(input@, k0))
                    && d.index == 4 * k0 && error_for_token(token_at(input@, k0), d.error) && (
                forall|j: int| 0 <= j < k0 ==> token_valid(#[trigger] token_at(input@, j))) && (
                forall|j: int| 0 <= j < k0 ==> #[trigger] separator_at(input@, j) == ' ')) || (
            exists|k0: int|
                0 <= k0 < num_tokens(input@.len()) - 1 && #[trigger] separator_at(input@, k0)
                    != ' ' && d.index == 4 * k0 + 3 && (d.error matches ActionParseError::UnknownSymbol(
                    x,
                ) && x@ == seq![separator_at(input@, k0)]) && (forall|j: int|
                    0 <= j <= k0 ==> token_valid(#[trigger] token_at(input@, j))) && (forall|
                    j: int,
                |
                    0 <= j < k0 ==> #[trigger] separator_at(input@, j) == ' '))),
            input@.len() > 0 && !(tokens_good(input@) && separators_good(input@)) ==> r matches Err(
                ParseError::ActionProblem(_),
            ),
    {
        let n = input.unicode_len();
        if n == 0 {
            return Err(ParseError::NoInput);
        }
        let mut program = CompleteProgram::new();
        let mut action_index: usize = 0;
        if n >= 3 {
            let max_k = (n - 3) / 4;
            while action_index <= max_k
                invariant
                    0 < n == input@.len() <= usize::MAX,
                    n >= 3,
                    max_k == (n - 3) / 4,
                    action_index as int <= num_tokens(n as nat) == max_k + 1,
                    program.actions() == Seq::new(action_index as nat, |k: int| token_action(
                        token_at(input@, k),
                    )),
                    forall|j: int|
                        0 <= j < action_index ==> token_valid(#[trigger] token_at(input@, j)),
                    forall|j: int|
                        0 <= j < action_index && j < max_k ==> #[trigger] separator_at(input@, j)
                            == ' ',
                decreases max_k + 1 - action_index,
            {
                let index = 4 * action_index;
                let token = input.substring_char(index, index + 3);
                proof {
                    assert(token@ == token_at(input@, action_index as int));
                }
                match Action::from_str(token) {
                    Ok(action) => {
                        proof {
                            assert(token_valid(token_at(input@, action_index as int))
                                && token_action(token_at(input@, action_index as int)) == action) by {
                                if token@ == halt_token() {
                                } else {
                                    assert(is_do_token(token@));
                                }
                            }
                        }
                        program.program.push(action);
                        proof {
                            assert(program.actions() =~= Seq::new(
                                action_index as nat + 1,
                                |k: int| token_action(token_at(input@, k)),
                            ));
                        }
                        if action_index < max_k {
                            let sep = input.get_char(index + 3);
                            if sep != ' ' {
                                let sep_text = input.substring_char(index + 3, index + 4);
                                proof {
                                    assert(sep_text@ =~= seq![separator_at(
                                        input@,
                                        action_index as int,
                                    )]);
                                    assert(separator_at(input@, action_index as int) != ' ');
                                    assert(!separators_good(input@));
                                }
                                return Err(
                                    ParseError::ActionProblem(
                                        ActionProblemDetail {
                                            index: index + 3,
                                            error: ActionParseError::UnknownSymbol(
                                                sep_text.to_owned(),
                                            ),
                                        },
                                    ),
                                );
                            }
                        }
                    },
                    Err(error) => {
                        proof {
                            assert(!token_valid(token_at(input@, action_index as int)));
                            assert(action_index < num_tokens(n as nat));
                            assert(!tokens_good(input@));
                            assert(error_for_token(token_at(input@, action_index as int), error));
                        }
                        return Err(
                            ParseError::ActionProblem(ActionProblemDetail { index, error }),
                        );
                    },
                }
                action_index = action_index + 1;
            }
        }
        proof {
            assert(action_index as int == num_tokens(n as nat));
        }
        if action_index % 2 == 0 {
            Ok(program)
        } else {
            Err(ParseError::InsufficientActions(action_index))
        }
    }
}

/// The reason a piece of text does not denote a complete program.
#[derive(Debug)]
pub enum ParseError {
    /// A token is malformed; the detail says where and why.
    ActionProblem(ActionProblemDetail),
    /// The token count is odd: some state is missing one of its two
    /// transitions.
    InsufficientActions(usize),
    /// The text is empty.
    NoInput,
}

/// Where a malformed token starts, and what is wrong with it.
#[derive(Debug)]
pub struct ActionProblemDetail {
    /// The character position of the malformed token.
    pub index: usize,
    /// What was wrong with it.
    pub error: ActionParseError,
}

impl ParseError {
    /// Whether two parse errors report the same problem at the same place.
    pub open spec fn spec_same(&self, other: &ParseError) -> bool {
        match (*self, *other) {
            (ParseError::ActionProblem(a), ParseError::ActionProblem(b)) => a.index == b.index
                && a.error.spec_same(&b.error),
            (ParseError::InsufficientActions(a), ParseError::InsufficientActions(b)) => a == b,
            (ParseError::NoInput, ParseError::NoInput) => true,
            _ => false,
        }
    }
}

impl PartialEq for ParseError {
    fn eq(&self, other: &ParseError) -> (r: bool) {
        match (self, other) {
            (ParseError::ActionProblem(a), ParseError::ActionProblem(b)) => a.index == b.index
                && a.error == b.error,
            (ParseError::InsufficientActions(a), ParseError::InsufficientActions(b)) => a == b,
            (ParseError::NoInput, ParseError::NoInput) => true,
            _ => false,
        }
    }
}

impl Eq for ParseError {

}

impl vstd::std_specs::cmp::PartialEqSpecImpl for ParseError {
    open spec fn obeys_eq_spec() -> bool {
        true
    }

    open spec fn eq_spec(&self, other: &ParseError) -> bool {
        self.spec_same(other)
    }
}

/// Iterate the (key, action) pairs of a complete program in key order.
pub struct KeyActionIterator<'a> {
    index: usize,
    program: &'a CompleteProgram,
}

impl<'a> KeyActionIterator<'a> {
    /// The pairs this iterator will still yield, in order.
    pub closed spec fn remaining(&self) -> Seq<(Key, Action)> {
        if self.index <= self.program.actions().len() <= 512 {
            Seq::new(
                (self.program.actions().len() - self.index) as nat,
                |j: int| (key_at(self.index + j), self.program.actions()[self.index + j]),
            )
        } else {
            seq![]
        }
    }

    /// An iterator over a program's (key, action) pairs. A program's table
    /// is indexed by one byte per state, so it has at most 512 slots.
    pub fn new(program: &'a CompleteProgram) -> (r: Self)
        requires
            program.actions().len() <= 512,
        ensures
            r.remaining() == Seq::new(
                program.actions().len(),
                |j: int| (key_at(j), program.actions()[j]),
            ),
    {
        Self { index: 0, program }
    }

    /// The next (key, action) pair, if any is left.
    pub fn next(&mut self) -> (r: Option<(Key, Action)>)
        ensures
            old(self).remaining().len() == 0 ==> r is None && final(self).remaining()
                == old(self).remaining(),
            old(self).remaining().len() > 0 ==> r == Some(old(self).remaining()[0]) && final(self).remaining() == old(self).remaining().drop_first(),
    {
        if self.index < self.program.program.len() && self.program.program.len() <= 512 {
            let key = Key::from_index(self.index);
            let action = self.program.program[self.index];
            self.index = self.index + 1;
            proof {
                assert(final(self).remaining() =~= old(self).remaining().drop_first());
            }
            Some((key, action))
        } else {
            None
        }
    }
}

/// The action with a given index in the canonical action order.
fn action_from_digit(digit: u64) -> (r: Action)
    requires
        digit <= 1020,
    ensures
        r == action_at(digit as int),
{
    if digit == 0 {
        Action::Halt
    } else {
        let e = digit - 1;
        let symbol = if e % 4 >= 2 {
            Symbol::NonBlank
        } else {
            Symbol::Blank
        };
        let direction = if e % 2 == 1 {
            Direction::Right
        } else {
            Direction::Left
        };
        Action::Do { symbol, direction, state: State::Number((e / 4) as u8) }
    }
}

/// A power of a small base, for laying the program space out as numbers in
/// a mixed-radix system.
fn pow_exec(base: u64, exp: u64) -> (r: u64)
    requires
        1 <= base,
        pow(base as int, exp as nat) <= u64::MAX,
    ensures
        r == pow(base as int, exp as nat),
{
    let mut r: u64 = 1;
    let mut j: u64 = 0;
    proof {
        lemma_pow0(base as int);
    }
    while j < exp
        invariant
            0 <= j <= exp,
            1 <= base,
            r == pow(base as int, j as nat),
            pow(base as int, exp as nat) <= u64::MAX,
        decreases exp - j,
    {
        proof {
            lemma_pow_monotone_exec(base as nat, j as nat + 1, exp as nat);
            assert(pow(base as int, j as nat + 1) == base * pow(base as int, j as nat)) by {
                vstd::arithmetic::power::lemma_pow_adds(base as int, 1, j as nat);
                vstd::arithmetic::power::lemma_pow1(base as int);
            }
        }
        r = r * base;
        j = j + 1;
    }
    r
}

/// A power with a smaller exponent is no larger.
proof fn lemma_pow_monotone_exec(b: nat, e1: nat, e2: nat)
    requires
        b >= 1,
        e1 <= e2,
    ensures
        pow(b as int, e1) <= pow(b as int, e2),
{
    lemma_pow_increases(b, e1, e2);
}

/// The `k`-th digit, most significant first, of `i` written in base
/// `4 * n + 1` with `2 * n` digits: which action the `k`-th key takes in
/// the `i`-th program.
pub open spec fn digit_of(n: nat, i: int, k: int) -> int {
    (i / pow(4 * n as int + 1, (2 * n - 1 - k) as nat)) % (4 * n as int + 1)
}

/// The `i`-th complete program with `n` states, in the fixed enumeration
/// order: lexicographic over (key index, action index).
pub open spec fn program_at(n: nat, i: int) -> Seq<Action> {
    Seq::new(2 * n, |k: int| action_at(digit_of(n, i, k)))
}

/// Enumerates every complete program for a state count, in a fixed
/// lexicographic order, by counting through the program space in a
/// mixed-radix number system: one digit per key, one value per action.
pub struct CompletePrograms {
    n: u8,
    index: u64,
    total: u64,
}

impl CompletePrograms {
    /// The representation invariant: a supported state count, and the
    /// position within the full program space.
    pub closed spec fn wf(&self) -> bool {
        &&& 1 <= self.n <= 5
        &&& self.total == pow(4 * self.n as int + 1, 2 * self.n as nat)
        &&& self.index <= self.total
    }

    /// The state count being enumerated.
    pub closed spec fn state_count(&self) -> nat {
        self.n as nat
    }

    /// How many programs are still to come.
    pub closed spec fn remaining(&self) -> int {
        self.total - self.index
    }

    /// The position reached in the enumeration order.
    pub closed spec fn position(&self) -> int {
        self.index as int
    }

    /// Enumerate all complete programs with `n` states: exactly
    /// `(4n + 1) ^ (2n)` of them. State counts above five are outside the
    /// supported range: the space would be astronomically large.
    pub fn all(n: u8) -> (r: Self)
        requires
            1 <= n <= 5,
        ensures
            r.wf(),
            r.state_count() == n as nat,
            r.position() == 0,
            r.remaining() == pow(4 * n as int + 1, 2 * n as nat),
    {
        proof {
            lemma_multiplicity_bound(4 * n as nat + 1, 2 * n as nat);
        }
        let total = pow_exec(4 * (n as u64) + 1, 2 * (n as u64));
        Self { n, index: 0, total }
    }

    /// The next program, if the enumeration is not exhausted: the one at
    /// the current position of the fixed order.
    pub fn next(&mut self) -> (r: Option<CompleteProgram>)
        requires
            old(self).wf(),
        ensures
            final(self).wf(),
            final(self).state_count() == old(self).state_count(),
            old(self).remaining() == 0 ==> r is None && final(self).remaining() == 0,
            old(self).remaining() > 0 ==> (r matches Some(p) && p.actions() == program_at(
                old(self).state_count(),
                old(self).position(),
            ) && p.wf() && final(self).remaining() == old(self).remaining() - 1 && final(self).position() == old(self).position() + 1),
    {
        if self.index >= self.total {
            return None;
        }
        let base = 4 * (self.n as u64) + 1;
        let width = 2 * (self.n as u64);
        let mut program = CompleteProgram::new();
        let mut k: u64 = 0;
        proof {
            lemma_multiplicity_bound(base as nat, 2 * self.n as nat);
        }
        while k < width
            invariant
                0 <= k <= width,
                base == 4 * self.n as int + 1,
                width == 2 * self.n as int,
                1 <= self.n <= 5,
                pow(base as int, width as nat) <= u64::MAX,
                program.actions() == Seq::new(k as nat, |j: int| action_at(
                    digit_of(self.n as nat, self.index as int, j),
                )),
            decreases width - k,
        {
            let e = width - 1 - k;
            proof {
                lemma_pow_monotone_exec(base as nat, e as nat, width as nat);
            }
            let place = pow_exec(base, e);
            proof {
                vstd::arithmetic::power::lemma_pow_positive(base as int, e as nat);
            }
            let digit = (self.index / place) % base;
            proof {
                assert(digit as int == digit_of(self.n as nat, self.index as int, k as int));
                assert(digit < base);
            }
            let action = action_from_digit(digit);
            program.program.push(action);
            proof {
                assert(program.actions() =~= Seq::new(k as nat + 1, |j: int| action_at(
                    digit_of(self.n as nat, self.index as int, j),
                )));
            }
            k = k + 1;
        }
        proof {
            assert(program.actions() =~= program_at(self.n as nat, self.index as int));
        }
        self.index = self.index + 1;
        Some(program)
    }
}


/// The canonical text of a run of action tokens, space separated.
pub open spec fn program_text(actions: Seq<Action>) -> Seq<char>
    decreases actions.len(),
{
    if actions.len() == 0 {
        Seq::empty()
    } else if actions.len() == 1 {
        action_text(actions[0])
    } else {
        program_text(actions.drop_last()) + seq![' '] + action_text(actions.last())
    }
}

impl CompleteProgram {
    /// The canonical text of this program: its action tokens in key order,
    /// separated by single spaces. Destination states must have one-digit
    /// indices, as the token format requires.
    pub fn render(&self) -> (r: String)
        requires
            forall|i: int|
                0 <= i < self.actions().len() ==> renderable(#[trigger] self.actions()[i]),
        ensures
            r@ == program_text(self.actions()),
    {
        proof {
            reveal_strlit(" ");
        }
        let mut r = String::new();
        let len = self.program.len();
        let mut i: usize = 0;
        while i < len
            invariant
                0 <= i <= len == self.actions().len(),
                forall|j: int|
                    0 <= j < self.actions().len() ==> renderable(#[trigger] self.actions()[j]),
                r@ == program_text(self.actions().take(i as int)),
                " "@ == seq![' '],
            decreases len - i,
        {
            proof {
                assert(self.actions().take(i as int + 1).drop_last() =~= self.actions().take(
                    i as int,
                ));
                assert(self.actions().take(i as int + 1).last() == self.actions()[i as int]);
                if i == 0 {
                    assert(self.actions().take(1)[0] == self.actions()[0]);
                }
            }
            if i > 0 {
                r.append(" ");
            }
            let token = self.program[i].render();
            r.append(token.as_str());
            i = i + 1;
        }
        proof {
            assert(self.actions().take(len as int) =~= self.actions());
        }
        r
    }
}


/// The text of a run of tokens is four characters per token, less the
/// final separator.
proof fn lemma_program_text_len(actions: Seq<Action>)
    requires
        actions.len() >= 1,
    ensures
        program_text(actions).len() == 4 * actions.len() - 1,
    decreases actions.len(),
{
    if actions.len() > 1 {
        lemma_program_text_len(actions.drop_last());
    }
}

/// Each token of a rendered program is the text of its action.
proof fn lemma_program_text_tokens(actions: Seq<Action>, k: int)
    requires
        0 <= k < actions.len(),
    ensures
        token_at(program_text(actions), k) == action_text(actions[k]),
    decreases actions.len(),
{
    let text = program_text(actions);
    lemma_program_text_len(actions);
    if actions.len() == 1 {
        assert(token_at(text, 0) =~= action_text(actions[0]));
    } else {
        let prev = program_text(actions.drop_last());
        lemma_program_text_len(actions.drop_last());
        if k < actions.len() - 1 {
            lemma_program_text_tokens(actions.drop_last(), k);
            assert(token_at(text, k) =~= token_at(prev, k));
            assert(actions.drop_last()[k] == actions[k]);
        } else {
            assert(token_at(text, k) =~= action_text(actions.last()));
        }
    }
}

/// The text of a renderable action is a valid token denoting it back.
proof fn lemma_action_token(action: Action)
    requires
        renderable(action),
    ensures
        token_valid(action_text(action)),
        token_action(action_text(action)) == action,
{
    let t = action_text(action);
    match action {
        Action::Halt => {},
        Action::Do { symbol, direction, state } => {
            assert(t[0] == crate::action::symbol_char(symbol));
            assert(t[0] != ' ');
            assert(t != halt_token()) by {
                if t == halt_token() {
                    assert(t[0] == ' ');
                }
            }
            let s = state->Number_0;
            assert(crate::state::is_digit(crate::action::state_char(s)) && crate::state::digit_value(
                crate::action::state_char(s),
            ) == s) by {
                assert(crate::action::state_char(s) == seq![
                    '0', '1', '2', '3', '4', '5', '6', '7', '8', '9',
                ][s as int]);
            }
            assert(is_do_token(t));
            assert(do_token_action(t) == action);
        },
    }
}

/// Each character between two tokens of a rendered program is a space.
proof fn lemma_program_text_separators(actions: Seq<Action>, k: int)
    requires
        0 <= k < actions.len() - 1,
    ensures
        separator_at(program_text(actions), k) == ' ',
    decreases actions.len(),
{
    let text = program_text(actions);
    lemma_program_text_len(actions);
    let prev = program_text(actions.drop_last());
    lemma_program_text_len(actions.drop_last());
    if k < actions.len() - 2 {
        lemma_program_text_separators(actions.drop_last(), k);
        assert(text[4 * k + 3] == prev[4 * k + 3]);
    } else {
        assert(text[4 * k + 3] == ' ');
    }
}

/// Round trip: rendering a program and parsing the text back yields the
/// very same program. Together with the parser's contract this pins the
/// canonical textual encoding: for a non-empty, even table of renderable
/// actions, `from_str` applied to `program_text` returns `Ok` with exactly
/// the original actions.
pub proof fn lemma_text_round_trip(actions: Seq<Action>)
    requires
        actions.len() >= 1,
        actions.len() % 2 == 0,
        forall|i: int| 0 <= i < actions.len() ==> renderable(#[trigger] actions[i]),
    ensures
        program_text(actions).len() > 0,
        num_tokens(program_text(actions).len()) == actions.len(),
        tokens_good(program_text(actions)),
        separators_good(program_text(actions)),
        num_tokens(program_text(actions).len()) % 2 == 0,
        Seq::new(num_tokens(program_text(actions).len()), |k: int| token_action(
            token_at(program_text(actions), k),
        )) == actions,
{
    let text = program_text(actions);
    lemma_program_text_len(actions);
    assert(num_tokens(text.len()) == actions.len());
    assert forall|k: int| 0 <= k < num_tokens(text.len()) implies token_valid(
        #[trigger] token_at(text, k),
    ) by {
        lemma_program_text_tokens(actions, k);
        lemma_action_token(actions[k]);
    }
    assert forall|k: int| 0 <= k < num_tokens(text.len()) - 1 implies separator_at(text, k)
        == ' ' by {
        lemma_program_text_separators(actions, k);
    }
    assert forall|k: int| 0 <= k < actions.len() implies token_action(token_at(text, k))
        == actions[k] by {
        lemma_program_text_tokens(actions, k);
        lemma_action_token(actions[k]);
    }
    assert(Seq::new(num_tokens(text.len()), |k: int| token_action(token_at(text, k)))
        =~= actions);
}

} // verus!
