//! A program tells a Turing machine how to behave: the capability interface
//! shared by complete and incomplete transition tables.

use vstd::arithmetic::power::{lemma_pow0, lemma_pow_increases, pow};
use vstd::prelude::*;

use crate::action::Action;
use crate::key::Key;
use crate::state::State;

verus! {

/// The result of looking up a key in a program.
#[derive(Debug, PartialEq, Eq, Structural, Copy, Clone)]
pub enum Lookup {
    /// The key is outside the program's table: a semantic defect.
    Unknown,
    /// The key's slot is intentionally undecided; the program can still be
    /// extended there.
    Indeterminate,
    /// The action the program prescribes for the key.
    Determined(Action),
}

/// What looking up a key in a table of slots yields: the stored action, the
/// undecided marker, or — outside the table — nothing at all.
pub open spec fn spec_lookup(slots: Seq<Option<Action>>, key: Key) -> Lookup {
    if 0 <= key.spec_idx() < slots.len() {
        match slots[key.spec_idx()] {
            Some(action) => Lookup::Determined(action),
            None => Lookup::Indeterminate,
        }
    } else {
        Lookup::Unknown
    }
}

/// The number of undecided slots in a table.
pub open spec fn count_undecided(slots: Seq<Option<Action>>) -> nat
    decreases slots.len(),
{
    if slots.len() == 0 {
        0
    } else {
        count_undecided(slots.drop_last()) + if slots.last() is None {
            1nat
        } else {
            0nat
        }
    }
}

/// How many concrete programs a table with undecided slots stands for: each
/// of them can independently take any of the `4 * n + 1` actions available
/// with `n` states.
pub open spec fn spec_multiplicity(slots: Seq<Option<Action>>, n: nat) -> int {
    pow(4 * n as int + 1, count_undecided(slots))
}

/// Whether an action is admissible in a program with `n` working states:
/// a halt, or a transition into one of those states. The halted state is
/// reached only through the halt action, never as a destination.
pub open spec fn action_ok(action: Action, n: nat) -> bool {
    match action {
        Action::Halt => true,
        Action::Do { state, .. } => state matches State::Number(s) && s < n,
    }
}

/// The capability interface of a program: looking up the action for a key,
/// and the number of concrete programs represented.
pub trait Program: Sized {
    /// The table of slots, one per key index, an undecided slot being
    /// `None`.
    spec fn slots(&self) -> Seq<Option<Action>>;

    /// The number of working states the program is built for.
    spec fn state_count(&self) -> nat;

    /// The representation invariant.
    spec fn wf(&self) -> bool;

    /// Look up the action for a key.
    fn lookup(&self, key: &Key) -> (r: Lookup)
        requires
            self.wf(),
        ensures
            r == spec_lookup(self.slots(), *key),
    ;

    /// The number of concrete programs this value represents: 1 for a fully
    /// determined table. The count must fit the machine word it is returned
    /// in.
    fn multiplicity(&self) -> (r: usize)
        requires
            self.wf(),
            spec_multiplicity(self.slots(), self.state_count()) <= usize::MAX,
        ensures
            r == spec_multiplicity(self.slots(), self.state_count()),
    ;
}

/// A power of a base up to 21 with exponent up to 10 — every multiplicity a
/// supported program can have — is positive and comfortably fits a `usize`.
pub proof fn lemma_multiplicity_bound(b: nat, e: nat)
    requires
        1 <= b <= 21,
        e <= 10,
    ensures
        1 <= pow(b as int, e) <= 16679880978201,
{
    lemma_pow_le_base(b, 21, e);
    lemma_pow21_values();
    lemma_pow_increases(21, e, 10);
    lemma_pow_positive_small(b, e);
}

/// A power is positive for a positive base.
proof fn lemma_pow_positive_small(b: nat, e: nat)
    requires
        b >= 1,
    ensures
        pow(b as int, e) >= 1,
    decreases e,
{
    reveal(pow);
    if e > 0 {
        lemma_pow_positive_small(b, (e - 1) as nat);
        assert(pow(b as int, e) == b * pow(b as int, (e - 1) as nat));
        assert(b * pow(b as int, (e - 1) as nat) >= pow(b as int, (e - 1) as nat)) by (
        nonlinear_arith)
            requires
                b >= 1,
                pow(b as int, (e - 1) as nat) >= 1,
        ;
    } else {
        lemma_pow0(b as int);
    }
}

/// A power grows with its base.
proof fn lemma_pow_le_base(b: nat, c: nat, e: nat)
    requires
        1 <= b <= c,
    ensures
        pow(b as int, e) <= pow(c as int, e),
    decreases e,
{
    reveal(pow);
    if e > 0 {
        lemma_pow_le_base(b, c, (e - 1) as nat);
        lemma_pow_positive_small(b, (e - 1) as nat);
        assert(b * pow(b as int, (e - 1) as nat) <= c * pow(c as int, (e - 1) as nat)) by (
        nonlinear_arith)
            requires
                0 <= b <= c,
                1 <= pow(b as int, (e - 1) as nat) <= pow(c as int, (e - 1) as nat),
        ;
    }
}

/// The value of 21 to the 10th: the multiplicity of a fully undecided
/// five-state program.
proof fn lemma_pow21_values()
    ensures
        pow(21, 10) == 16679880978201,
{
    reveal_with_fuel(pow, 11);
    assert(pow(21, 0) == 1);
    assert(pow(21, 1) == 21);
    assert(pow(21, 2) == 441);
    assert(pow(21, 3) == 9261);
    assert(pow(21, 4) == 194481);
    assert(pow(21, 5) == 4084101);
    assert(pow(21, 6) == 85766121);
    assert(pow(21, 7) == 1801088541);
    assert(pow(21, 8) == 37822859361);
    assert(pow(21, 9) == 794280046581);
    assert(pow(21, 10) == 16679880978201);
}

} // verus!
