//! Incomplete programs: transition tables with intentionally undecided
//! slots, standing for the whole family of complete programs that could
//! fill them in, and the extension step the search branches on.

use vstd::arithmetic::power::pow;
use vstd::prelude::*;

use crate::action::{action_at, Action, Actions};
use crate::key::Key;
use crate::program::{
    action_ok, count_undecided, lemma_multiplicity_bound, spec_multiplicity, Lookup, Program,
};
use crate::state::State;

verus! {

/// A transition table in which each slot is either a determined action or
/// explicitly undecided, together with the state count it is built for.
#[derive(Debug, PartialEq, Eq)]
pub struct IncompleteProgram {
    n: u8,
    program: Vec<Option<Action>>,
}

impl IncompleteProgram {
    /// Create a fully undecided program with `n` working states. State
    /// counts outside the supported one-to-five range are ruled out: their
    /// program spaces are either empty or astronomically large.
    pub fn with_states(n: u8) -> (r: Self)
        requires
            1 <= n <= 5,
        ensures
            r.wf(),
            r.state_count() == n as nat,
            r.slots() == Seq::new(2 * n as nat, |i: int| None::<Action>),
    {
        let mut program: Vec<Option<Action>> = Vec::new();
        let mut i: usize = 0;
        let len = 2 * (n as usize);
        while i < len
            invariant
                0 <= i <= len,
                program@ == Seq::new(i as nat, |j: int| None::<Action>),
            decreases len - i,
        {
            program.push(None);
            proof {
                assert(program@ =~= Seq::new(i as nat + 1, |j: int| None::<Action>));
            }
            i = i + 1;
        }
        Self { n, program }
    }

    /// Insert an action for a key. The key must lie within the table — an
    /// out-of-range insertion is a construction error — and the action must
    /// be admissible for this state count.
    pub fn insert(&mut self, key: Key, action: Action)
        requires
            old(self).wf(),
            key.spec_idx() < old(self).slots().len(),
            action_ok(action, old(self).state_count()),
        ensures
            final(self).wf(),
            final(self).state_count() == old(self).state_count(),
            final(self).slots() == old(self).slots().update(key.spec_idx(), Some(action)),
    {
        let idx = key.idx();
        self.program[idx] = Some(action);
    }

    /// Every way of deciding the slot for `key`, each a copy of this
    /// program with that slot filled: one program per action available up
    /// to the exploration bound.
    pub fn extentions(&self, key: Key) -> (r: Extentions)
        requires
            self.wf(),
            key.spec_idx() < self.slots().len(),
            key.state matches State::Number(s) && s < self.state_count(),
        ensures
            r.wf(),
            r.remaining() == Seq::new(
                (4 * explore_bound(self.slots(), self.state_count(), key) + 1) as nat,
                |d: int|
                    ExtendedProgram {
                        n: self.state_count(),
                        slots: self.slots().update(key.spec_idx(), Some(action_at(d))),
                    },
            ),
    {
        let ghost bound = explore_bound(self.slots(), self.state_count(), key);
        let k = match key.state {
            State::Number(s) => s,
            State::Halted => 0,
        };
        let mut seen: u8 = k;
        let mut i: usize = 0;
        let len = self.program.len();
        while i < len
            invariant
                0 <= i <= len == self.slots().len(),
                self.wf(),
                k < self.state_count(),
                seen as int == seen_state(self.slots().take(i as int), k as int),
                k <= seen < self.state_count(),
            decreases len - i,
        {
            proof {
                assert(self.slots().take(i as int + 1).drop_last() =~= self.slots().take(i as int));
                assert(self.slots().take(i as int + 1).last() == self.slots()[i as int]);
            }
            if self.program[i].is_some() {
                let s = (i / 2) as u8;
                if s > seen {
                    seen = s;
                }
            }
            i = i + 1;
        }
        proof {
            assert(self.slots().take(len as int) =~= self.slots());
        }
        let states_to_explore = if seen + 1 <= self.n - 1 {
            seen + 1
        } else {
            self.n - 1
        };
        let mut actions = Actions::up_to(states_to_explore + 1);
        let mut items: Vec<IncompleteProgram> = Vec::new();
        let ghost total = 4 * (states_to_explore as int + 1) + 1;
        loop
            invariant
                self.wf(),
                key.spec_idx() < self.slots().len(),
                bound == states_to_explore as int + 1,
                bound == explore_bound(self.slots(), self.state_count(), key),
                1 <= bound <= self.state_count(),
                total == 4 * bound + 1,
                items@.len() <= total,
                actions.remaining() == Seq::new(
                    (total - items@.len()) as nat,
                    |d: int| action_at(items@.len() + d),
                ),
                forall|d: int|
                    0 <= d < items@.len() ==> (#[trigger] items@[d]).wf() && items@[d].state_count()
                        == self.state_count() && items@[d].slots() == self.slots().update(
                        key.spec_idx(),
                        Some(action_at(d)),
                    ),
            ensures
                items@.len() == total,
                forall|d: int|
                    0 <= d < items@.len() ==> (#[trigger] items@[d]).wf() && items@[d].state_count()
                        == self.state_count() && items@[d].slots() == self.slots().update(
                        key.spec_idx(),
                        Some(action_at(d)),
                    ),
            decreases actions.remaining().len(),
        {
            let action = match actions.next() {
                Some(action) => action,
                None => {
                    break ;
                },
            };
            proof {
                assert(action == action_at(items@.len() as int));
                assert(action_ok(action, self.state_count())) by {
                    let d = items@.len() as int;
                    if d > 0 {
                        assert((d - 1) / 4 < bound);
                    }
                }
            }
            let mut copy = self.clone();
            copy.insert(key, action);
            items.push(copy);
        }
        let r = Extentions { items, index: 0 };
        proof {
            assert(r.remaining() =~= Seq::new(
                (4 * bound + 1) as nat,
                |d: int|
                    ExtendedProgram {
                        n: self.state_count(),
                        slots: self.slots().update(key.spec_idx(), Some(action_at(d))),
                    },
            ));
        }
        r
    }
}

impl Clone for IncompleteProgram {
    /// A deep, independent copy presenting the same table.
    fn clone(&self) -> (r: Self)
        ensures
            r.wf() == self.wf(),
            r.state_count() == self.state_count(),
            r.slots() == self.slots(),
    {
        let mut program: Vec<Option<Action>> = Vec::new();
        let len = self.program.len();
        let mut i: usize = 0;
        while i < len
            invariant
                0 <= i <= len == self.program@.len(),
                program@ == self.program@.take(i as int),
            decreases len - i,
        {
            program.push(self.program[i]);
            proof {
                assert(program@ =~= self.program@.take(i as int + 1));
            }
            i = i + 1;
        }
        proof {
            assert(self.program@.take(len as int) =~= self.program@);
        }
        Self { n: self.n, program }
    }
}

impl Program for IncompleteProgram {
    closed spec fn slots(&self) -> Seq<Option<Action>> {
        self.program@
    }

    closed spec fn state_count(&self) -> nat {
        self.n as nat
    }

    closed spec fn wf(&self) -> bool {
        &&& 1 <= self.n <= 5
        &&& self.program@.len() == 2 * self.n as nat
        &&& forall|i: int|
            0 <= i < self.program@.len() ==> ((#[trigger] self.program@[i]) matches Some(a)
                ==> action_ok(a, self.n as nat))
    }

    fn lookup(&self, key: &Key) -> (r: Lookup) {
        let idx = key.idx();
        if idx < self.program.len() {
            match self.program[idx] {
                Some(action) => Lookup::Determined(action),
                None => Lookup::Indeterminate,
            }
        } else {
            Lookup::Unknown
        }
    }

    fn multiplicity(&self) -> (r: usize) {
        let base = 4 * (self.n as usize) + 1;
        let len = self.program.len();
        let mut m: usize = 1;
        let mut i: usize = 0;
        proof {
            vstd::arithmetic::power::lemma_pow0(base as int);
            lemma_count_undecided_le(self.slots());
        }
        while i < len
            invariant
                0 <= i <= len == self.slots().len(),
                self.wf(),
                base == 4 * self.state_count() + 1,
                m == pow(base as int, count_undecided(self.slots().take(i as int))),
                count_undecided(self.slots().take(i as int)) <= count_undecided(self.slots()),
                pow(base as int, count_undecided(self.slots())) <= usize::MAX,
            decreases len - i,
        {
            proof {
                assert(self.slots().take(i as int + 1).drop_last() =~= self.slots().take(i as int));
                assert(self.slots().take(i as int + 1).last() == self.slots()[i as int]);
                lemma_count_undecided_le(self.slots());
                lemma_count_undecided_take_le(self.slots(), i as int);
                lemma_count_undecided_take_le(self.slots(), i as int + 1);
                lemma_multiplicity_bound(
                    base as nat,
                    count_undecided(self.slots().take(i as int + 1)),
                );
                lemma_multiplicity_bound(base as nat, count_undecided(self.slots().take(i as int)));
                assert(pow(base as int, count_undecided(self.slots().take(i as int)) + 1) == base
                    * pow(base as int, count_undecided(self.slots().take(i as int)))) by {
                    vstd::arithmetic::power::lemma_pow_adds(
                        base as int,
                        1,
                        count_undecided(self.slots().take(i as int)),
                    );
                    vstd::arithmetic::power::lemma_pow1(base as int);
                }
            }
            if self.program[i].is_none() {
                proof {
                    assert(count_undecided(self.slots().take(i as int + 1)) == count_undecided(
                        self.slots().take(i as int),
                    ) + 1);
                    assert(m * base == pow(
                        base as int,
                        count_undecided(self.slots().take(i as int + 1)),
                    ));
                    vstd::arithmetic::power::lemma_pow_increases(
                        base as nat,
                        count_undecided(self.slots().take(i as int + 1)),
                        count_undecided(self.slots()),
                    );
                    assert(m * base <= usize::MAX);
                }
                m = m * base;
            }
            i = i + 1;
        }
        proof {
            assert(self.slots().take(len as int) =~= self.slots());
        }
        m
    }
}

/// What a well-formed incomplete program guarantees: a supported state
/// count, two slots per state, and only admissible actions.
pub proof fn lemma_wf_facts(p: &IncompleteProgram)
    requires
        p.wf(),
    ensures
        1 <= p.state_count() <= 5,
        p.slots().len() == 2 * p.state_count(),
        forall|i: int|
            0 <= i < p.slots().len() ==> ((#[trigger] p.slots()[i]) matches Some(a) ==> action_ok(
                a,
                p.state_count(),
            )),
{
}

/// A prefix of a table has no more undecided slots than the whole.
proof fn lemma_count_undecided_take_le(slots: Seq<Option<Action>>, i: int)
    requires
        0 <= i <= slots.len(),
    ensures
        count_undecided(slots.take(i)) <= count_undecided(slots),
    decreases slots.len() - i,
{
    if i < slots.len() {
        lemma_count_undecided_take_le(slots, i + 1);
        assert(slots.take(i + 1).drop_last() =~= slots.take(i));
    } else {
        assert(slots.take(i) =~= slots);
    }
}

/// A table has no more undecided slots than slots.
pub proof fn lemma_count_undecided_le(slots: Seq<Option<Action>>)
    ensures
        count_undecided(slots) <= slots.len(),
    decreases slots.len(),
{
    if slots.len() > 0 {
        lemma_count_undecided_le(slots.drop_last());
    }
}

/// The highest state number that owns a decided slot among the first slots
/// of a table, the current key's state counting as seen.
pub open spec fn seen_state(slots: Seq<Option<Action>>, k: int) -> int
    decreases slots.len(),
{
    if slots.len() == 0 {
        k
    } else {
        let rest = seen_state(slots.drop_last(), k);
        if slots.last() is Some && (slots.len() - 1) / 2 > rest {
            (slots.len() - 1) / 2
        } else {
            rest
        }
    }
}

/// How many destination states an extension may use: one past the highest
/// state seen so far, capped at the state count. New state numbers are
/// introduced in increasing order — relabelling states is a symmetry not
/// worth re-exploring.
pub open spec fn explore_bound(slots: Seq<Option<Action>>, n: nat, key: Key) -> int {
    let k = key.state->Number_0 as int;
    let seen = seen_state(slots, k);
    if seen + 1 <= n - 1 {
        seen + 2
    } else {
        n as int
    }
}

/// The table an extension produces, for stating what `Extentions` yields.
#[verifier::ext_equal]
pub ghost struct ExtendedProgram {
    /// The state count of the extended program.
    pub n: nat,
    /// Its table.
    pub slots: Seq<Option<Action>>,
}

/// The family of programs that extend one program at one key.
pub struct Extentions {
    items: Vec<IncompleteProgram>,
    index: usize,
}

impl Extentions {
    /// The extended programs this iterator will still yield, in order of
    /// the action filled in.
    pub closed spec fn remaining(&self) -> Seq<ExtendedProgram> {
        if self.index <= self.items.len() {
            Seq::new(
                (self.items@.len() - self.index) as nat,
                |j: int|
                    ExtendedProgram {
                        n: self.items@[self.index + j].state_count(),
                        slots: self.items@[self.index + j].slots(),
                    },
            )
        } else {
            seq![]
        }
    }

    /// Whether every program yet to be yielded is well formed.
    pub closed spec fn wf(&self) -> bool {
        forall|j: int|
            self.index <= j < self.items.len() ==> (#[trigger] self.items@[j]).wf()
    }

    /// The next extended program, if any is left.
    pub fn next(&mut self) -> (r: Option<IncompleteProgram>)
        requires
            old(self).wf(),
        ensures
            final(self).wf(),
            old(self).remaining().len() == 0 ==> r is None && final(self).remaining()
                == old(self).remaining(),
            old(self).remaining().len() > 0 ==> (r matches Some(p) && p.wf() && p.state_count()
                == old(self).remaining()[0].n && p.slots() == old(self).remaining()[0].slots
                && final(self).remaining() == old(self).remaining().drop_first()),
    {
        if self.index < self.items.len() {
            let ghost j = self.index as int;
            let item = self.items[self.index].clone();
            self.index = self.index + 1;
            proof {
                assert(final(self).remaining() =~= old(self).remaining().drop_first());
            }
            Some(item)
        } else {
            None
        }
    }
}

/// Extending an undecided slot splits a program's multiplicity evenly over
/// the available actions: when every action is available — the exploration
/// bound has reached the state count — the multiplicities of the extensions
/// sum back to the multiplicity of the program they extend. Summed over a
/// whole search, this is what conserves the size of the program space.
pub proof fn lemma_branching_conserves_multiplicity(slots: Seq<Option<Action>>, n: nat, idx: int)
    requires
        0 <= idx < slots.len(),
        slots[idx] is None,
    ensures
        sum_multiplicity(
            Seq::new((4 * n + 1) as nat, |d: int| slots.update(idx, Some(action_at(d)))),
            n,
        ) == spec_multiplicity(slots, n),
{
    let exts = Seq::new((4 * n + 1) as nat, |d: int| slots.update(idx, Some(action_at(d))));
    let u = count_undecided(slots);
    lemma_update_none_decreases(slots, idx);
    assert(u >= 1);
    assert(forall|d: int|
        0 <= d < exts.len() ==> count_undecided(#[trigger] exts[d]) == u - 1);
    lemma_sum_constant(exts, n, pow(4 * n as int + 1, (u - 1) as nat));
    assert(pow(4 * n as int + 1, u) == (4 * n as int + 1) * pow(4 * n as int + 1, (u - 1) as nat))
        by {
        vstd::arithmetic::power::lemma_pow_adds(4 * n as int + 1, 1, (u - 1) as nat);
        vstd::arithmetic::power::lemma_pow1(4 * n as int + 1);
    }
}

/// Extending with a bounded action family never grows the multiplicity:
/// the extensions' multiplicities sum to at most the extended program's,
/// with equality exactly when every action was available.
pub proof fn lemma_branching_bounded_multiplicity(
    slots: Seq<Option<Action>>,
    n: nat,
    idx: int,
    b: int,
)
    requires
        0 <= idx < slots.len(),
        slots[idx] is None,
        1 <= b <= n,
    ensures
        sum_multiplicity(
            Seq::new((4 * b + 1) as nat, |d: int| slots.update(idx, Some(action_at(d)))),
            n,
        ) <= spec_multiplicity(slots, n),
        b == n ==> sum_multiplicity(
            Seq::new((4 * b + 1) as nat, |d: int| slots.update(idx, Some(action_at(d)))),
            n,
        ) == spec_multiplicity(slots, n),
{
    let exts = Seq::new((4 * b + 1) as nat, |d: int| slots.update(idx, Some(action_at(d))));
    let u = count_undecided(slots);
    lemma_update_none_decreases(slots, idx);
    assert(forall|d: int|
        0 <= d < exts.len() ==> count_undecided(#[trigger] exts[d]) == u - 1);
    let each = pow(4 * n as int + 1, (u - 1) as nat);
    lemma_sum_constant(exts, n, each);
    vstd::arithmetic::power::lemma_pow_positive(4 * n as int + 1, (u - 1) as nat);
    assert(pow(4 * n as int + 1, u) == (4 * n as int + 1) * each) by {
        vstd::arithmetic::power::lemma_pow_adds(4 * n as int + 1, 1, (u - 1) as nat);
        vstd::arithmetic::power::lemma_pow1(4 * n as int + 1);
    }
    assert((4 * b + 1) * each <= (4 * n as int + 1) * each) by (nonlinear_arith)
        requires
            1 <= b <= n,
            each >= 1,
    ;
}

/// The exploration bound of an extension is a real state count: at least
/// one, at most the program's; and with at most two states the bound is
/// always the full state count — the symmetry pruning never bites there.
pub proof fn lemma_explore_bound_range(slots: Seq<Option<Action>>, n: nat, key: Key)
    requires
        key.state matches State::Number(s) && (s as nat) < n,
    ensures
        1 <= explore_bound(slots, n, key) <= n,
        n <= 2 ==> explore_bound(slots, n, key) == n,
{
    lemma_seen_state_at_least(slots, key.state->Number_0 as int);
}

/// The highest state seen is at least the anchoring key's state.
proof fn lemma_seen_state_at_least(slots: Seq<Option<Action>>, k: int)
    ensures
        seen_state(slots, k) >= k,
    decreases slots.len(),
{
    if slots.len() > 0 {
        lemma_seen_state_at_least(slots.drop_last(), k);
    }
}

/// The total multiplicity of a family of tables.
pub open spec fn sum_multiplicity(tables: Seq<Seq<Option<Action>>>, n: nat) -> int
    decreases tables.len(),
{
    if tables.len() == 0 {
        0
    } else {
        sum_multiplicity(tables.drop_last(), n) + spec_multiplicity(tables.last(), n)
    }
}

/// A family of tables of one multiplicity has their number as its total.
proof fn lemma_sum_constant(tables: Seq<Seq<Option<Action>>>, n: nat, each: int)
    requires
        forall|d: int| 0 <= d < tables.len() ==> spec_multiplicity(#[trigger] tables[d], n) == each,
    ensures
        sum_multiplicity(tables, n) == tables.len() * each,
    decreases tables.len(),
{
    if tables.len() > 0 {
        lemma_sum_constant(tables.drop_last(), n, each);
        assert((tables.len() - 1) * each + each == tables.len() * each) by (nonlinear_arith);
    }
}

/// Deciding an undecided slot removes exactly one undecided slot.
proof fn lemma_update_none_decreases(slots: Seq<Option<Action>>, idx: int)
    requires
        0 <= idx < slots.len(),
        slots[idx] is None,
    ensures
        count_undecided(slots) >= 1,
        forall|a: Action|
            count_undecided(#[trigger] slots.update(idx, Some(a))) == count_undecided(slots) - 1,
    decreases slots.len(),
{
    assert forall|a: Action|
        count_undecided(#[trigger] slots.update(idx, Some(a))) == count_undecided(slots) - 1 by {
        lemma_update_none_removes(slots, idx, a);
    }
    lemma_update_none_removes(slots, idx, Action::Halt);
}

/// Deciding an undecided slot with one particular action removes exactly
/// one undecided slot.
pub proof fn lemma_update_none_removes(slots: Seq<Option<Action>>, idx: int, a: Action)
    requires
        0 <= idx < slots.len(),
        slots[idx] is None,
    ensures
        count_undecided(slots) >= 1,
        count_undecided(slots.update(idx, Some(a))) == count_undecided(slots) - 1,
    decreases slots.len(),
{
    let upd = slots.update(idx, Some(a));
    if idx == slots.len() - 1 {
        assert(upd.drop_last() =~= slots.drop_last());
        assert(upd.last() == Some(a));
        lemma_count_undecided_le(slots.drop_last());
    } else {
        lemma_update_none_removes(slots.drop_last(), idx, a);
        assert(upd.drop_last() =~= slots.drop_last().update(idx, Some(a)));
        assert(upd.last() == slots.last());
    }
}


/// The text of one slot: the action's token, or the undecided marker.
pub open spec fn slot_text(slot: Option<Action>) -> Seq<char> {
    match slot {
        Some(action) => crate::action::action_text(action),
        None => seq!['?', '?', '?'],
    }
}

/// The canonical text of a table of slots, space separated.
pub open spec fn table_text(slots: Seq<Option<Action>>) -> Seq<char>
    decreases slots.len(),
{
    if slots.len() == 0 {
        Seq::empty()
    } else if slots.len() == 1 {
        slot_text(slots[0])
    } else {
        table_text(slots.drop_last()) + seq![' '] + slot_text(slots.last())
    }
}

impl IncompleteProgram {
    /// The canonical text of this program: one token per slot in key
    /// order, an undecided slot shown as "???", separated by single
    /// spaces.
    pub fn render(&self) -> (r: String)
        requires
            self.wf(),
        ensures
            r@ == table_text(self.slots()),
    {
        proof {
            reveal_strlit(" ");
            reveal_strlit("???");
        }
        let mut r = String::new();
        let len = self.program.len();
        let mut i: usize = 0;
        while i < len
            invariant
                0 <= i <= len == self.slots().len(),
                self.wf(),
                r@ == table_text(self.slots().take(i as int)),
                " "@ == seq![' '],
                "???"@ == seq!['?', '?', '?'],
            decreases len - i,
        {
            proof {
                assert(self.slots().take(i as int + 1).drop_last() =~= self.slots().take(i as int));
                assert(self.slots().take(i as int + 1).last() == self.slots()[i as int]);
                if i == 0 {
                    assert(self.slots().take(1)[0] == self.slots()[0]);
                }
            }
            if i > 0 {
                r.append(" ");
            }
            match &self.program[i] {
                Some(action) => {
                    proof {
                        assert(crate::action::renderable(self.slots()[i as int]->0));
                    }
                    let token = action.render();
                    r.append(token.as_str());
                },
                None => {
                    r.append("???");
                },
            }
            i = i + 1;
        }
        proof {
            assert(self.slots().take(len as int) =~= self.slots());
        }
        r
    }
}

} // verus!
