//! A tape using run-length encoding: each side of the head is a stack of
//! (symbol, occurrence) runs, nearest run last, with an infinite run of
//! blanks as a sentinel at the bottom of each stack.

use vstd::prelude::*;

use crate::direction::Direction;
use crate::symbol::Symbol;
use crate::tape::{
    count_range, lemma_census_count_range, lemma_count_range_le, lemma_count_range_lo,
    lemma_count_range_nonblank, lemma_count_range_split, Tape, TapeModel,
};

verus! {

/// How often a run's symbol repeats: a finite count, or the endless run of
/// blanks that closes off each side of the tape.
#[derive(Debug, PartialEq, Eq, Structural, Copy, Clone)]
pub enum Occurrence {
    /// The sentinel: infinitely many repetitions, never used up.
    Infinite,
    /// A finite repetition count. Zero is a valid spent value, never stored
    /// in a tape.
    Finite(usize),
}

impl Occurrence {
    /// One more repetition; the infinite run stays infinite.
    pub fn increment(&self) -> (r: Self)
        requires
            self matches Occurrence::Finite(n) ==> n < usize::MAX,
        ensures
            r == self.spec_increment(),
    {
        match self {
            Occurrence::Infinite => Occurrence::Infinite,
            Occurrence::Finite(n) => Occurrence::Finite(n + 1),
        }
    }

    /// What `increment` returns.
    pub open spec fn spec_increment(self) -> Self {
        match self {
            Occurrence::Infinite => Occurrence::Infinite,
            Occurrence::Finite(n) => Occurrence::Finite((n + 1) as usize),
        }
    }

    /// One fewer repetition; the infinite run stays infinite and a spent
    /// run stays spent.
    pub fn decrement(&self) -> (r: Self)
        ensures
            r == self.spec_decrement(),
    {
        match self {
            Occurrence::Infinite => Occurrence::Infinite,
            Occurrence::Finite(n) => {
                if *n > 0 {
                    Occurrence::Finite(n - 1)
                } else {
                    Occurrence::Finite(0)
                }
            },
        }
    }

    /// What `decrement` returns.
    pub open spec fn spec_decrement(self) -> Self {
        match self {
            Occurrence::Infinite => Occurrence::Infinite,
            Occurrence::Finite(n) => if n > 0 {
                Occurrence::Finite((n - 1) as usize)
            } else {
                Occurrence::Finite(0)
            },
        }
    }

    /// The number of cells a run of this occurrence materializes; the
    /// sentinel materializes none.
    pub fn count(&self) -> (r: usize)
        ensures
            r == self.spec_count(),
    {
        match self {
            Occurrence::Infinite => 0,
            Occurrence::Finite(n) => *n,
        }
    }

    /// What `count` returns.
    pub open spec fn spec_count(self) -> nat {
        match self {
            Occurrence::Infinite => 0,
            Occurrence::Finite(n) => n as nat,
        }
    }

    /// How two occurrences compare: any finite count is below the infinite
    /// sentinel.
    pub open spec fn spec_cmp(self, other: Self) -> core::cmp::Ordering {
        match (self, other) {
            (Occurrence::Infinite, Occurrence::Infinite) => core::cmp::Ordering::Equal,
            (Occurrence::Finite(_), Occurrence::Infinite) => core::cmp::Ordering::Less,
            (Occurrence::Infinite, Occurrence::Finite(_)) => core::cmp::Ordering::Greater,
            (Occurrence::Finite(l), Occurrence::Finite(r)) => if l < r {
                core::cmp::Ordering::Less
            } else if l == r {
                core::cmp::Ordering::Equal
            } else {
                core::cmp::Ordering::Greater
            },
        }
    }
}

impl PartialOrd for Occurrence {
    fn partial_cmp(&self, other: &Occurrence) -> (r: Option<core::cmp::Ordering>) {
        match (self, other) {
            (Occurrence::Infinite, Occurrence::Infinite) => Some(core::cmp::Ordering::Equal),
            (Occurrence::Finite(_), Occurrence::Infinite) => Some(core::cmp::Ordering::Less),
            (Occurrence::Infinite, Occurrence::Finite(_)) => Some(core::cmp::Ordering::Greater),
            (Occurrence::Finite(l), Occurrence::Finite(r)) => {
                if l < r {
                    Some(core::cmp::Ordering::Less)
                } else if l == r {
                    Some(core::cmp::Ordering::Equal)
                } else {
                    Some(core::cmp::Ordering::Greater)
                }
            },
        }
    }
}

impl vstd::std_specs::cmp::PartialOrdSpecImpl for Occurrence {
    open spec fn obeys_partial_cmp_spec() -> bool {
        true
    }

    open spec fn partial_cmp_spec(&self, other: &Occurrence) -> Option<core::cmp::Ordering> {
        Some(self.spec_cmp(*other))
    }
}

/// The cells a single run materializes, nearest cell first; the sentinel
/// materializes none.
pub open spec fn run_seq(run: (Symbol, Occurrence)) -> Seq<Symbol> {
    Seq::new(run.1.spec_count(), |i: int| run.0)
}

/// The cells one side of the tape materializes, nearest cell first: the
/// run on top of the stack comes first.
pub open spec fn side_seq(stack: Seq<(Symbol, Occurrence)>) -> Seq<Symbol>
    decreases stack.len(),
{
    if stack.len() == 0 {
        Seq::empty()
    } else {
        run_seq(stack.last()) + side_seq(stack.drop_last())
    }
}

/// A well-formed side: the sentinel at the bottom, nothing but live finite
/// runs above it, and no two adjacent runs carrying the same symbol — the
/// split and merge rules keep the encoding normalized.
pub open spec fn side_wf(stack: Seq<(Symbol, Occurrence)>) -> bool {
    &&& stack.len() >= 1
    &&& stack[0] == (Symbol::Blank, Occurrence::Infinite)
    &&& forall|i: int|
        1 <= i < stack.len() ==> ((#[trigger] stack[i]).1 matches Occurrence::Finite(k) && k >= 1)
    &&& forall|i: int| 0 <= i < stack.len() - 1 ==> (#[trigger] stack[i]).0 != stack[i + 1].0
}

/// A side after the head departs from it: the nearest run gives up one
/// cell — decremented, or dropped outright when it was a singleton — while
/// the bare sentinel just supplies one of its endless blanks.
pub open spec fn departed(stack: Seq<(Symbol, Occurrence)>) -> Seq<(Symbol, Occurrence)> {
    match stack.last().1 {
        Occurrence::Infinite => stack,
        Occurrence::Finite(k) => if k > 1 {
            stack.drop_last().push((stack.last().0, Occurrence::Finite((k - 1) as usize)))
        } else {
            stack.drop_last()
        },
    }
}

/// A side after the head arrives at it carrying a cell: the cell merges
/// into the nearest run when the symbols agree — the sentinel absorbs a
/// blank — and becomes a new singleton run otherwise.
pub open spec fn arrived(stack: Seq<(Symbol, Occurrence)>, symbol: Symbol) -> Seq<
    (Symbol, Occurrence),
> {
    if stack.last().0 == symbol {
        stack.drop_last().push((stack.last().0, stack.last().1.spec_increment()))
    } else {
        stack.push((symbol, Occurrence::Finite(1)))
    }
}

/// The side under the head after writing a symbol there: nothing changes
/// when the nearest run already carries it; otherwise that run gives up
/// the cell — splitting, or dropping a spent singleton so the symbol can
/// merge into a matching neighbour — and the cell rejoins as the written
/// symbol.
pub open spec fn written_stack(stack: Seq<(Symbol, Occurrence)>, symbol: Symbol) -> Seq<
    (Symbol, Occurrence),
> {
    if stack.last().0 == symbol {
        stack
    } else {
        arrived(departed(stack), symbol)
    }
}

/// How many cells a symbol occupies in a materialized side.
pub open spec fn count_in_seq(s: Seq<Symbol>, target: Symbol) -> nat
    decreases s.len(),
{
    if s.len() == 0 {
        0
    } else {
        count_in_seq(s.drop_last(), target) + if s.last() == target {
            1nat
        } else {
            0nat
        }
    }
}

/// A symbol count never exceeds the side's length.
proof fn lemma_count_in_seq_le(s: Seq<Symbol>, target: Symbol)
    ensures
        count_in_seq(s, target) <= s.len(),
    decreases s.len(),
{
    if s.len() > 0 {
        lemma_count_in_seq_le(s.drop_last(), target);
    }
}

/// Symbol counts add up over concatenation.
proof fn lemma_count_in_seq_concat(a: Seq<Symbol>, b: Seq<Symbol>, target: Symbol)
    ensures
        count_in_seq(a + b, target) == count_in_seq(a, target) + count_in_seq(b, target),
    decreases b.len(),
{
    if b.len() == 0 {
        assert(a + b =~= a);
    } else {
        lemma_count_in_seq_concat(a, b.drop_last(), target);
        assert((a + b).drop_last() =~= a + b.drop_last());
        assert((a + b).last() == b.last());
    }
}

/// The symbol count of a uniform run.
proof fn lemma_count_in_run(run: (Symbol, Occurrence), target: Symbol)
    ensures
        count_in_seq(run_seq(run), target) == if run.0 == target {
            run.1.spec_count()
        } else {
            0
        },
    decreases run.1.spec_count(),
{
    let s = run_seq(run);
    if run.1.spec_count() > 0 {
        let smaller = (run.0, Occurrence::Finite((run.1.spec_count() - 1) as usize));
        assert(s.drop_last() =~= run_seq(smaller));
        lemma_count_in_run(smaller, target);
    }
}

/// The symbol count of a one-cell side.
proof fn lemma_count_in_seq_singleton(x: Symbol, target: Symbol)
    ensures
        count_in_seq(seq![x], target) == if x == target {
            1nat
        } else {
            0nat
        },
{
    assert(seq![x].drop_last() =~= Seq::<Symbol>::empty());
    assert(count_in_seq(Seq::<Symbol>::empty(), target) == 0);
    assert(seq![x].last() == x);
}

/// A symbol count can be peeled at the cell nearest the head.
proof fn lemma_count_in_seq_first(s: Seq<Symbol>, target: Symbol)
    requires
        s.len() > 0,
    ensures
        count_in_seq(s, target) == count_in_seq(s.drop_first(), target) + if s[0] == target {
            1nat
        } else {
            0nat
        },
{
    assert(s =~= seq![s[0]] + s.drop_first());
    lemma_count_in_seq_concat(seq![s[0]], s.drop_first(), target);
    lemma_count_in_seq_singleton(s[0], target);
}

/// Prepending one cell adds at most it to a symbol count.
proof fn lemma_count_in_seq_prepend(x: Symbol, s: Seq<Symbol>, target: Symbol)
    ensures
        count_in_seq(seq![x] + s, target) == count_in_seq(s, target) + if x == target {
            1nat
        } else {
            0nat
        },
{
    lemma_count_in_seq_concat(seq![x], s, target);
    lemma_count_in_seq_singleton(x, target);
}

/// Pushing a run onto a stack prepends its cells to the side.
proof fn lemma_side_push(stack: Seq<(Symbol, Occurrence)>, run: (Symbol, Occurrence))
    ensures
        side_seq(stack.push(run)) == run_seq(run) + side_seq(stack),
{
    assert(stack.push(run).last() == run);
    assert(stack.push(run).drop_last() =~= stack);
}

/// A side whose cells match a map rightwards from `lo` counts its symbols
/// exactly as the map's range does.
proof fn lemma_count_range_matches_fwd(
    cells: Map<int, Symbol>,
    lo: int,
    s: Seq<Symbol>,
    target: Symbol,
)
    requires
        forall|d: int| 0 <= d < s.len() ==> cells[lo + d] == s[d],
    ensures
        count_range(cells, lo, lo + s.len(), target) == count_in_seq(s, target),
    decreases s.len(),
{
    if s.len() > 0 {
        lemma_count_range_matches_fwd(cells, lo, s.drop_last(), target);
        assert(cells[lo + s.len() - 1] == s.last());
    }
}

/// A side whose cells match a map leftwards from `hi` counts its symbols
/// exactly as the map's range does.
proof fn lemma_count_range_matches_rev(
    cells: Map<int, Symbol>,
    hi: int,
    s: Seq<Symbol>,
    target: Symbol,
)
    requires
        forall|d: int| 0 <= d < s.len() ==> cells[hi - 1 - d] == s[d],
    ensures
        count_range(cells, hi - s.len(), hi, target) == count_in_seq(s, target),
    decreases s.len(),
{
    if s.len() > 0 {
        lemma_count_range_lo(cells, hi - s.len(), hi, target);
        lemma_count_range_matches_rev(cells, hi, s.drop_last(), target);
        assert(cells[hi - 1 - (s.len() - 1)] == s.last());
    }
}

/// The symbol a pair of materialized sides holds at position `p`, for a
/// head at position `h`: cells at and right of the head come from `rs`,
/// cells left of it from `ls`, and everything beyond them is blank.
pub open spec fn at_of(h: int, ls: Seq<Symbol>, rs: Seq<Symbol>, p: int) -> Symbol {
    if p >= h {
        if p - h < rs.len() {
            rs[p - h]
        } else {
            Symbol::Blank
        }
    } else {
        if h - 1 - p < ls.len() {
            ls[h - 1 - p]
        } else {
            Symbol::Blank
        }
    }
}

/// A tape representation that encodes each side of the head as a stack of
/// runs, so that long uniform stretches — as busy-beaver champions produce —
/// cost one stack entry instead of one cell each.
pub struct CompoundTape {
    right: Vec<(Symbol, Occurrence)>,
    left: Vec<(Symbol, Occurrence)>,
    position: Ghost<int>,
}

impl CompoundTape {
    /// The materialized cells left of the head, nearest first.
    pub closed spec fn left_seq(&self) -> Seq<Symbol> {
        side_seq(self.left@)
    }

    /// The materialized cells at and right of the head, nearest first.
    pub closed spec fn right_seq(&self) -> Seq<Symbol> {
        side_seq(self.right@)
    }

    /// Create an empty tape: both sides just the blank sentinel.
    pub fn empty() -> (r: Self)
        ensures
            r.wf(),
            r.model() == TapeModel::blank(),
            r.weight() == 0,
            r.blank_census() == 0,
            r.left_stack() == seq![(Symbol::Blank, Occurrence::Infinite)],
            r.right_stack() == seq![(Symbol::Blank, Occurrence::Infinite)],
    {
        let mut right: Vec<(Symbol, Occurrence)> = Vec::new();
        right.push((Symbol::Blank, Occurrence::Infinite));
        let mut left: Vec<(Symbol, Occurrence)> = Vec::new();
        left.push((Symbol::Blank, Occurrence::Infinite));
        let r = Self { right, left, position: Ghost(0) };
        proof {
            assert(r.left@.drop_last() =~= Seq::<(Symbol, Occurrence)>::empty());
            assert(r.right@.drop_last() =~= Seq::<(Symbol, Occurrence)>::empty());
            assert(side_seq(Seq::<(Symbol, Occurrence)>::empty()) =~= Seq::<Symbol>::empty());
            assert(run_seq((Symbol::Blank, Occurrence::Infinite)) =~= Seq::<Symbol>::empty());
            assert(r.left@.last() == (Symbol::Blank, Occurrence::Infinite));
            assert(r.right@.last() == (Symbol::Blank, Occurrence::Infinite));
            assert(r.left_seq() =~= Seq::<Symbol>::empty());
            assert(r.right_seq() =~= Seq::<Symbol>::empty());
            assert(r.model().cells =~= TapeModel::blank().cells);
            assert(r.model() =~= TapeModel::blank());
            assert(r.left@ =~= seq![(Symbol::Blank, Occurrence::Infinite)]);
            assert(r.right@ =~= seq![(Symbol::Blank, Occurrence::Infinite)]);
        }
        r
    }
}

impl Tape for CompoundTape {
    closed spec fn model(&self) -> TapeModel {
        TapeModel {
            head: self.position@,
            cells: Map::total(
                |p: int| at_of(self.position@, self.left_seq(), self.right_seq(), p),
            ),
        }
    }

    closed spec fn wf(&self) -> bool {
        &&& side_wf(self.left@)
        &&& side_wf(self.right@)
        &&& self.left_seq().len() + self.right_seq().len() <= usize::MAX
    }

    closed spec fn weight(&self) -> nat {
        self.left_seq().len() + self.right_seq().len()
    }

    closed spec fn blank_census(&self) -> nat {
        count_range(
            self.model().cells,
            self.position@ - self.left_seq().len(),
            self.position@ + self.right_seq().len(),
            Symbol::Blank,
        )
    }

    proof fn lemma_wf_model(&self) {
        let m = self.model();
        let lo = self.position@ - self.left_seq().len();
        let hi = self.position@ + self.right_seq().len();
        lemma_count_range_nonblank(m.cells, lo, hi);
        assert(m.nonblank_set() =~= crate::tape::nonblank_in_range(m.cells, lo, hi));
        lemma_count_range_le(m.cells, lo, hi, Symbol::NonBlank);
        lemma_census_count_range(m, lo, hi);
    }

    fn move_to(&mut self, direction: &Direction)
        ensures
            final(self).left_stack().len() <= old(self).left_stack().len() + 1,
            final(self).right_stack().len() <= old(self).right_stack().len() + 1,
            *direction == Direction::Left ==> final(self).left_stack() == departed(
                old(self).left_stack(),
            ) && final(self).right_stack() == arrived(
                old(self).right_stack(),
                old(self).left_stack().last().0,
            ),
            *direction == Direction::Right ==> final(self).right_stack() == departed(
                old(self).right_stack(),
            ) && final(self).left_stack() == arrived(
                old(self).left_stack(),
                old(self).right_stack().last().0,
            ),
    {
        match direction {
            Direction::Left => {
                let ghost h = self.position@;
                let ghost ls = self.left_seq();
                let ghost rs = self.right_seq();
                let ghost stack0 = self.left@;
                let p = pop_run(&mut self.left);
                let symbol = p.0;
                if p.1 > Occurrence::Finite(1) {
                    self.left.push((p.0, p.1.decrement()));
                }
                proof {
                    lemma_depart(stack0, p, self.left@, ls);
                }
                let ghost ls2 = self.left_seq();
                let ghost rstack0 = self.right@;
                let q = pop_run(&mut self.right);
                proof {
                    lemma_top_run_le(rstack0, rs);
                }
                if q.0 == symbol {
                    self.right.push((q.0, q.1.increment()));
                } else {
                    self.right.push(q);
                    self.right.push((symbol, Occurrence::Finite(1)));
                }
                proof {
                    lemma_arrive(rstack0, q, self.right@, rs, symbol);
                }
                self.position = Ghost(self.position@ - 1);
                proof {
                    let rs2 = self.right_seq();
                    lemma_shift_left(h, ls, rs, ls2, rs2, symbol);
                    assert(final(self).model().cells =~= old(self).model().moved(
                        *direction,
                    ).cells);
                    assert(final(self).model() =~= old(self).model().moved(*direction));
                    lemma_blank_census_sides(*old(self));
                    lemma_blank_census_sides(*self);
                    if ls.len() > 0 {
                        lemma_count_in_seq_first(ls, Symbol::Blank);
                    }
                    if rs2 == seq![symbol] + rs {
                        lemma_count_in_seq_prepend(symbol, rs, Symbol::Blank);
                    }
                }
            },
            Direction::Right => {
                let ghost h = self.position@;
                let ghost ls = self.left_seq();
                let ghost rs = self.right_seq();
                let ghost stack0 = self.right@;
                let p = pop_run(&mut self.right);
                let symbol = p.0;
                if p.1 > Occurrence::Finite(1) {
                    self.right.push((p.0, p.1.decrement()));
                }
                proof {
                    lemma_depart(stack0, p, self.right@, rs);
                }
                let ghost rs2 = self.right_seq();
                let ghost lstack0 = self.left@;
                let q = pop_run(&mut self.left);
                proof {
                    lemma_top_run_le(lstack0, ls);
                }
                if q.0 == symbol {
                    self.left.push((q.0, q.1.increment()));
                } else {
                    self.left.push(q);
                    self.left.push((symbol, Occurrence::Finite(1)));
                }
                proof {
                    lemma_arrive(lstack0, q, self.left@, ls, symbol);
                }
                self.position = Ghost(self.position@ + 1);
                proof {
                    let ls2 = self.left_seq();
                    lemma_shift_right(h, ls, rs, ls2, rs2, symbol);
                    assert(final(self).model().cells =~= old(self).model().moved(
                        *direction,
                    ).cells);
                    assert(final(self).model() =~= old(self).model().moved(*direction));
                    lemma_blank_census_sides(*old(self));
                    lemma_blank_census_sides(*self);
                    if rs.len() > 0 {
                        lemma_count_in_seq_first(rs, Symbol::Blank);
                    }
                    if ls2 == seq![symbol] + ls {
                        lemma_count_in_seq_prepend(symbol, ls, Symbol::Blank);
                    }
                }
            },
        }
    }

    fn read(&self) -> (r: Symbol) {
        let top = self.right[self.right.len() - 1];
        proof {
            lemma_top_run_le(self.right@, self.right_seq());
            assert(self.right@.last() == self.right@[self.right@.len() - 1]);
            assert(self.model().read() == at_of(
                self.position@,
                self.left_seq(),
                self.right_seq(),
                self.position@,
            ));
        }
        top.0
    }

    fn write(&mut self, symbol: Symbol)
        ensures
            final(self).left_stack() == old(self).left_stack(),
            final(self).right_stack() == written_stack(old(self).right_stack(), symbol),
            final(self).right_stack().len() <= old(self).right_stack().len() + 1,
    {
        let ghost h = self.position@;
        let ghost ls = self.left_seq();
        let ghost rs = self.right_seq();
        let ghost stack0 = self.right@;
        let top = pop_run(&mut self.right);
        let s = top.0;
        let o = top.1;
        proof {
            lemma_top_run_le(stack0, rs);
        }
        if s != symbol {
            if o > Occurrence::Finite(1) {
                self.right.push((s, o.decrement()));
                self.right.push((symbol, Occurrence::Finite(1)));
                proof {
                    assert(self.right@.drop_last() =~= stack0.drop_last().push(
                        (s, o.spec_decrement()),
                    ));
                    lemma_depart(stack0, top, self.right@.drop_last(), rs);
                    lemma_side_push(self.right@.drop_last(), (symbol, Occurrence::Finite(1)));
                    assert(self.right@.drop_last().push((symbol, Occurrence::Finite(1)))
                        =~= self.right@);
                    assert(run_seq((symbol, Occurrence::Finite(1usize))) =~= seq![symbol]);
                    lemma_side_wf_push(self.right@.drop_last(), (symbol, Occurrence::Finite(1)));
                    assert(self.right_seq() == seq![symbol] + (if rs.len() > 0 {
                        rs.drop_first()
                    } else {
                        rs
                    }));
                    if o is Infinite {
                        assert(stack0.drop_last().push((s, o.spec_decrement())) =~= stack0);
                    }
                    assert(self.right@.drop_last() == departed(stack0));
                    assert(self.right@ =~= departed(stack0).push((symbol, Occurrence::Finite(1))));
                    assert(self.right_stack() == written_stack(stack0, symbol));
                }
            } else {
                // The top run is a spent singleton; the sentinel compares
                // above one, so this cannot be the bottom of the stack.
                let ghost stack1 = self.right@;
                proof {
                    lemma_depart(stack0, top, stack1, rs);
                    lemma_top_run_le(stack0, rs);
                    lemma_top_run_le(stack1, side_seq(stack1));
                }
                let next = pop_run(&mut self.right);
                let t = next.0;
                let q = next.1;
                if t == symbol {
                    self.right.push((t, q.increment()));
                } else {
                    self.right.push(next);
                    self.right.push((symbol, Occurrence::Finite(1)));
                }
                proof {
                    lemma_arrive(stack1, next, self.right@, side_seq(stack1), symbol);
                    assert((self.right_seq() == seq![symbol] + rs.drop_first() && rs.len() > 0) || (
                    rs.len() == 1 && self.right_seq() == Seq::<Symbol>::empty() && symbol
                        == Symbol::Blank));
                    assert(stack1 == departed(stack0));
                    assert(self.right_stack() == written_stack(stack0, symbol));
                }
            }
        } else {
            self.right.push((s, o));
            proof {
                assert(self.right@ =~= stack0);
                assert(self.right_seq() == rs && at_of(h, ls, rs, h) == symbol);
                assert(self.right_stack() == written_stack(stack0, symbol));
            }
        }
        proof {
            let rs2 = self.right_seq();
            lemma_write_sides(h, ls, rs, rs2, symbol);
            assert(final(self).model().cells =~= old(self).model().written(symbol).cells);
            assert(final(self).model() =~= old(self).model().written(symbol));
            lemma_blank_census_sides(*old(self));
            lemma_blank_census_sides(*self);
            assert(count_in_seq(Seq::<Symbol>::empty(), Symbol::Blank) == 0);
            if rs.len() > 0 {
                lemma_count_in_seq_first(rs, Symbol::Blank);
                lemma_count_in_seq_prepend(symbol, rs.drop_first(), Symbol::Blank);
            }
            lemma_count_in_seq_prepend(symbol, rs, Symbol::Blank);
        }
    }

    fn count(&self, target: &Symbol) -> (r: usize) {
        let target = *target;
        let acc_left = count_side(&self.left, target, Ghost(self.left_seq().len()));
        let acc_right = count_side(&self.right, target, Ghost(self.right_seq().len()));
        proof {
            let m = self.model();
            let h = self.position@;
            let lo = h - self.left_seq().len();
            let hi = h + self.right_seq().len();
            lemma_count_range_matches_rev(m.cells, h, self.left_seq(), target);
            lemma_count_range_matches_fwd(m.cells, h, self.right_seq(), target);
            lemma_count_range_split(m.cells, lo, h, hi, target);
            if target == Symbol::NonBlank {
                self.lemma_wf_model();
                lemma_census_count_range(m, lo, hi);
            }
            lemma_count_in_seq_le(self.left_seq(), target);
            lemma_count_in_seq_le(self.right_seq(), target);
        }
        acc_left + acc_right
    }
}

/// Total the materialized cells of one side that hold a symbol.
fn count_side(
    stack: &Vec<(Symbol, Occurrence)>,
    target: Symbol,
    Ghost(bound): Ghost<nat>,
) -> (r: usize)
    requires
        side_wf(stack@),
        side_seq(stack@).len() == bound,
        bound <= usize::MAX,
    ensures
        r == count_in_seq(side_seq(stack@), target),
{
    let n = stack.len();
    let mut acc: usize = 0;
    let mut i: usize = 0;
    while i < n
        invariant
            0 <= i <= n == stack@.len(),
            side_wf(stack@),
            side_seq(stack@).len() == bound <= usize::MAX,
            acc == count_in_seq(side_seq(stack@.take(i as int)), target),
            acc <= side_seq(stack@.take(i as int)).len(),
            side_seq(stack@.take(i as int)).len() <= bound,
        decreases n - i,
    {
        let run = stack[i];
        proof {
            assert(stack@.take(i as int + 1).last() == stack@[i as int]);
            assert(stack@.take(i as int + 1).drop_last() =~= stack@.take(i as int));
            lemma_count_in_seq_concat(run_seq(stack@[i as int]), side_seq(stack@.take(i as int)), target);
            lemma_count_in_run(stack@[i as int], target);
            lemma_side_take_le(stack@, i as int + 1);
        }
        if run.0 == target {
            acc = acc + run.1.count();
        }
        i = i + 1;
    }
    proof {
        assert(stack@.take(n as int) =~= stack@);
    }
    acc
}

/// The blank census of a tape is the blanks of its two materialized sides.
proof fn lemma_blank_census_sides(t: CompoundTape)
    ensures
        t.blank_census() == count_in_seq(t.left_seq(), Symbol::Blank) + count_in_seq(
            t.right_seq(),
            Symbol::Blank,
        ),
{
    let m = t.model();
    let h = t.position@;
    lemma_count_range_matches_rev(m.cells, h, t.left_seq(), Symbol::Blank);
    lemma_count_range_matches_fwd(m.cells, h, t.right_seq(), Symbol::Blank);
    lemma_count_range_split(
        m.cells,
        h - t.left_seq().len(),
        h,
        h + t.right_seq().len(),
        Symbol::Blank,
    );
}

/// A prefix of a stack materializes no more cells than the whole stack.
proof fn lemma_side_take_le(stack: Seq<(Symbol, Occurrence)>, i: int)
    requires
        0 <= i <= stack.len(),
    ensures
        side_seq(stack.take(i)).len() <= side_seq(stack).len(),
    decreases stack.len() - i,
{
    if i < stack.len() {
        lemma_side_take_le(stack, i + 1);
        assert(stack.take(i + 1).last() == stack[i]);
        assert(stack.take(i + 1).drop_last() =~= stack.take(i));
        assert(side_seq(stack.take(i + 1)) == run_seq(stack[i]) + side_seq(stack.take(i)));
    } else {
        assert(stack.take(i) =~= stack);
    }
}


/// Pushing a live finite run of a fresh symbol keeps a side well formed.
proof fn lemma_side_wf_push(stack: Seq<(Symbol, Occurrence)>, run: (Symbol, Occurrence))
    requires
        side_wf(stack),
        run.1 matches Occurrence::Finite(k) && k >= 1,
        stack.last().0 != run.0,
    ensures
        side_wf(stack.push(run)),
{
    let stack2 = stack.push(run);
    assert(stack2[0] == stack[0]);
    assert(forall|i: int| 1 <= i < stack2.len() - 1 ==> stack2[i] == stack[i]);
    assert(stack2[stack2.len() - 1] == run);
}

/// Pop the run nearest the head off a side.
fn pop_run(stack: &mut Vec<(Symbol, Occurrence)>) -> (r: (Symbol, Occurrence))
    requires
        old(stack)@.len() >= 1,
    ensures
        r == old(stack)@.last(),
        final(stack)@ == old(stack)@.drop_last(),
{
    let r = stack.pop().unwrap();
    proof {
        assert(final(stack)@ =~= old(stack)@.drop_last());
    }
    r
}

/// Facts about the run nearest the head: a finite top run has at least one
/// and at most the whole side's cells, its symbol is the nearest cell, and
/// a side without materialized cells is just the sentinel.
proof fn lemma_top_run_le(stack: Seq<(Symbol, Occurrence)>, s: Seq<Symbol>)
    requires
        side_wf(stack),
        s == side_seq(stack),
    ensures
        stack.last().1 matches Occurrence::Finite(m) ==> 1 <= m <= s.len(),
        s.len() > 0 ==> s[0] == stack.last().0,
        s.len() == 0 ==> stack.len() == 1 && stack.last() == (Symbol::Blank, Occurrence::Infinite),
        stack.last().1 is Infinite ==> stack.len() == 1,
{
    assert(s == run_seq(stack.last()) + side_seq(stack.drop_last()));
    if stack.len() == 1 {
        assert(stack.last() == stack[0]);
        assert(run_seq(stack.last()) =~= Seq::<Symbol>::empty());
        assert(side_seq(stack.drop_last()) =~= Seq::<Symbol>::empty());
        assert(s.len() == 0);
    } else {
        assert(stack.last() == stack[stack.len() - 1]);
        assert(stack.last().1 matches Occurrence::Finite(k) && k >= 1);
        assert(s[0] == run_seq(stack.last())[0]);
    }
}

/// The effect on a side of the head departing from it: its nearest cell is
/// given up, by decrementing the nearest run, dropping it when it was a
/// singleton, or leaving the sentinel to supply a blank.
proof fn lemma_depart(
    stack0: Seq<(Symbol, Occurrence)>,
    p: (Symbol, Occurrence),
    stack2: Seq<(Symbol, Occurrence)>,
    s0: Seq<Symbol>,
)
    requires
        side_wf(stack0),
        s0 == side_seq(stack0),
        p == stack0.last(),
        stack2 == if p.1.spec_cmp(Occurrence::Finite(1)) is Greater {
            stack0.drop_last().push((p.0, p.1.spec_decrement()))
        } else {
            stack0.drop_last()
        },
    ensures
        side_wf(stack2),
        stack2 == departed(stack0),
        s0.len() == 0 ==> side_seq(stack2) == s0 && p.0 == Symbol::Blank,
        s0.len() > 0 ==> side_seq(stack2) == s0.drop_first() && s0[0] == p.0,
        side_seq(stack2).len() <= s0.len(),
{
    lemma_top_run_le(stack0, s0);
    assert(s0 == run_seq(p) + side_seq(stack0.drop_last()));
    if stack0.len() == 1 {
        assert(p == stack0[0]);
        assert(stack2 =~= stack0);
        assert(s0.len() == 0);
    } else {
        assert(p == stack0[stack0.len() - 1]);
        assert(p.1 matches Occurrence::Finite(k) && k >= 1);
        let k = p.1->Finite_0;
        let rest = side_seq(stack0.drop_last());
        assert(forall|i: int|
            0 <= i < stack0.len() - 1 ==> stack0.drop_last()[i] == stack0[i]);
        if k >= 2 {
            assert(p.1.spec_cmp(Occurrence::Finite(1)) is Greater);
            assert(stack2 == stack0.drop_last().push((p.0, Occurrence::Finite((k - 1) as usize))));
            lemma_side_push(stack0.drop_last(), (p.0, Occurrence::Finite((k - 1) as usize)));
            assert(side_seq(stack2) =~= s0.drop_first());
            assert(side_wf(stack2)) by {
                assert(forall|i: int|
                    1 <= i < stack2.len() - 1 ==> stack2[i] == stack0[i]);
                assert(stack2[stack2.len() - 1] == (p.0, Occurrence::Finite((k - 1) as usize)));
                assert(stack2[0] == stack0[0]);
            }
        } else {
            assert(!(p.1.spec_cmp(Occurrence::Finite(1)) is Greater));
            assert(stack2 == stack0.drop_last());
            assert(run_seq(p) =~= seq![p.0]);
            assert(side_seq(stack2) =~= s0.drop_first());
            assert(side_wf(stack2)) by {
                assert(forall|i: int| 1 <= i < stack2.len() ==> stack2[i] == stack0[i]);
                assert(stack2[0] == stack0[0]);
            }
        }
        assert(s0[0] == run_seq(p)[0]);
    }
}

/// The effect on a side of the head arriving at it with a cell to deposit:
/// the cell merges into the nearest run when the symbols agree, becomes a
/// new singleton run when they differ, and a blank deposited against the
/// bare sentinel is simply absorbed by it.
proof fn lemma_arrive(
    stack0: Seq<(Symbol, Occurrence)>,
    q: (Symbol, Occurrence),
    stack2: Seq<(Symbol, Occurrence)>,
    s0: Seq<Symbol>,
    symbol: Symbol,
)
    requires
        side_wf(stack0),
        s0 == side_seq(stack0),
        q == stack0.last(),
        q.1 matches Occurrence::Finite(m) ==> m < usize::MAX,
        stack2 == if q.0 == symbol {
            stack0.drop_last().push((q.0, q.1.spec_increment()))
        } else {
            stack0.drop_last().push(q).push((symbol, Occurrence::Finite(1)))
        },
    ensures
        side_wf(stack2),
        stack2 == arrived(stack0, symbol),
        side_seq(stack2) == seq![symbol] + s0 || (side_seq(stack2) == s0 && s0.len() == 0
            && symbol == Symbol::Blank),
        side_seq(stack2).len() <= s0.len() + 1,
{
    lemma_top_run_le(stack0, s0);
    assert(s0 == run_seq(q) + side_seq(stack0.drop_last()));
    if q.0 == symbol {
        match q.1 {
            Occurrence::Infinite => {
                assert(stack0.len() == 1);
                assert(q == stack0[0]);
                assert(symbol == Symbol::Blank);
                assert(stack2 =~= stack0);
                assert(s0.len() == 0);
            },
            Occurrence::Finite(m) => {
                assert(1 <= m <= s0.len());
                lemma_side_push(stack0.drop_last(), (q.0, Occurrence::Finite((m + 1) as usize)));
                assert(side_seq(stack2) =~= seq![symbol] + s0);
                assert(side_wf(stack2)) by {
                    assert(stack0.len() >= 2);
                    assert(forall|i: int|
                        1 <= i < stack2.len() - 1 ==> stack2[i] == stack0[i]);
                    assert(stack2[stack2.len() - 1] == (q.0, Occurrence::Finite((m + 1) as usize)));
                    assert(stack2[0] == stack0[0]);
                }
            },
        }
    } else {
        assert(stack0.drop_last().push(q) =~= stack0);
        assert(stack2 == stack0.push((symbol, Occurrence::Finite(1))));
        lemma_side_push(stack0, (symbol, Occurrence::Finite(1)));
        assert(run_seq((symbol, Occurrence::Finite(1))) =~= seq![symbol]);
        assert(side_seq(stack2) == seq![symbol] + s0);
        assert(side_wf(stack2)) by {
            assert(forall|i: int| 1 <= i < stack2.len() - 1 ==> stack2[i] == stack0[i]);
            assert(stack2[stack2.len() - 1] == (symbol, Occurrence::Finite(1usize)));
            assert(stack2[0] == stack0[0]);
        }
    }
}

/// Moving the head one cell to the left re-anchors both sides one position
/// lower without changing any cell of the tape.
proof fn lemma_shift_left(
    h: int,
    ls: Seq<Symbol>,
    rs: Seq<Symbol>,
    ls2: Seq<Symbol>,
    rs2: Seq<Symbol>,
    symbol: Symbol,
)
    requires
        symbol == at_of(h, ls, rs, h - 1),
        ls.len() == 0 ==> ls2 == ls,
        ls.len() > 0 ==> ls2 == ls.drop_first() && ls[0] == symbol,
        rs2 == seq![symbol] + rs || (rs2 == rs && rs.len() == 0 && symbol == Symbol::Blank),
    ensures
        forall|p: int| at_of(h - 1, ls2, rs2, p) == at_of(h, ls, rs, p),
{
    assert forall|p: int| at_of(h - 1, ls2, rs2, p) == at_of(h, ls, rs, p) by {
        if p >= h - 1 {
            let d2 = p - (h - 1);
            if rs2 == seq![symbol] + rs {
                if d2 == 0 {
                    assert(rs2[0] == symbol);
                } else {
                    assert(d2 >= 1);
                    if d2 < rs2.len() {
                        assert(rs2[d2] == rs[d2 - 1]);
                    }
                }
            } else {
                assert(rs2 == rs && rs.len() == 0 && symbol == Symbol::Blank);
            }
        } else {
            let d2 = h - 2 - p;
            if ls.len() == 0 {
                assert(ls2.len() == 0);
            } else {
                if d2 < ls2.len() {
                    assert(ls2[d2] == ls[d2 + 1]);
                }
            }
        }
    }
}

/// Moving the head one cell to the right re-anchors both sides one position
/// higher without changing any cell of the tape.
proof fn lemma_shift_right(
    h: int,
    ls: Seq<Symbol>,
    rs: Seq<Symbol>,
    ls2: Seq<Symbol>,
    rs2: Seq<Symbol>,
    symbol: Symbol,
)
    requires
        symbol == at_of(h, ls, rs, h),
        rs.len() == 0 ==> rs2 == rs,
        rs.len() > 0 ==> rs2 == rs.drop_first() && rs[0] == symbol,
        ls2 == seq![symbol] + ls || (ls2 == ls && ls.len() == 0 && symbol == Symbol::Blank),
    ensures
        forall|p: int| at_of(h + 1, ls2, rs2, p) == at_of(h, ls, rs, p),
{
    assert forall|p: int| at_of(h + 1, ls2, rs2, p) == at_of(h, ls, rs, p) by {
        if p < h + 1 {
            let d2 = h - p;
            if ls2 == seq![symbol] + ls {
                if d2 == 0 {
                    assert(ls2[0] == symbol);
                } else {
                    assert(d2 >= 1);
                    if d2 < ls2.len() {
                        assert(ls2[d2] == ls[d2 - 1]);
                    }
                }
            } else {
                assert(ls2 == ls && ls.len() == 0 && symbol == Symbol::Blank);
            }
        } else {
            let d2 = p - (h + 1);
            if rs.len() == 0 {
                assert(rs2.len() == 0);
            } else {
                if d2 < rs2.len() {
                    assert(rs2[d2] == rs[d2 + 1]);
                }
            }
        }
    }
}

/// The effect of a write on the right side: whichever way the runs were
/// juggled, the cell under the head now holds the written symbol and every
/// other cell is untouched.
proof fn lemma_write_sides(
    h: int,
    ls: Seq<Symbol>,
    rs: Seq<Symbol>,
    rs2: Seq<Symbol>,
    symbol: Symbol,
)
    requires
        (rs2 == rs && at_of(h, ls, rs, h) == symbol) || (rs2 == seq![symbol] + (if rs.len() > 0 {
            rs.drop_first()
        } else {
            rs
        })) || (rs.len() == 1 && rs2 == Seq::<Symbol>::empty() && symbol == Symbol::Blank),
    ensures
        forall|p: int|
            at_of(h, ls, rs2, p) == if p == h {
                symbol
            } else {
                at_of(h, ls, rs, p)
            },
{
    assert forall|p: int|
        at_of(h, ls, rs2, p) == if p == h {
            symbol
        } else {
            at_of(h, ls, rs, p)
        } by {
        if p >= h {
            let d = p - h;
            if rs2 == rs && at_of(h, ls, rs, h) == symbol {
            } else if rs.len() == 1 && rs2 == Seq::<Symbol>::empty() && symbol == Symbol::Blank {
            } else {
                let tail = if rs.len() > 0 {
                    rs.drop_first()
                } else {
                    rs
                };
                assert(rs2 == seq![symbol] + tail);
                if d == 0 {
                    assert(rs2[0] == symbol);
                } else {
                    if d < rs2.len() {
                        assert(rs2[d] == tail[d - 1]);
                    }
                }
            }
        }
    }
}

/// The cells a whole run list materializes, front run first.
pub open spec fn runs_total(runs: Seq<(Symbol, Occurrence)>) -> nat
    decreases runs.len(),
{
    if runs.len() == 0 {
        0
    } else {
        runs[0].1.spec_count() + runs_total(runs.drop_first())
    }
}

impl CompoundTape {
    /// The stack of runs left of the head, sentinel first, nearest run
    /// last.
    pub closed spec fn left_stack(&self) -> Seq<(Symbol, Occurrence)> {
        self.left@
    }

    /// The stack of runs at and right of the head, sentinel first, nearest
    /// run last.
    pub closed spec fn right_stack(&self) -> Seq<(Symbol, Occurrence)> {
        self.right@
    }

    /// Build a tape from the finite runs of each side, nearest run first,
    /// with the head on the first cell of the first right-hand run. The
    /// runs must be a normalized encoding: live — finite with at least one
    /// cell — with adjacent runs carrying distinct symbols, the farthest
    /// run non-blank (blanks beyond it come from the sentinel), and small
    /// enough to fit in memory together.
    pub fn from_stacks(
        left: Vec<(Symbol, Occurrence)>,
        right: Vec<(Symbol, Occurrence)>,
    ) -> (r: Self)
        requires
            forall|i: int|
                0 <= i < left@.len() ==> ((#[trigger] left@[i]).1 matches Occurrence::Finite(k)
                    && k >= 1),
            forall|i: int|
                0 <= i < right@.len() ==> ((#[trigger] right@[i]).1 matches Occurrence::Finite(k)
                    && k >= 1),
            forall|i: int| 0 <= i < left@.len() - 1 ==> (#[trigger] left@[i]).0 != left@[i + 1].0,
            forall|i: int|
                0 <= i < right@.len() - 1 ==> (#[trigger] right@[i]).0 != right@[i + 1].0,
            left@.len() > 0 ==> left@[left@.len() - 1].0 != Symbol::Blank,
            right@.len() > 0 ==> right@[right@.len() - 1].0 != Symbol::Blank,
            runs_total(left@) + runs_total(right@) <= usize::MAX,
        ensures
            r.wf(),
            r.left_stack() == seq![(Symbol::Blank, Occurrence::Infinite)] + left@.reverse(),
            r.right_stack() == seq![(Symbol::Blank, Occurrence::Infinite)] + right@.reverse(),
    {
        let built_left = build_side(&left);
        let built_right = build_side(&right);
        let r = Self { left: built_left, right: built_right, position: Ghost(0) };
        proof {
            assert(r.left@ =~= seq![(Symbol::Blank, Occurrence::Infinite)] + left@.reverse());
            assert(r.right@ =~= seq![(Symbol::Blank, Occurrence::Infinite)] + right@.reverse());
        }
        r
    }

    /// Whether two tapes have the very same run stacks.
    pub open spec fn spec_same(&self, other: &CompoundTape) -> bool {
        self.left_stack() == other.left_stack() && self.right_stack() == other.right_stack()
    }
}

/// Stack the runs of one side over the sentinel, nearest run on top.
fn build_side(runs: &Vec<(Symbol, Occurrence)>) -> (r: Vec<(Symbol, Occurrence)>)
    requires
        forall|i: int|
            0 <= i < runs@.len() ==> ((#[trigger] runs@[i]).1 matches Occurrence::Finite(k) && k
                >= 1),
        forall|i: int| 0 <= i < runs@.len() - 1 ==> (#[trigger] runs@[i]).0 != runs@[i + 1].0,
        runs@.len() > 0 ==> runs@[runs@.len() - 1].0 != Symbol::Blank,
    ensures
        side_wf(r@),
        r@.len() == runs@.len() + 1,
        r@[0] == (Symbol::Blank, Occurrence::Infinite),
        forall|i: int| 1 <= i <= runs@.len() ==> r@[i] == runs@[runs@.len() - i],
        side_seq(r@).len() == runs_total(runs@),
{
    let mut r: Vec<(Symbol, Occurrence)> = Vec::new();
    r.push((Symbol::Blank, Occurrence::Infinite));
    let n = runs.len();
    let mut j: usize = 0;
    proof {
        assert(r@.drop_last() =~= Seq::<(Symbol, Occurrence)>::empty());
        assert(side_seq(Seq::<(Symbol, Occurrence)>::empty()) =~= Seq::<Symbol>::empty());
        assert(run_seq((Symbol::Blank, Occurrence::Infinite)) =~= Seq::<Symbol>::empty());
        assert(side_seq(r@) =~= Seq::<Symbol>::empty());
        assert(runs@.skip(n as int) =~= Seq::<(Symbol, Occurrence)>::empty());
    }
    while j < n
        invariant
            0 <= j <= n == runs@.len(),
            forall|i: int|
                0 <= i < runs@.len() ==> ((#[trigger] runs@[i]).1 matches Occurrence::Finite(k)
                    && k >= 1),
            forall|i: int| 0 <= i < runs@.len() - 1 ==> (#[trigger] runs@[i]).0 != runs@[i + 1].0,
            runs@.len() > 0 ==> runs@[runs@.len() - 1].0 != Symbol::Blank,
            side_wf(r@),
            r@.len() == j + 1,
            r@[0] == (Symbol::Blank, Occurrence::Infinite),
            forall|i: int| 1 <= i <= j ==> r@[i] == runs@[runs@.len() - i],
            side_seq(r@).len() == runs_total(runs@.skip(n - j)),
        decreases n - j,
    {
        let run = runs[n - 1 - j];
        proof {
            assert(run == runs@[n - 1 - j as int]);
            assert(r@.last() == r@[j as int]);
            if j == 0 {
                assert(r@.last() == (Symbol::Blank, Occurrence::Infinite));
                assert(run.0 != Symbol::Blank);
            } else {
                assert(r@.last() == runs@[n - j as int]);
                assert(runs@[n - 1 - j as int].0 != runs@[n - 1 - j as int + 1].0);
                assert(r@.last().0 != run.0);
            }
            lemma_side_push(r@, run);
            lemma_side_wf_push(r@, run);
            assert(runs@.skip(n - j - 1)[0] == runs@[n - 1 - j]);
            assert(runs@.skip(n - j - 1).drop_first() =~= runs@.skip(n - j));
        }
        r.push(run);
        j = j + 1;
    }
    proof {
        assert(runs@.skip(0) =~= runs@);
    }
    r
}

impl PartialEq for CompoundTape {
    fn eq(&self, other: &CompoundTape) -> (r: bool) {
        if self.left.len() != other.left.len() || self.right.len() != other.right.len() {
            proof {
                assert(self.left@ != other.left@ || self.right@ != other.right@);
            }
            return false;
        }
        let ln = self.left.len();
        let mut i: usize = 0;
        while i < ln
            invariant
                0 <= i <= ln == self.left@.len() == other.left@.len(),
                forall|j: int| 0 <= j < i ==> self.left@[j] == other.left@[j],
            decreases ln - i,
        {
            let a = self.left[i];
            let b = other.left[i];
            if a.0 != b.0 || a.1 != b.1 {
                return false;
            }
            i = i + 1;
        }
        let rn = self.right.len();
        let mut k: usize = 0;
        while k < rn
            invariant
                0 <= k <= rn == self.right@.len() == other.right@.len(),
                forall|j: int| 0 <= j < k ==> self.right@[j] == other.right@[j],
            decreases rn - k,
        {
            let a = self.right[k];
            let b = other.right[k];
            if a.0 != b.0 || a.1 != b.1 {
                return false;
            }
            k = k + 1;
        }
        proof {
            assert(self.left@ =~= other.left@);
            assert(self.right@ =~= other.right@);
        }
        true
    }
}

impl Eq for CompoundTape {

}

impl vstd::std_specs::cmp::PartialEqSpecImpl for CompoundTape {
    open spec fn obeys_eq_spec() -> bool {
        true
    }

    open spec fn eq_spec(&self, other: &CompoundTape) -> bool {
        self.spec_same(other)
    }
}


} // verus!
