//! The tape of a Turing machine: the abstract model, and the capability
//! interface that both tape representations implement against it.

use vstd::prelude::*;

use crate::direction::Direction;
use crate::symbol::Symbol;

verus! {

/// The mathematical model of a bi-infinite tape: the head position and the
/// symbol in every cell. Both tape representations present one of these, and
/// every operation is specified against it, so the two representations are
/// observably indistinguishable.
#[verifier::ext_equal]
pub ghost struct TapeModel {
    /// The position of the tape head.
    pub head: int,
    /// The symbol in each cell; the map is total.
    pub cells: Map<int, Symbol>,
}

impl TapeModel {
    /// The model is meaningful: every cell has a symbol, and only finitely
    /// many cells are non-blank.
    pub open spec fn wf(self) -> bool {
        &&& forall|p: int| self.cells.dom().contains(p)
        &&& self.nonblank_set().finite()
    }

    /// The positions of the non-blank cells.
    pub open spec fn nonblank_set(self) -> Set<int> {
        Set::new(|p: int| self.cells[p] == Symbol::NonBlank)
    }

    /// The number of non-blank cells: the score of a run.
    pub open spec fn census(self) -> nat {
        self.nonblank_set().len()
    }

    /// The symbol under the head.
    pub open spec fn read(self) -> Symbol {
        self.cells[self.head]
    }

    /// The tape after writing a symbol to the cell under the head.
    pub open spec fn written(self, symbol: Symbol) -> TapeModel {
        TapeModel { head: self.head, cells: self.cells.insert(self.head, symbol) }
    }

    /// The tape after moving the head one cell in a direction.
    pub open spec fn moved(self, direction: Direction) -> TapeModel {
        TapeModel {
            head: match direction {
                Direction::Left => self.head - 1,
                Direction::Right => self.head + 1,
            },
            cells: self.cells,
        }
    }

    /// The all-blank tape with the head at position 0.
    pub open spec fn blank() -> TapeModel {
        TapeModel { head: 0, cells: Map::total(|p: int| Symbol::Blank) }
    }
}

/// The all-blank tape is well formed and has no non-blank cells.
pub proof fn lemma_blank_wf()
    ensures
        TapeModel::blank().wf(),
        TapeModel::blank().census() == 0,
        forall|p: int| TapeModel::blank().cells[p] == Symbol::Blank,
{
    assert(TapeModel::blank().nonblank_set() =~= Set::empty());
}

/// Writing keeps a tape well formed and changes the census by at most the
/// one cell written: writing non-blank over blank adds one, writing blank
/// over non-blank removes one, rewriting leaves it unchanged.
pub proof fn lemma_written_wf(m: TapeModel, symbol: Symbol)
    requires
        m.wf(),
    ensures
        m.written(symbol).wf(),
        symbol == Symbol::NonBlank ==> m.written(symbol).nonblank_set() == m.nonblank_set().insert(
            m.head,
        ),
        symbol == Symbol::Blank ==> m.written(symbol).nonblank_set() == m.nonblank_set().remove(
            m.head,
        ),
{
    let w = m.written(symbol);
    if symbol == Symbol::NonBlank {
        assert(w.nonblank_set() =~= m.nonblank_set().insert(m.head));
    } else {
        assert(w.nonblank_set() =~= m.nonblank_set().remove(m.head));
    }
}

/// Moving the head keeps a tape well formed and touches no cell.
pub proof fn lemma_moved_wf(m: TapeModel, direction: Direction)
    requires
        m.wf(),
    ensures
        m.moved(direction).wf(),
        m.moved(direction).census() == m.census(),
{
    assert(m.moved(direction).nonblank_set() =~= m.nonblank_set());
}

/// The number of cells within `[lo, hi)` that hold `target`.
pub open spec fn count_range(cells: Map<int, Symbol>, lo: int, hi: int, target: Symbol) -> nat
    decreases hi - lo,
{
    if hi <= lo {
        0
    } else {
        count_range(cells, lo, hi - 1, target) + if cells[hi - 1] == target {
            1nat
        } else {
            0nat
        }
    }
}

/// The non-blank cells within `[lo, hi)`.
pub open spec fn nonblank_in_range(cells: Map<int, Symbol>, lo: int, hi: int) -> Set<int> {
    Set::new(|p: int| lo <= p < hi && cells[p] == Symbol::NonBlank)
}

/// Counting the non-blank cells of a range one by one gives the size of the
/// set of non-blank positions in that range.
pub proof fn lemma_count_range_nonblank(cells: Map<int, Symbol>, lo: int, hi: int)
    ensures
        nonblank_in_range(cells, lo, hi).finite(),
        count_range(cells, lo, hi, Symbol::NonBlank) == nonblank_in_range(cells, lo, hi).len(),
    decreases hi - lo,
{
    if hi <= lo {
        assert(nonblank_in_range(cells, lo, hi) =~= Set::empty());
    } else {
        lemma_count_range_nonblank(cells, lo, hi - 1);
        let prev = nonblank_in_range(cells, lo, hi - 1);
        if cells[hi - 1] == Symbol::NonBlank {
            assert(nonblank_in_range(cells, lo, hi) =~= prev.insert(hi - 1));
            assert(!prev.contains(hi - 1));
        } else {
            assert(nonblank_in_range(cells, lo, hi) =~= prev);
        }
    }
}

/// A range count never exceeds the width of the range.
pub proof fn lemma_count_range_le(cells: Map<int, Symbol>, lo: int, hi: int, target: Symbol)
    ensures
        count_range(cells, lo, hi, target) <= if hi >= lo {
            hi - lo
        } else {
            0
        },
    decreases hi - lo,
{
    if lo < hi {
        lemma_count_range_le(cells, lo, hi - 1, target);
    }
}

/// A range count can be peeled at its low end.
pub proof fn lemma_count_range_lo(cells: Map<int, Symbol>, lo: int, hi: int, target: Symbol)
    requires
        lo < hi,
    ensures
        count_range(cells, lo, hi, target) == count_range(cells, lo + 1, hi, target) + if cells[lo]
            == target {
            1nat
        } else {
            0nat
        },
    decreases hi - lo,
{
    if lo + 1 < hi {
        lemma_count_range_lo(cells, lo, hi - 1, target);
    } else {
        assert(count_range(cells, lo, lo, target) == 0);
        assert(count_range(cells, hi, hi, target) == 0);
    }
}

/// A range count splits at any point within the range.
pub proof fn lemma_count_range_split(cells: Map<int, Symbol>, lo: int, mid: int, hi: int, target: Symbol)
    requires
        lo <= mid <= hi,
    ensures
        count_range(cells, lo, hi, target) == count_range(cells, lo, mid, target) + count_range(
            cells,
            mid,
            hi,
            target,
        ),
    decreases hi - mid,
{
    if mid < hi {
        lemma_count_range_split(cells, lo, mid + 1, hi, target);
        lemma_count_range_lo(cells, mid, hi, target);
    }
}

/// Two maps that agree on a range count it alike.
pub proof fn lemma_count_range_congruent(
    c1: Map<int, Symbol>,
    c2: Map<int, Symbol>,
    lo: int,
    hi: int,
    target: Symbol,
)
    requires
        forall|q: int| lo <= q < hi ==> c1[q] == c2[q],
    ensures
        count_range(c1, lo, hi, target) == count_range(c2, lo, hi, target),
    decreases hi - lo,
{
    if lo < hi {
        lemma_count_range_congruent(c1, c2, lo, hi - 1, target);
    }
}

/// Changing one cell changes a range count by at most one.
pub proof fn lemma_count_range_update(
    c1: Map<int, Symbol>,
    c2: Map<int, Symbol>,
    p: int,
    lo: int,
    hi: int,
    target: Symbol,
)
    requires
        forall|q: int| q != p ==> c1[q] == c2[q],
    ensures
        !(lo <= p < hi) ==> count_range(c1, lo, hi, target) == count_range(c2, lo, hi, target),
        count_range(c2, lo, hi, target) <= count_range(c1, lo, hi, target) + 1,
        count_range(c1, lo, hi, target) <= count_range(c2, lo, hi, target) + 1,
    decreases hi - lo,
{
    if lo < hi {
        lemma_count_range_update(c1, c2, p, lo, hi - 1, target);
    }
}

/// On a tape whose non-blank cells all lie within `[lo, hi)`, counting that
/// range gives the census. Both representations count only the cells they
/// have materialized; this is what makes those counts agree.
pub proof fn lemma_census_count_range(m: TapeModel, lo: int, hi: int)
    requires
        m.wf(),
        forall|p: int| m.cells[p] == Symbol::NonBlank ==> lo <= p < hi,
    ensures
        count_range(m.cells, lo, hi, Symbol::NonBlank) == m.census(),
{
    lemma_count_range_nonblank(m.cells, lo, hi);
    assert(nonblank_in_range(m.cells, lo, hi) =~= m.nonblank_set());
}

/// The capability interface of a tape: read, write, move and count, each
/// specified against the abstract model. A well-formed tape stays well
/// formed, and `weight` — the number of cells its representation has
/// materialized — grows by at most one per operation, which bounds the
/// resources a run can consume.
pub trait Tape: Sized {
    /// The abstract tape this value represents.
    spec fn model(&self) -> TapeModel;

    /// The representation invariant.
    spec fn wf(&self) -> bool;

    /// How many cells the representation has materialized.
    spec fn weight(&self) -> nat;

    /// How many of the materialized cells are blank: what `count` reports
    /// for the blank symbol. Unvisited cells are blank by construction and
    /// are not counted, so this depends on the representation.
    spec fn blank_census(&self) -> nat;

    /// A well-formed tape presents a well-formed model, and its non-blank
    /// cells are among the materialized ones.
    proof fn lemma_wf_model(&self)
        requires
            self.wf(),
        ensures
            self.model().wf(),
            self.model().census() <= self.weight(),
    ;

    /// Move the tape head one cell in a direction. The count of blank
    /// cells materialized may shift by at most the one cell the move can
    /// materialize or absorb.
    fn move_to(&mut self, direction: &Direction)
        requires
            old(self).wf(),
            old(self).weight() < usize::MAX,
        ensures
            final(self).wf(),
            final(self).model() == old(self).model().moved(*direction),
            final(self).weight() <= old(self).weight() + 1,
            final(self).blank_census() <= old(self).blank_census() + 1,
            old(self).blank_census() <= final(self).blank_census() + 1,
    ;

    /// Read the symbol from the cell the tape head points to.
    fn read(&self) -> (r: Symbol)
        requires
            self.wf(),
        ensures
            r == self.model().read(),
    ;

    /// Write a symbol to the cell the tape head points to. The count of
    /// blank cells materialized may shift by at most the one cell written.
    fn write(&mut self, symbol: Symbol)
        requires
            old(self).wf(),
            old(self).weight() < usize::MAX,
        ensures
            final(self).wf(),
            final(self).model() == old(self).model().written(symbol),
            final(self).weight() <= old(self).weight() + 1,
            final(self).blank_census() <= old(self).blank_census() + 1,
            old(self).blank_census() <= final(self).blank_census() + 1,
    ;

    /// Count the occurrences of a symbol across the materialized cells: for
    /// the non-blank symbol this is the census of the whole tape, since
    /// every non-blank cell is materialized.
    fn count(&self, target: &Symbol) -> (r: usize)
        requires
            self.wf(),
        ensures
            *target == Symbol::NonBlank ==> r == self.model().census(),
            *target == Symbol::Blank ==> r == self.blank_census(),
    ;
}

/// One tape operation, for replaying the same script against both tape
/// representations.
#[derive(Debug, PartialEq, Eq, Structural, Copy, Clone)]
pub enum Instruction {
    /// Move the head in a direction.
    Move(Direction),
    /// Write a symbol under the head.
    Write(Symbol),
}

/// The model after one instruction.
pub open spec fn spec_execute(m: TapeModel, instruction: Instruction) -> TapeModel {
    match instruction {
        Instruction::Move(direction) => m.moved(direction),
        Instruction::Write(symbol) => m.written(symbol),
    }
}

/// The model after a script of instructions.
pub open spec fn spec_replay(m: TapeModel, instructions: Seq<Instruction>) -> TapeModel
    decreases instructions.len(),
{
    if instructions.len() == 0 {
        m
    } else {
        spec_replay(spec_execute(m, instructions[0]), instructions.drop_first())
    }
}

/// Perform one instruction on a tape.
pub fn execute<T: Tape>(tape: &mut T, instruction: &Instruction)
    requires
        old(tape).wf(),
        old(tape).weight() < usize::MAX,
    ensures
        final(tape).wf(),
        final(tape).model() == spec_execute(old(tape).model(), *instruction),
        final(tape).weight() <= old(tape).weight() + 1,
{
    match instruction {
        Instruction::Move(direction) => tape.move_to(direction),
        Instruction::Write(symbol) => tape.write(*symbol),
    }
}

/// Replay a script of instructions on a tape. The resulting model is a
/// function of the starting model and the script alone, whichever
/// representation the tape uses: two tapes with equal models still have
/// equal models, and so equal reads and censuses, after replaying the same
/// script — the representations cannot be told apart.
pub fn replay<T: Tape>(tape: &mut T, instructions: &Vec<Instruction>)
    requires
        old(tape).wf(),
        old(tape).weight() + instructions@.len() <= usize::MAX,
    ensures
        final(tape).wf(),
        final(tape).model() == spec_replay(old(tape).model(), instructions@),
        final(tape).weight() <= old(tape).weight() + instructions@.len(),
{
    let n = instructions.len();
    let mut i: usize = 0;
    proof {
        assert(instructions@.skip(0) =~= instructions@);
    }
    while i < n
        invariant
            0 <= i <= n == instructions@.len(),
            tape.wf(),
            tape.weight() <= old(tape).weight() + i,
            old(tape).weight() + n <= usize::MAX,
            spec_replay(tape.model(), instructions@.skip(i as int)) == spec_replay(
                old(tape).model(),
                instructions@,
            ),
        decreases n - i,
    {
        proof {
            assert(instructions@.skip(i as int).len() > 0);
            assert(instructions@.skip(i as int)[0] == instructions@[i as int]);
            assert(instructions@.skip(i as int).drop_first() =~= instructions@.skip(i as int + 1));
        }
        execute(tape, &instructions[i]);
        i = i + 1;
    }
    proof {
        assert(instructions@.skip(n as int) =~= Seq::<Instruction>::empty());
    }
}

} // verus!
