//! A naive tape: two growable runs of cells, one per side of the origin,
//! and the head position as a plain offset.

use vstd::prelude::*;

use crate::direction::Direction;
use crate::symbol::Symbol;
use crate::tape::{
    count_range, lemma_census_count_range, lemma_count_range_congruent, lemma_count_range_le,
    lemma_count_range_lo, lemma_count_range_nonblank, lemma_count_range_split,
    lemma_count_range_update, Tape, TapeModel,
};

verus! {

/// A naive tape representation: cells at non-negative positions live in
/// `right`, cells at negative positions in `left` (position `-1` first),
/// and moving past either frontier materializes the cell as blank, which
/// keeps the head inside the materialized window.
#[derive(Debug)]
pub struct SimpleTape {
    head: i128,
    right: Vec<Symbol>,
    left: Vec<Symbol>,
}

impl SimpleTape {
    /// The symbol this representation holds at a position; unmaterialized
    /// cells are blank.
    pub closed spec fn spec_at(&self, p: int) -> Symbol {
        if 0 <= p < self.right@.len() {
            self.right@[p]
        } else if -(self.left@.len() as int) <= p < 0 {
            self.left@[-p - 1]
        } else {
            Symbol::Blank
        }
    }

    /// Create an empty tape: every cell blank, the head at position 0.
    pub fn empty() -> (r: Self)
        ensures
            r.wf(),
            r.model() == TapeModel::blank(),
            r.weight() == 0,
            r.blank_census() == 0,
    {
        let r = Self { head: 0, right: Vec::new(), left: Vec::new() };
        proof {
            assert(r.model().cells =~= TapeModel::blank().cells);
            assert(r.model() =~= TapeModel::blank());
        }
        r
    }

    /// The index of the head into the right-side run.
    fn right_index(&self) -> (r: usize)
        requires
            self.wf(),
            self.head >= 0,
        ensures
            r == self.head as int,
    {
        self.head as usize
    }

    /// The index of the head into the left-side run.
    fn left_index(&self) -> (r: usize)
        requires
            self.wf(),
            self.head < 0,
        ensures
            r == -(self.head as int) - 1,
    {
        (-self.head - 1) as usize
    }
}

impl Clone for SimpleTape {
    /// A deep copy presenting the same tape.
    fn clone(&self) -> (r: Self)
        ensures
            r.wf() == self.wf(),
            r.model() == self.model(),
            r.weight() == self.weight(),
    {
        let left = clone_symbols(&self.left);
        let right = clone_symbols(&self.right);
        let r = Self { head: self.head, left, right };
        proof {
            assert(r.model().cells =~= self.model().cells);
            assert(r.model() =~= self.model());
        }
        r
    }
}

/// A copy of a run of symbols.
fn clone_symbols(v: &Vec<Symbol>) -> (r: Vec<Symbol>)
    ensures
        r@ == v@,
{
    let mut r: Vec<Symbol> = Vec::new();
    let n = v.len();
    let mut i: usize = 0;
    while i < n
        invariant
            0 <= i <= n == v@.len(),
            r@ == v@.take(i as int),
        decreases n - i,
    {
        r.push(v[i]);
        proof {
            assert(r@ =~= v@.take(i as int + 1));
        }
        i = i + 1;
    }
    proof {
        assert(v@.take(n as int) =~= v@);
    }
    r
}

impl Tape for SimpleTape {
    closed spec fn model(&self) -> TapeModel {
        TapeModel { head: self.head as int, cells: Map::total(|p: int| self.spec_at(p)) }
    }

    closed spec fn wf(&self) -> bool {
        &&& -(self.left@.len() as int) <= self.head as int <= self.right@.len() as int
        &&& self.left@.len() + self.right@.len() <= usize::MAX
    }

    closed spec fn weight(&self) -> nat {
        self.left@.len() + self.right@.len()
    }

    closed spec fn blank_census(&self) -> nat {
        count_range(
            self.model().cells,
            -(self.left@.len() as int),
            self.right@.len() as int,
            Symbol::Blank,
        )
    }

    proof fn lemma_wf_model(&self) {
        let m = self.model();
        let lo = -(self.left@.len() as int);
        let hi = self.right@.len() as int;
        lemma_count_range_nonblank(m.cells, lo, hi);
        assert(m.nonblank_set() =~= crate::tape::nonblank_in_range(m.cells, lo, hi));
        lemma_count_range_le(m.cells, lo, hi, Symbol::NonBlank);
        lemma_census_count_range(m, lo, hi);
    }

    fn move_to(&mut self, direction: &Direction) {
        match direction {
            Direction::Left => {
                if -self.head == self.left.len() as i128 {
                    self.left.push(Symbol::Blank);
                }
                self.head = self.head - 1;
            },
            Direction::Right => {
                if self.head == self.right.len() as i128 {
                    self.right.push(Symbol::Blank);
                }
                self.head = self.head + 1;
            },
        }
        proof {
            assert(final(self).model().cells =~= old(self).model().cells);
            assert(final(self).model() =~= old(self).model().moved(*direction));
            let cells = final(self).model().cells;
            let lo0 = -(old(self).left@.len() as int);
            let hi0 = old(self).right@.len() as int;
            let lo1 = -(self.left@.len() as int);
            let hi1 = self.right@.len() as int;
            if lo1 < lo0 {
                assert(lo1 == lo0 - 1 && hi1 == hi0);
                lemma_count_range_lo(cells, lo1, hi1, Symbol::Blank);
                assert(cells[lo1] == Symbol::Blank);
            } else if hi1 > hi0 {
                assert(hi1 == hi0 + 1 && lo1 == lo0);
                assert(cells[hi0] == Symbol::Blank);
            } else {
                assert(lo1 == lo0 && hi1 == hi0);
            }
        }
    }

    fn read(&self) -> (r: Symbol) {
        if self.head >= 0 {
            let i = self.right_index();
            if i < self.right.len() {
                self.right[i]
            } else {
                Symbol::Blank
            }
        } else {
            let i = self.left_index();
            if i < self.left.len() {
                self.left[i]
            } else {
                Symbol::Blank
            }
        }
    }

    fn write(&mut self, symbol: Symbol) {
        if self.head >= 0 {
            let i = self.right_index();
            if i < self.right.len() {
                self.right[i] = symbol;
            } else {
                self.right.push(symbol);
            }
        } else {
            let i = self.left_index();
            self.left[i] = symbol;
        }
        proof {
            assert(final(self).model().cells =~= old(self).model().written(symbol).cells);
            assert(final(self).model() =~= old(self).model().written(symbol));
            let c1 = old(self).model().cells;
            let c2 = final(self).model().cells;
            let h = old(self).head as int;
            let lo0 = -(old(self).left@.len() as int);
            let hi0 = old(self).right@.len() as int;
            let lo1 = -(self.left@.len() as int);
            let hi1 = self.right@.len() as int;
            assert(forall|q: int| q != h ==> c1[q] == c2[q]);
            assert(lo1 == lo0);
            if hi1 > hi0 {
                assert(hi1 == hi0 + 1 && h == hi0);
                lemma_count_range_congruent(c1, c2, lo0, hi0, Symbol::Blank);
            } else {
                assert(hi1 == hi0);
                lemma_count_range_update(c1, c2, h, lo0, hi0, Symbol::Blank);
            }
        }
    }

    fn count(&self, target: &Symbol) -> (r: usize) {
        let ghost cells = self.model().cells;
        let ghost lo = -(self.left@.len() as int);
        let ghost hi = self.right@.len() as int;
        let target = *target;
        let mut acc: usize = 0;
        let ln = self.left.len();
        let mut i: usize = 0;
        while i < ln
            invariant
                0 <= i <= ln == self.left@.len(),
                cells == self.model().cells,
                acc == count_range(cells, -(i as int), 0, target),
                acc <= i,
            decreases ln - i,
        {
            proof {
                lemma_count_range_lo(cells, -(i as int) - 1, 0, target);
                assert(cells[-(i as int) - 1] == self.left@[i as int]);
            }
            if self.left[i] == target {
                acc = acc + 1;
            }
            i = i + 1;
        }
        let rn = self.right.len();
        let mut j: usize = 0;
        let mut acc2: usize = 0;
        while j < rn
            invariant
                0 <= j <= rn == self.right@.len(),
                cells == self.model().cells,
                acc2 == count_range(cells, 0, j as int, target),
                acc2 <= j,
            decreases rn - j,
        {
            proof {
                assert(cells[j as int] == self.right@[j as int]);
            }
            if self.right[j] == target {
                acc2 = acc2 + 1;
            }
            j = j + 1;
        }
        proof {
            lemma_count_range_split(cells, lo, 0, hi, target);
            if target == Symbol::NonBlank {
                lemma_count_range_nonblank(cells, lo, hi);
                assert(self.model().nonblank_set() =~= crate::tape::nonblank_in_range(
                    cells,
                    lo,
                    hi,
                ));
                lemma_census_count_range(self.model(), lo, hi);
            }
        }
        acc + acc2
    }
}

} // verus!
