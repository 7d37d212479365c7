//! The configuration a Turing machine is in provides a key to look up in a program.

use vstd::prelude::*;

use crate::state::State;
use crate::symbol::Symbol;

verus! {

/// The current configuration of a Turing machine: its state together with
/// the symbol under the tape head.
#[derive(Debug, PartialEq, Eq, Structural, Copy, Clone)]
pub struct Key {
    /// The state the machine is in.
    pub state: State,
    /// The symbol the tape head is reading.
    pub symbol: Symbol,
}

impl Key {
    /// The canonical index of this key into program storage: `2 * n` for the
    /// blank symbol in state `n`, `2 * n + 1` for the non-blank one. It is
    /// meaningful only for working states; the halted state indexes slot 0.
    pub fn idx(&self) -> (r: usize)
        ensures
            r == self.spec_idx(),
    {
        match (self.state, self.symbol) {
            (State::Number(s), Symbol::Blank) => 2 * (s as usize),
            (State::Number(s), Symbol::NonBlank) => 2 * (s as usize) + 1,
            _ => 0,
        }
    }

    /// What `idx` returns.
    pub open spec fn spec_idx(&self) -> int {
        match (self.state, self.symbol) {
            (State::Number(s), Symbol::Blank) => 2 * s as int,
            (State::Number(s), Symbol::NonBlank) => 2 * s as int + 1,
            _ => 0,
        }
    }

    /// The key whose canonical index is `index`.
    pub fn from_index(index: usize) -> (r: Key)
        requires
            index < 512,
        ensures
            r == key_at(index as int),
    {
        Key { state: State::from_index(index), symbol: Symbol::from_index(index) }
    }
}

/// The key whose canonical index is `index`: state `index / 2`, with the
/// non-blank symbol exactly on odd indices.
pub open spec fn key_at(index: int) -> Key {
    Key { state: State::spec_from_index(index), symbol: Symbol::spec_from_index(index) }
}

/// Yields the keys of every working state below a maximum, in index order.
pub struct Keys {
    items: Vec<Key>,
    index: usize,
}

impl Keys {
    /// The keys this iterator will still yield, in order.
    pub closed spec fn remaining(&self) -> Seq<Key> {
        if self.index <= self.items.len() {
            self.items@.skip(self.index as int)
        } else {
            seq![]
        }
    }

    /// The `2 * maximum` keys of the working states below `maximum`, in
    /// canonical index order.
    pub fn up_to(maximum: u8) -> (r: Self)
        ensures
            r.remaining() == Seq::new(2 * maximum as nat, |i: int| key_at(i)),
    {
        let mut items: Vec<Key> = Vec::new();
        let mut s: u8 = 0;
        while s < maximum
            invariant
                0 <= s <= maximum,
                items@.len() == 2 * s as int,
                forall|i: int| 0 <= i < items@.len() ==> items@[i] == key_at(i),
            decreases maximum - s,
        {
            items.push(Key { state: State::Number(s), symbol: Symbol::Blank });
            items.push(Key { state: State::Number(s), symbol: Symbol::NonBlank });
            s = s + 1;
        }
        let r = Self { items, index: 0 };
        proof {
            assert(r.remaining() =~= Seq::new(2 * maximum as nat, |i: int| key_at(i)));
        }
        r
    }

    /// The next key, if any is left.
    pub fn next(&mut self) -> (r: Option<Key>)
        ensures
            old(self).remaining().len() == 0 ==> r is None && final(self).remaining()
                == old(self).remaining(),
            old(self).remaining().len() > 0 ==> r == Some(old(self).remaining()[0]) && final(self).remaining() == old(self).remaining().drop_first(),
    {
        if self.index < self.items.len() {
            let item = self.items[self.index];
            self.index = self.index + 1;
            proof {
                assert(final(self).remaining() =~= old(self).remaining().drop_first());
            }
            Some(item)
        } else {
            None
        }
    }
}

} // verus!
