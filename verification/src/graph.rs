//! The transition structure of a complete program as a directed graph:
//! one edge per non-halting transition, labelled with the symbol read.
//! Rendering the edges into a drawing is left to the caller.

use vstd::prelude::*;

use crate::action::Action;
use crate::complete::CompleteProgram;
use crate::key::key_at;
use crate::program::Program;
use crate::state::State;
use crate::symbol::Symbol;

verus! {

/// The edge a table slot contributes: a transition from the slot's state
/// to the action's destination, labelled by the symbol read — and nothing
/// for a halt.
pub open spec fn edge_of(index: int, action: Action) -> Seq<(State, State, Symbol)> {
    match action {
        Action::Halt => Seq::empty(),
        Action::Do { state, .. } => seq![(key_at(index).state, state, key_at(index).symbol)],
    }
}

/// The edges of the first `i` table slots, in slot order.
pub open spec fn edges_upto(actions: Seq<Action>, i: int) -> Seq<(State, State, Symbol)>
    decreases i,
{
    if i <= 0 {
        Seq::empty()
    } else {
        edges_upto(actions, i - 1) + edge_of(i - 1, actions[i - 1])
    }
}

/// Every non-halting transition of a complete program, as an edge from its
/// key's state to its destination state, labelled with the symbol read, in
/// key order.
pub fn transition_edges(program: &CompleteProgram) -> (r: Vec<(State, State, Symbol)>)
    requires
        program.wf(),
        program.actions().len() <= 512,
    ensures
        r@ == edges_upto(program.actions(), program.actions().len() as int),
{
    let mut edges: Vec<(State, State, Symbol)> = Vec::new();
    let mut iterator = crate::complete::KeyActionIterator::new(program);
    let ghost actions = program.actions();
    loop
        invariant
            actions == program.actions(),
            actions.len() <= 512,
            iterator.remaining().len() <= actions.len(),
            iterator.remaining() == Seq::new(
                (actions.len() - (actions.len() - iterator.remaining().len())) as nat,
                |j: int| (key_at(actions.len() - iterator.remaining().len() + j), actions[actions.len() - iterator.remaining().len() + j]),
            ),
            edges@ == edges_upto(actions, actions.len() - iterator.remaining().len()),
        ensures
            edges@ == edges_upto(actions, actions.len() as int),
        decreases iterator.remaining().len(),
    {
        let ghost done = actions.len() - iterator.remaining().len();
        let pair = match iterator.next() {
            Some(pair) => pair,
            None => {
                break ;
            },
        };
        proof {
            assert(pair == (key_at(done), actions[done]));
            assert(iterator.remaining() =~= Seq::new(
                (actions.len() - (done + 1)) as nat,
                |j: int| (key_at(done + 1 + j), actions[done + 1 + j]),
            ));
        }
        match pair.1 {
            Action::Halt => {
                proof {
                    assert(edges@ =~= edges_upto(actions, done + 1));
                }
            },
            Action::Do { state, .. } => {
                edges.push((pair.0.state, state, pair.0.symbol));
                proof {
                    assert(edges@ =~= edges_upto(actions, done + 1));
                }
            },
        }
    }
    edges
}

} // verus!
