//! Simulation of two-symbol Turing machines for exploring the busy beaver
//! problem: the search for the maximum number of steps, or of non-blank
//! cells, that a halting machine with a given number of states can produce.
//!
//! The crate models programs (complete and partial transition tables), tapes
//! (a direct array-backed tape and a run-length encoded tape, behaviourally
//! indistinguishable), the machine that drives a program over a tape, the
//! enumeration of every complete program for a given state count, and a
//! depth-first branch-and-bound search over partial programs.

pub mod action;
pub mod complete;
pub mod compound;
pub mod direction;
pub mod graph;
pub mod incomplete;
pub mod key;
pub mod machine;
pub mod program;
pub mod report;
pub mod search;
pub mod simple;
pub mod state;
pub mod symbol;
pub mod tape;

pub use action::{Action, Actions};
pub use complete::{CompleteProgram, CompletePrograms, KeyActionIterator};
pub use compound::CompoundTape;
pub use direction::{Direction, Directions};
pub use graph::transition_edges;
pub use incomplete::{Extentions, IncompleteProgram};
pub use key::{Key, Keys};
pub use machine::{Assessment, Config, Details, Machine, Progress};
pub use program::{Lookup, Program};
pub use report::{Champion, Report};
pub use search::search;
pub use simple::SimpleTape;
pub use state::{State, States};
pub use symbol::{Symbol, Symbols};
pub use tape::{Instruction, Tape, TapeModel};
