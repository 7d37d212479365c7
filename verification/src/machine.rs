//! The machine: couples a program with a tape and a current state, and
//! drives the step/run protocol.

use vstd::prelude::*;

use crate::action::Action;
use crate::key::Key;
use crate::program::{spec_lookup, spec_multiplicity, Lookup, Program};
use crate::state::State;
use crate::symbol::Symbol;
use crate::tape::{Tape, TapeModel};

verus! {

/// A machine configuration: the tape and the current state. The program is
/// read-only for a run, so it stands apart.
#[verifier::ext_equal]
pub ghost struct Config {
    /// The abstract tape.
    pub tape: TapeModel,
    /// The current state.
    pub state: State,
}

/// The key the machine looks up from a configuration: its state and the
/// symbol under the head.
pub open spec fn key_of(cfg: Config) -> Key {
    Key { state: cfg.state, symbol: cfg.tape.read() }
}

/// What one step reports from a configuration: halted machines stay halted,
/// a missing table entry is a defect, an undecided one asks the caller to
/// branch, and a determined action makes progress.
pub open spec fn step_progress(slots: Seq<Option<Action>>, cfg: Config) -> Progress {
    if cfg.state is Halted {
        Progress::Halted
    } else {
        match spec_lookup(slots, key_of(cfg)) {
            Lookup::Unknown => Progress::Stuck,
            Lookup::Indeterminate => Progress::Limbo,
            Lookup::Determined(_) => Progress::Made,
        }
    }
}

/// The configuration after one step: only a determined action changes
/// anything — a halt enters the halted state, and a write/move/go action
/// does exactly that.
pub open spec fn step_next(slots: Seq<Option<Action>>, cfg: Config) -> Config {
    if cfg.state is Halted {
        cfg
    } else {
        match spec_lookup(slots, key_of(cfg)) {
            Lookup::Determined(Action::Halt) => Config { tape: cfg.tape, state: State::Halted },
            Lookup::Determined(Action::Do { symbol, direction, state }) => Config {
                tape: cfg.tape.written(symbol).moved(direction),
                state,
            },
            _ => cfg,
        }
    }
}

/// A whole run from a configuration under a step budget: the configuration
/// reached, the steps taken, and how it ended — `Halted` for a halt within
/// budget, `Made` for a budget that ran out while the machine was still
/// going, `Stuck` or `Limbo` for a step that could not be made. The run is
/// a pure function of program, tape, state and budget: identical inputs
/// always give the identical outcome.
pub open spec fn spec_run(slots: Seq<Option<Action>>, cfg: Config, budget: nat) -> (
    Config,
    nat,
    Progress,
)
    decreases budget,
{
    if cfg.state is Halted {
        (cfg, 0nat, Progress::Halted)
    } else if budget == 0 {
        (cfg, 0nat, Progress::Made)
    } else {
        let pr = step_progress(slots, cfg);
        if pr is Made {
            let (c2, k, q) = spec_run(slots, step_next(slots, cfg), (budget - 1) as nat);
            (c2, (k + 1) as nat, q)
        } else {
            (cfg, 0nat, pr)
        }
    }
}

/// A run takes no more steps than its budget.
pub proof fn lemma_spec_run_steps(slots: Seq<Option<Action>>, cfg: Config, budget: nat)
    ensures
        spec_run(slots, cfg, budget).1 <= budget,
    decreases budget,
{
    if !(cfg.state is Halted) && budget > 0 && step_progress(slots, cfg) is Made {
        lemma_spec_run_steps(slots, step_next(slots, cfg), (budget - 1) as nat);
    }
}

/// A run that spent its whole budget making steps extends by one more
/// step: the new step lands where `step_next` says, and the run ends
/// halted exactly when that step halted the machine.
pub proof fn lemma_spec_run_extend(slots: Seq<Option<Action>>, cfg0: Config, k: nat)
    requires
        spec_run(slots, cfg0, k).1 == k,
        spec_run(slots, cfg0, k).2 is Made,
        step_progress(slots, spec_run(slots, cfg0, k).0) is Made,
    ensures
        spec_run(slots, cfg0, k + 1) == (
            step_next(slots, spec_run(slots, cfg0, k).0),
            k + 1,
            if step_next(slots, spec_run(slots, cfg0, k).0).state is Halted {
                Progress::Halted
            } else {
                Progress::Made
            },
        ),
    decreases k,
{
    let c = spec_run(slots, cfg0, k).0;
    assert(!(cfg0.state is Halted));
    let next0 = step_next(slots, cfg0);
    if k == 0 {
        assert(c == cfg0);
        assert(spec_run(slots, next0, 0nat) == (
            next0,
            0nat,
            if next0.state is Halted {
                Progress::Halted
            } else {
                Progress::Made
            },
        ));
        assert(spec_run(slots, cfg0, 1) == run_shift(spec_run(slots, next0, 0nat), 1nat));
    } else {
        assert(step_progress(slots, cfg0) is Made);
        assert(spec_run(slots, cfg0, k) == run_shift(
            spec_run(slots, next0, (k - 1) as nat),
            1nat,
        ));
        lemma_spec_run_extend(slots, next0, (k - 1) as nat);
        assert(spec_run(slots, cfg0, k + 1) == run_shift(spec_run(slots, next0, k), 1nat));
    }
}

/// A run that halted within its budget looks the same under any larger
/// budget: the extra budget is never spent.
pub proof fn lemma_spec_run_halted_stable(slots: Seq<Option<Action>>, cfg0: Config, k: nat, b: nat)
    requires
        spec_run(slots, cfg0, k).2 is Halted,
        k <= b,
    ensures
        spec_run(slots, cfg0, b) == spec_run(slots, cfg0, k),
    decreases k,
{
    if !(cfg0.state is Halted) {
        assert(k > 0);
        assert(step_progress(slots, cfg0) is Made);
        lemma_spec_run_halted_stable(
            slots,
            step_next(slots, cfg0),
            (k - 1) as nat,
            (b - 1) as nat,
        );
    }
}

/// Deciding a slot the run never consulted does not change the run: a run
/// of nothing but made steps only ever looked at decided slots, so filling
/// an undecided one leaves every step, and the configuration reached, the
/// same. This is why the search can resume a branched candidate without
/// repeating work.
pub proof fn lemma_spec_run_unconsulted(
    slots: Seq<Option<Action>>,
    cfg0: Config,
    k: nat,
    idx: int,
    action: Action,
)
    requires
        spec_run(slots, cfg0, k).1 == k,
        spec_run(slots, cfg0, k).2 is Made,
        0 <= idx < slots.len(),
        slots[idx] is None,
    ensures
        spec_run(slots.update(idx, Some(action)), cfg0, k) == spec_run(slots, cfg0, k),
    decreases k,
{
    let slots2 = slots.update(idx, Some(action));
    if cfg0.state is Halted {
        assert(spec_run(slots, cfg0, k).2 is Halted);
    } else if k == 0 {
    } else {
        assert(step_progress(slots, cfg0) is Made);
        let key = key_of(cfg0);
        assert(key.spec_idx() != idx);
        assert(spec_lookup(slots2, key) == spec_lookup(slots, key));
        assert(step_progress(slots2, cfg0) is Made);
        assert(step_next(slots2, cfg0) == step_next(slots, cfg0));
        lemma_spec_run_unconsulted(slots, step_next(slots, cfg0), (k - 1) as nat, idx, action);
    }
}

/// Once halted, a machine is inert: a step reports the halted outcome and
/// changes neither tape nor state, and a whole run — under any budget —
/// takes zero steps and leaves the configuration untouched, so the score
/// can never change either.
pub proof fn lemma_halted_is_terminal(slots: Seq<Option<Action>>, cfg: Config, budget: nat)
    requires
        cfg.state is Halted,
    ensures
        step_progress(slots, cfg) == Progress::Halted,
        step_next(slots, cfg) == cfg,
        spec_run(slots, cfg, budget) == (cfg, 0nat, Progress::Halted),
{
}

/// A Turing machine: an owned tape, a read-only program, and the current
/// state. The state changes only through a program lookup driven by the
/// current state and the symbol under the head.
pub struct Machine<'a, T: Tape, P: Program> {
    tape: T,
    program: &'a P,
    state: State,
}

impl<'a, T: Tape, P: Program> Machine<'a, T, P> {
    /// The representation invariant: tape and program are both well formed.
    pub closed spec fn wf(&self) -> bool {
        &&& self.tape.wf()
        &&& self.program.wf()
    }

    /// The machine's configuration.
    pub closed spec fn config(&self) -> Config {
        Config { tape: self.tape.model(), state: self.state }
    }

    /// The program driving the machine.
    pub closed spec fn spec_program(&self) -> &'a P {
        self.program
    }

    /// The tape's weight: how many cells it has materialized.
    pub closed spec fn tape_weight(&self) -> nat {
        self.tape.weight()
    }

    /// The tape itself.
    pub closed spec fn spec_tape(&self) -> T {
        self.tape
    }

    /// The current state.
    pub closed spec fn spec_state(&self) -> State {
        self.state
    }

    /// Create a machine over a tape and a program, starting in state 0.
    pub fn new(tape: T, program: &'a P) -> (r: Self)
        requires
            tape.wf(),
            program.wf(),
        ensures
            r.wf(),
            r.config() == (Config { tape: tape.model(), state: State::Number(0) }),
            r.spec_program() == program,
            r.tape_weight() == tape.weight(),
    {
        Self { tape, state: State::Number(0), program }
    }

    /// Create a machine over a tape and a program, resuming from an
    /// arbitrary state.
    pub fn with(tape: T, state: State, program: &'a P) -> (r: Self)
        requires
            tape.wf(),
            program.wf(),
        ensures
            r.wf(),
            r.config() == (Config { tape: tape.model(), state }),
            r.spec_program() == program,
            r.tape_weight() == tape.weight(),
    {
        Self { tape, state, program }
    }

    /// Take the machine apart into its tape, state and program, for a
    /// caller that wants to continue from where a run stopped.
    pub fn into_parts(self) -> (r: (T, State, &'a P))
        ensures
            r.0 == self.spec_tape(),
            r.1 == self.spec_state(),
            r.2 == self.spec_program(),
            r.1 == self.config().state,
            r.0.model() == self.config().tape,
            r.0.weight() == self.tape_weight(),
            self.wf() ==> r.0.wf() && r.2.wf(),
    {
        let Machine { tape, program, state } = self;
        (tape, state, program)
    }

    /// Take a single step: report what happened and apply exactly the one
    /// determined action, if there was one.
    pub fn step(&mut self) -> (r: Progress)
        requires
            old(self).wf(),
            old(self).tape_weight() + 2 <= usize::MAX,
        ensures
            final(self).wf(),
            final(self).spec_program() == old(self).spec_program(),
            final(self).tape_weight() <= old(self).tape_weight() + 2,
            r == step_progress(old(self).spec_program().slots(), old(self).config()),
            final(self).config() == step_next(old(self).spec_program().slots(), old(self).config()),
            !(r is Made) ==> final(self).tape_weight() == old(self).tape_weight(),
    {
        if !self.state.halted() {
            let key = Key { state: self.state, symbol: self.tape.read() };
            match self.program.lookup(&key) {
                Lookup::Unknown => Progress::Stuck,
                Lookup::Indeterminate => Progress::Limbo,
                Lookup::Determined(Action::Halt) => {
                    self.state = State::Halted;
                    Progress::Made
                },
                Lookup::Determined(Action::Do { symbol, direction, state }) => {
                    self.tape.write(symbol);
                    self.tape.move_to(&direction);
                    self.state = state;
                    Progress::Made
                },
            }
        } else {
            Progress::Halted
        }
    }

    /// Run until the machine halts, the budget runs out, or a step cannot
    /// be made. The outcome — and the final tape and state — is a pure
    /// function of the program, the starting tape and state, and the
    /// budget: identical inputs always yield the identical outcome.
    pub fn run(&mut self, maximum_steps: u128) -> (r: Assessment)
        requires
            old(self).wf(),
            old(self).tape_weight() + 2 * maximum_steps <= usize::MAX,
            spec_multiplicity(
                old(self).spec_program().slots(),
                old(self).spec_program().state_count(),
            ) <= usize::MAX,
        ensures
            final(self).wf(),
            final(self).spec_program() == old(self).spec_program(),
            final(self).tape_weight() <= old(self).tape_weight() + 2 * maximum_steps,
            final(self).config() == spec_run(
                old(self).spec_program().slots(),
                old(self).config(),
                maximum_steps as nat,
            ).0,
            spec_run(old(self).spec_program().slots(), old(self).config(), maximum_steps as nat).2
                is Halted ==> (r matches Assessment::HaltedIn(d) && d.steps == spec_run(
                old(self).spec_program().slots(),
                old(self).config(),
                maximum_steps as nat,
            ).1 && d.score == spec_run(
                old(self).spec_program().slots(),
                old(self).config(),
                maximum_steps as nat,
            ).0.tape.census() && d.multiplicity == spec_multiplicity(
                old(self).spec_program().slots(),
                old(self).spec_program().state_count(),
            )),
            spec_run(old(self).spec_program().slots(), old(self).config(), maximum_steps as nat).2 is Made
                ==> (r matches Assessment::NotHalted(d) && d.steps == maximum_steps && d.score == 0
                && d.multiplicity == spec_multiplicity(
                old(self).spec_program().slots(),
                old(self).spec_program().state_count(),
            )),
            spec_run(old(self).spec_program().slots(), old(self).config(), maximum_steps as nat).2
                is Stuck || spec_run(
                old(self).spec_program().slots(),
                old(self).config(),
                maximum_steps as nat,
            ).2 is Limbo ==> (r matches Assessment::NoProgress(q, d) && q == spec_run(
                old(self).spec_program().slots(),
                old(self).config(),
                maximum_steps as nat,
            ).2 && d.steps == spec_run(
                old(self).spec_program().slots(),
                old(self).config(),
                maximum_steps as nat,
            ).1 && d.score == 0 && d.multiplicity == spec_multiplicity(
                old(self).spec_program().slots(),
                old(self).spec_program().state_count(),
            )),
    {
        let ghost slots = self.program.slots();
        let ghost cfg0 = self.config();
        let ghost budget0 = maximum_steps as nat;
        let mut steps_taken: u128 = 0;
        proof {
            lemma_spec_run_steps(slots, cfg0, budget0);
        }
        while !self.state.halted() && steps_taken < maximum_steps
            invariant
                self.wf(),
                self.spec_program() == old(self).spec_program(),
                slots == self.program.slots(),
                budget0 == maximum_steps as nat,
                cfg0 == old(self).config(),
                steps_taken <= maximum_steps,
                self.tape_weight() <= old(self).tape_weight() + 2 * steps_taken,
                old(self).tape_weight() + 2 * maximum_steps <= usize::MAX,
                spec_multiplicity(slots, self.program.state_count()) <= usize::MAX,
                spec_run(slots, cfg0, budget0) == run_shift(
                    spec_run(
                        slots,
                        self.config(),
                        (maximum_steps - steps_taken) as nat,
                    ),
                    steps_taken as nat,
                ),
            decreases maximum_steps - steps_taken,
        {
            let ghost cfg_here = self.config();
            let ghost rem = (maximum_steps - steps_taken) as nat;
            let progress = self.step();
            if matches!(progress, Progress::Made) {
                steps_taken = steps_taken + 1;
                proof {
                    assert(spec_run(slots, cfg_here, rem) == run_shift(
                        spec_run(slots, self.config(), (rem - 1) as nat),
                        1nat,
                    ));
                }
            } else {
                proof {
                    assert(spec_run(slots, cfg_here, rem) == (cfg_here, 0nat, progress));
                }
                let m = self.program.multiplicity();
                return Assessment::NoProgress(
                    progress,
                    Details { steps: steps_taken, score: 0, multiplicity: m },
                );
            }
        }
        if self.state.halted() {
            proof {
                assert(spec_run(slots, self.config(), (maximum_steps - steps_taken) as nat) == (
                self.config(),
                0nat,
                Progress::Halted,
                ));
            }
            let score = self.score();
            let m = self.program.multiplicity();
            Assessment::HaltedIn(Details { steps: steps_taken, score, multiplicity: m })
        } else {
            proof {
                assert(spec_run(slots, self.config(), 0nat) == (
                self.config(),
                0nat,
                Progress::Made,
                ));
            }
            let m = self.program.multiplicity();
            Assessment::NotHalted(Details { steps: steps_taken, score: 0, multiplicity: m })
        }
    }

    /// The number of non-blank symbols on the tape.
    pub fn score(&self) -> (r: usize)
        requires
            self.wf(),
        ensures
            r == self.config().tape.census(),
    {
        self.tape.count(&Symbol::NonBlank)
    }
}

/// A run outcome with its step count pushed later by steps already taken.
pub open spec fn run_shift(r: (Config, nat, Progress), by: nat) -> (Config, nat, Progress) {
    (r.0, (r.1 + by) as nat, r.2)
}

/// What one step of a Turing machine reported.
#[derive(Debug, PartialEq, Eq, Structural, Copy, Clone)]
pub enum Progress {
    /// The machine was already halted.
    Halted,
    /// The program's table is missing the needed transition: a defect in a
    /// program that was assumed complete.
    Stuck,
    /// The needed transition is intentionally undecided: the caller must
    /// branch and extend the program.
    Limbo,
    /// The machine performed a transition.
    Made,
}

/// How a bounded run of a Turing machine ended.
#[derive(Debug, PartialEq, Eq, Structural, Copy, Clone)]
pub enum Assessment {
    /// A step could not be made before the machine halted: the enclosed
    /// progress says whether the program was defective or merely undecided.
    NoProgress(Progress, Details),
    /// The machine halted within the budget: conclusive.
    HaltedIn(Details),
    /// The budget ran out while the machine was still running:
    /// inconclusive — it might still halt later.
    NotHalted(Details),
}

/// The externally observable summary of one run.
#[derive(Debug, PartialEq, Eq, Structural, Clone, Copy)]
pub struct Details {
    /// The number of steps taken.
    pub steps: u128,
    /// The number of non-blank symbols left on the tape; meaningful only
    /// for a halted run.
    pub score: usize,
    /// How many concrete programs the run stands for.
    pub multiplicity: usize,
}



} // verus!
