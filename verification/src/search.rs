//! Depth-first branch-and-bound exploration of the program space: run
//! partially specified programs, and branch whenever an undecided
//! transition is needed, instead of materializing every complete program
//! up front.

use vstd::arithmetic::power::{lemma_pow_adds, lemma_pow_positive, lemma_pow1, pow};
use vstd::prelude::*;

use crate::incomplete::{
    lemma_branching_bounded_multiplicity, lemma_explore_bound_range, sum_multiplicity,
    IncompleteProgram,
};
use crate::key::Key;
use crate::machine::{
    key_of, lemma_spec_run_extend, lemma_spec_run_halted_stable, lemma_spec_run_unconsulted,
    spec_run, Config, Details, Machine, Progress,
};
use crate::tape::TapeModel;
use crate::program::{count_undecided, spec_lookup, spec_multiplicity, Lookup, Program};
use crate::report::Report;
use crate::simple::SimpleTape;
use crate::state::State;
use crate::tape::Tape;

verus! {

/// One search candidate: the steps already taken, the tape and state to
/// resume from, and the partial program being tried.
type Candidate = (u128, SimpleTape, State, IncompleteProgram);

/// The configuration every search candidate descends from: the all-blank
/// tape with the head at the origin, in state 0.
pub open spec fn initial_config() -> Config {
    Config { tape: TapeModel::blank(), state: State::Number(0) }
}

/// A candidate the search can still work on: besides its own well
/// formedness, it is exactly the state of running its partial program from
/// the initial configuration for the steps it carries — resuming it never
/// repeats or invents work.
pub open spec fn candidate_wf(c: Candidate, n: nat, maximum_steps: u128) -> bool {
    &&& c.1.wf()
    &&& c.3.wf()
    &&& c.3.state_count() == n
    &&& c.3.slots().len() == 2 * n
    &&& c.2 matches State::Number(s) && (s as nat) < n
    &&& c.0 <= maximum_steps
    &&& c.1.weight() <= 2 * c.0
    &&& spec_run(c.3.slots(), initial_config(), c.0 as nat) == (
        Config { tape: c.1.model(), state: c.2 },
        c.0 as nat,
        Progress::Made,
    )
}

/// One leaf of the search: the partial program it stopped with, the
/// details reported for it, and whether it halted.
#[verifier::ext_equal]
pub ghost struct SearchLeaf {
    /// The leaf's transition table.
    pub table: Seq<Option<crate::action::Action>>,
    /// The details the report absorbed for it.
    pub details: Details,
    /// Whether the leaf halted (true) or timed out (false).
    pub halted: bool,
}

/// The multiplicity mass of the leaves that ended one particular way.
pub open spec fn leaves_mass(leaves: Seq<SearchLeaf>, halted: bool) -> int
    decreases leaves.len(),
{
    if leaves.len() == 0 {
        0
    } else {
        leaves_mass(leaves.drop_last(), halted) + if leaves.last().halted == halted {
            leaves.last().details.multiplicity as int
        } else {
            0
        }
    }
}

/// What is true of every leaf the search reports: its multiplicity is its
/// table's; a halted leaf's steps and score are exactly what the bounded
/// run of its table from the initial configuration yields, so halted
/// tallies come only from genuinely halting runs; and a timed-out leaf's
/// table really was still running when the budget ran out — or halted on
/// the very step that spent it, which the step-at-a-time protocol reports
/// as timed out.
pub open spec fn leaf_ok(leaf: SearchLeaf, n: nat, maximum_steps: u128) -> bool {
    let outcome = spec_run(leaf.table, initial_config(), maximum_steps as nat);
    &&& leaf.details.multiplicity == spec_multiplicity(leaf.table, n)
    &&& leaf.halted ==> outcome.2 is Halted && outcome.1 == leaf.details.steps && outcome.0.tape.census() == leaf.details.score
    &&& !leaf.halted ==> (outcome.2 is Made || (outcome.2 is Halted && outcome.1
        == maximum_steps)) && leaf.details.steps >= maximum_steps && leaf.details.steps >= 1
}

/// How a report accounts for the leaves of a search: one subject per leaf,
/// and the halted and indeterminate tallies are exactly the masses of the
/// leaves that halted and timed out.
pub open spec fn search_accounts(
    r: Report,
    leaves: Seq<SearchLeaf>,
    n: nat,
    maximum_steps: u128,
) -> bool {
    &&& r.counters().subjects == leaves.len()
    &&& r.counters().halted == leaves_mass(leaves, true)
    &&& r.counters().indeterminate == leaves_mass(leaves, false)
    &&& forall|i: int| 0 <= i < leaves.len() ==> leaf_ok(#[trigger] leaves[i], n, maximum_steps)
}

/// One more leaf adds its mass to its own bucket and nothing to the other.
proof fn lemma_leaves_push(leaves: Seq<SearchLeaf>, leaf: SearchLeaf)
    ensures
        leaves_mass(leaves.push(leaf), leaf.halted) == leaves_mass(leaves, leaf.halted)
            + leaf.details.multiplicity,
        leaves_mass(leaves.push(leaf), !leaf.halted) == leaves_mass(leaves, !leaf.halted),
{
    assert(leaves.push(leaf).drop_last() =~= leaves);
    assert(leaves.push(leaf).last() == leaf);
}

/// The multiplicities of a stack of candidates, summed: how much of the
/// program space the stack still stands for.
pub open spec fn stack_total(cands: Seq<Candidate>, n: nat) -> int
    decreases cands.len(),
{
    if cands.len() == 0 {
        0
    } else {
        stack_total(cands.drop_last(), n) + spec_multiplicity(cands.last().3.slots(), n)
    }
}

/// A termination measure for the search: branching replaces one candidate
/// by at most `4n + 1` candidates with one fewer undecided slot each, so
/// weighing a candidate as `(4n + 2) ^ undecided` makes every pop-and-push
/// shrink the stack's weight.
pub open spec fn stack_measure(cands: Seq<Candidate>, n: nat) -> int
    decreases cands.len(),
{
    if cands.len() == 0 {
        0
    } else {
        stack_measure(cands.drop_last(), n) + pow(
            4 * n as int + 2,
            count_undecided(cands.last().3.slots()),
        )
    }
}

/// Every candidate weighs at least one, in multiplicity and in measure.
proof fn lemma_stack_nonneg(cands: Seq<Candidate>, n: nat)
    ensures
        stack_total(cands, n) >= 0,
        stack_measure(cands, n) >= 0,
        cands.len() > 0 ==> stack_total(cands, n) >= spec_multiplicity(cands.last().3.slots(), n),
        cands.len() > 0 ==> stack_measure(cands, n) >= pow(
            4 * n as int + 2,
            count_undecided(cands.last().3.slots()),
        ),
    decreases cands.len(),
{
    if cands.len() > 0 {
        lemma_stack_nonneg(cands.drop_last(), n);
        lemma_pow_positive(4 * n as int + 1, count_undecided(cands.last().3.slots()));
        lemma_pow_positive(4 * n as int + 2, count_undecided(cands.last().3.slots()));
    }
}

/// The multiplicities and measures of a family of extensions, summed.
proof fn lemma_stack_push(cands: Seq<Candidate>, c: Candidate, n: nat)
    ensures
        stack_total(cands.push(c), n) == stack_total(cands, n) + spec_multiplicity(
            c.3.slots(),
            n,
        ),
        stack_measure(cands.push(c), n) == stack_measure(cands, n) + pow(
            4 * n as int + 2,
            count_undecided(c.3.slots()),
        ),
{
    assert(cands.push(c).drop_last() =~= cands);
    assert(cands.push(c).last() == c);
}

/// Explore the whole space of programs with `n` working states, depth
/// first, running each candidate for at most `maximum_steps` steps, and
/// tally every leaf of the search in a report.
///
/// No candidate ever gets stuck: a partial program is undecided, never
/// defective, so the stuck tally stays zero. The total tally never exceeds
/// the size `(4n + 1) ^ (2n)` of the program space; and for up to two
/// states — where the symmetry pruning of the branching step never bites —
/// the multiplicities of the leaves sum to exactly that size: the search
/// conserves the program space it set out to cover.
///
/// The tallies account for real runs: there is a family of leaves, one
/// subject each, whose masses make up the halted and indeterminate
/// tallies, such that every halted leaf's steps and score are exactly the
/// bounded-run outcome of its own partial program, and every timed-out
/// leaf's program was genuinely still running at the budget.
pub fn search(n: u8, maximum_steps: u128) -> (r: Report)
    requires
        1 <= n <= 5,
        4 * maximum_steps + 4 <= usize::MAX,
        pow(4 * n as int + 1, 2 * n as nat) <= usize::MAX,
    ensures
        r.wf(),
        r.counters().stuck == 0,
        1 <= r.counters().subjects <= r.counters().total,
        r.counters().total <= pow(4 * n as int + 1, 2 * n as nat),
        n <= 2 ==> r.counters().total == pow(4 * n as int + 1, 2 * n as nat),
        exists|leaves: Seq<SearchLeaf>| #[trigger] search_accounts(r, leaves, n as nat, maximum_steps),
{
    let ghost space = pow(4 * n as int + 1, 2 * n as nat);
    let ghost mut leaves: Seq<SearchLeaf> = Seq::empty();
    let mut report = Report::new();
    let mut candidates: Vec<Candidate> = Vec::new();
    let first = (0u128, SimpleTape::empty(), State::Number(0), IncompleteProgram::with_states(n));
    proof {
        crate::program::lemma_multiplicity_bound(4 * n as nat + 1, 2 * n as nat);
        crate::incomplete::lemma_count_undecided_le(first.3.slots());
        lemma_count_all_none(first.3.slots());
        lemma_stack_push(Seq::<Candidate>::empty(), first, n as nat);
        assert(Config { tape: first.1.model(), state: first.2 } =~= initial_config());
        assert(spec_run(first.3.slots(), initial_config(), 0nat) == (
            initial_config(),
            0nat,
            Progress::Made,
        ));
    }
    candidates.push(first);
    loop
        invariant
            1 <= n <= 5,
            4 * maximum_steps + 4 <= usize::MAX,
            space == pow(4 * n as int + 1, 2 * n as nat),
            1 <= space <= usize::MAX,
            report.wf(),
            report.counters().stuck == 0,
            report.counters().subjects <= report.counters().total,
            forall|i: int|
                0 <= i < candidates@.len() ==> candidate_wf(
                    #[trigger] candidates@[i],
                    n as nat,
                    maximum_steps,
                ),
            report.counters().total + stack_total(candidates@, n as nat) <= space,
            n <= 2 ==> report.counters().total + stack_total(candidates@, n as nat) == space,
            report.counters().total >= 0,
            stack_total(candidates@, n as nat) >= 0,
            report.counters().subjects >= 1 || candidates@.len() > 0,
            search_accounts(report, leaves, n as nat, maximum_steps),
        ensures
            report.wf(),
            report.counters().stuck == 0,
            report.counters().subjects >= 1,
            report.counters().subjects <= report.counters().total,
            candidates@.len() == 0,
            report.counters().total + stack_total(candidates@, n as nat) <= space,
            n <= 2 ==> report.counters().total + stack_total(candidates@, n as nat) == space,
            search_accounts(report, leaves, n as nat, maximum_steps),
        decreases stack_measure(candidates@, n as nat),
    {
        proof {
            lemma_stack_nonneg(candidates@, n as nat);
        }
        let ghost stack0 = candidates@;
        let candidate = match candidates.pop() {
            Some(candidate) => candidate,
            None => {
                break ;
            },
        };
        proof {
            assert(stack0.drop_last() =~= candidates@);
            assert(candidate == stack0.last());
            lemma_stack_nonneg(candidates@, n as nat);
        }
        let (steps_taken, tape, state, program) = candidate;
        let ghost m = spec_multiplicity(program.slots(), n as nat);
        let ghost weight0 = pow(4 * n as int + 2, count_undecided(program.slots()));
        proof {
            assert(stack_total(stack0, n as nat) == stack_total(candidates@, n as nat) + m);
            assert(stack_measure(stack0, n as nat) == stack_measure(candidates@, n as nat)
                + weight0);
            lemma_pow_positive(4 * n as int + 2, count_undecided(program.slots()));
            crate::incomplete::lemma_wf_facts(&program);
            crate::incomplete::lemma_count_undecided_le(program.slots());
            crate::program::lemma_multiplicity_bound(
                4 * n as nat + 1,
                count_undecided(program.slots()),
            );
        }
        let mut machine = Machine::with(tape, state, &program);
        let mut step_count = steps_taken;
        let mut outcome = Progress::Made;
        loop
            invariant_except_break
                step_count <= maximum_steps,
            invariant
                1 <= n <= 5,
                4 * maximum_steps + 4 <= usize::MAX,
                machine.wf(),
                machine.spec_program() == &program,
                program.wf(),
                program.state_count() == n as nat,
                program.slots().len() == 2 * n as nat,
                machine.config().state is Halted || (machine.config().state matches State::Number(
                    s,
                ) && (s as nat) < n as nat),
                machine.tape_weight() <= 2 * step_count,
                spec_run(program.slots(), initial_config(), step_count as nat) == (
                    machine.config(),
                    step_count as nat,
                    if machine.config().state is Halted {
                        Progress::Halted
                    } else {
                        Progress::Made
                    },
                ),
            ensures
                machine.wf(),
                machine.spec_program() == &program,
                machine.tape_weight() + 2 <= usize::MAX,
                step_count <= maximum_steps + 1,
                outcome is Made || outcome is Halted || outcome is Limbo,
                outcome is Made ==> step_count >= maximum_steps && step_count >= 1,
                outcome is Made ==> (spec_run(
                    program.slots(),
                    initial_config(),
                    maximum_steps as nat,
                ).2 is Made || (spec_run(
                    program.slots(),
                    initial_config(),
                    maximum_steps as nat,
                ).2 is Halted && spec_run(
                    program.slots(),
                    initial_config(),
                    maximum_steps as nat,
                ).1 == maximum_steps)),
                outcome is Halted ==> machine.config().state is Halted && step_count
                    <= maximum_steps,
                outcome is Halted ==> spec_run(
                    program.slots(),
                    initial_config(),
                    step_count as nat,
                ) == (machine.config(), step_count as nat, Progress::Halted),
                outcome is Limbo ==> step_count <= maximum_steps,
                outcome is Limbo ==> (machine.config().state matches State::Number(s) && (
                s as nat) < n as nat) && spec_lookup(
                    program.slots(),
                    key_of(machine.config()),
                ) == Lookup::Indeterminate,
                outcome is Limbo ==> spec_run(
                    program.slots(),
                    initial_config(),
                    step_count as nat,
                ) == (machine.config(), step_count as nat, Progress::Made),
            decreases maximum_steps - step_count,
        {
            let ghost cfg_head = machine.config();
            let ghost count_head = step_count;
            proof {
                crate::incomplete::lemma_wf_facts(&program);
                if !(machine.config().state is Halted) {
                    let key = key_of(machine.config());
                    assert(0 <= key.spec_idx() < 2 * n as nat);
                    assert(spec_lookup(program.slots(), key) != Lookup::Unknown);
                }
            }
            let progress = machine.step();
            match progress {
                Progress::Made => {
                    proof {
                        lemma_spec_run_extend(
                            program.slots(),
                            initial_config(),
                            count_head as nat,
                        );
                    }
                    step_count = step_count + 1;
                    if step_count >= maximum_steps {
                        outcome = Progress::Made;
                        proof {
                            if count_head == maximum_steps {
                                assert(spec_run(
                                    program.slots(),
                                    initial_config(),
                                    maximum_steps as nat,
                                ) == (cfg_head, maximum_steps as nat, Progress::Made));
                            }
                        }
                        break ;
                    }
                },
                Progress::Halted => {
                    outcome = Progress::Halted;
                    break ;
                },
                Progress::Limbo => {
                    outcome = Progress::Limbo;
                    break ;
                },
                Progress::Stuck => {
                    proof {
                        assert(false);
                    }
                    outcome = Progress::Stuck;
                    break ;
                },
            }
        }
        match outcome {
            Progress::Made => {
                // The budget ran out while the candidate was still running:
                // report it as indeterminate, with its multiplicity.
                let multiplicity = program.multiplicity();
                let details = Details { steps: step_count, score: 0, multiplicity };
                proof {
                    let leaf = SearchLeaf { table: program.slots(), details, halted: false };
                    lemma_leaves_push(leaves, leaf);
                    assert(leaf_ok(leaf, n as nat, maximum_steps));
                    leaves = leaves.push(leaf);
                }
                report.indeterminated(details);
            },
            Progress::Halted => {
                let score = machine.score();
                let multiplicity = program.multiplicity();
                let details = Details { steps: step_count, score, multiplicity };
                proof {
                    lemma_spec_run_halted_stable(
                        program.slots(),
                        initial_config(),
                        step_count as nat,
                        maximum_steps as nat,
                    );
                    let leaf = SearchLeaf { table: program.slots(), details, halted: true };
                    lemma_leaves_push(leaves, leaf);
                    assert(leaf_ok(leaf, n as nat, maximum_steps));
                    leaves = leaves.push(leaf);
                }
                report.halted(details);
            },
            Progress::Limbo => {
                // Branch: fill the needed transition in every admissible
                // way and continue each copy from the same tape and state.
                let (t, s, _) = machine.into_parts();
                let key = Key { state: s, symbol: t.read() };
                let ghost bound = crate::incomplete::explore_bound(
                    program.slots(),
                    n as nat,
                    key,
                );
                let ghost family = Seq::new(
                    (4 * bound + 1) as nat,
                    |d: int|
                        program.slots().update(
                            key.spec_idx(),
                            Some(crate::action::action_at(d)),
                        ),
                );
                proof {
                    assert(key == key_of(machine.config()));
                    assert(0 <= key.spec_idx() < program.slots().len());
                    assert(Config { tape: t.model(), state: s } =~= machine.config());
                    assert(spec_run(program.slots(), initial_config(), step_count as nat) == (
                    Config { tape: t.model(), state: s },
                    step_count as nat,
                    Progress::Made,
                    ));
                    assert(program.slots()[key.spec_idx()] is None);
                    lemma_explore_bound_range(program.slots(), n as nat, key);
                    lemma_branching_bounded_multiplicity(
                        program.slots(),
                        n as nat,
                        key.spec_idx(),
                        bound,
                    );
                    lemma_measure_split(program.slots(), n as nat, key.spec_idx(), bound);
                }
                let mut exts = program.extentions(key);
                let ghost family_exts = exts.remaining();
                let ghost base_total = stack_total(candidates@, n as nat);
                let ghost base_measure = stack_measure(candidates@, n as nat);
                let ghost base_len = candidates@.len();
                loop
                    invariant
                        1 <= n <= 5,
                        exts.wf(),
                        t.wf(),
                        t.weight() <= 2 * step_count,
                        step_count <= maximum_steps,
                        s matches State::Number(v) && (v as nat) < n as nat,
                        program.wf(),
                        program.state_count() == n as nat,
                        program.slots().len() == 2 * n as nat,
                        0 <= key.spec_idx() < program.slots().len(),
                        program.slots()[key.spec_idx()] is None,
                        spec_run(program.slots(), initial_config(), step_count as nat) == (
                            Config { tape: t.model(), state: s },
                            step_count as nat,
                            Progress::Made,
                        ),
                        1 <= bound <= n,
                        family.len() == 4 * bound + 1,
                        forall|j: int|
                            0 <= j < family.len() ==> (#[trigger] family[j]) == program.slots().update(
                                key.spec_idx(),
                                Some(crate::action::action_at(j)),
                            ),
                        family_exts.len() == 4 * bound + 1,
                        candidates@.len() == base_len + family_exts.len()
                            - exts.remaining().len(),
                        exts.remaining().len() <= family_exts.len(),
                        exts.remaining() == family_exts.skip(
                            family_exts.len() - exts.remaining().len(),
                        ),
                        forall|j: int|
                            0 <= j < family_exts.len() ==> (#[trigger] family_exts[j]).slots
                                == family[j] && family_exts[j].n == n as nat,
                        forall|i: int|
                            0 <= i < candidates@.len() ==> candidate_wf(
                                #[trigger] candidates@[i],
                                n as nat,
                                maximum_steps,
                            ),
                        stack_total(candidates@, n as nat) == base_total + sum_multiplicity(
                            family.take(family_exts.len() - exts.remaining().len()),
                            n as nat,
                        ),
                        stack_measure(candidates@, n as nat) == base_measure + measure_of(
                            family.take(family_exts.len() - exts.remaining().len()),
                            n as nat,
                        ),
                    ensures
                        candidates@.len() == base_len + family_exts.len(),
                        forall|i: int|
                            0 <= i < candidates@.len() ==> candidate_wf(
                                #[trigger] candidates@[i],
                                n as nat,
                                maximum_steps,
                            ),
                        stack_total(candidates@, n as nat) == base_total + sum_multiplicity(
                            family,
                            n as nat,
                        ),
                        stack_measure(candidates@, n as nat) == base_measure + measure_of(
                            family,
                            n as nat,
                        ),
                    decreases exts.remaining().len(),
                {
                    let ghost done = family_exts.len() - exts.remaining().len();
                    let extension = match exts.next() {
                        Some(extension) => extension,
                        None => {
                            proof {
                                assert(family.take(
                                    family_exts.len() - exts.remaining().len(),
                                ) =~= family);
                            }
                            break ;
                        },
                    };
                    proof {
                        assert(family_exts.skip(done).len() > 0);
                        assert(0 <= done < family.len() == family_exts.len());
                        assert(family_exts.skip(done)[0] == family_exts[done]);
                        assert(family_exts.skip(done).drop_first() =~= family_exts.skip(done + 1));
                    }
                    let copy = (step_count, t.clone(), s, extension);
                    proof {
                        assert(copy.3.slots() == family[done]);
                        assert(copy.3.slots().len() == 2 * n as nat);
                        lemma_spec_run_unconsulted(
                            program.slots(),
                            initial_config(),
                            step_count as nat,
                            key.spec_idx(),
                            crate::action::action_at(done),
                        );
                        assert(spec_run(copy.3.slots(), initial_config(), copy.0 as nat) == (
                        Config { tape: copy.1.model(), state: copy.2 },
                        copy.0 as nat,
                        Progress::Made,
                        ));
                        assert(candidate_wf(copy, n as nat, maximum_steps));
                        lemma_stack_push(candidates@, copy, n as nat);
                        assert(family.take(done + 1).drop_last() =~= family.take(done));
                        assert(family.take(done + 1).last() == family[done]);
                    }
                    candidates.push(copy);
                }
                proof {
                    lemma_sum_mult_nonneg(family, n as nat);
                }
            },
            Progress::Stuck => {
                proof {
                    assert(false);
                }
            },
            #[allow(unreachable_patterns)]
            _ => {
                proof {
                    assert(false);
                }
            },
        }
        proof {
            lemma_stack_nonneg(candidates@, n as nat);
            assert(0 <= stack_measure(candidates@, n as nat) < stack_measure(stack0, n as nat));
        }
    }
    proof {
        assert(candidates@.len() == 0);
        assert(stack_total(candidates@, n as nat) == 0);
    }
    report
}

/// The termination weights of a family of extension tables, summed.
pub open spec fn measure_of(tables: Seq<Seq<Option<crate::action::Action>>>, n: nat) -> int
    decreases tables.len(),
{
    if tables.len() == 0 {
        0
    } else {
        measure_of(tables.drop_last(), n) + pow(
            4 * n as int + 2,
            count_undecided(tables.last()),
        )
    }
}

/// Branching strictly shrinks the termination measure: at most `4n + 1`
/// children, each weighing a `(4n + 2)`-th of their parent.
proof fn lemma_measure_split(slots: Seq<Option<crate::action::Action>>, n: nat, idx: int, b: int)
    requires
        0 <= idx < slots.len(),
        slots[idx] is None,
        1 <= b <= n,
    ensures
        measure_of(
            Seq::new((4 * b + 1) as nat, |d: int| slots.update(
                idx,
                Some(crate::action::action_at(d)),
            )),
            n,
        ) < pow(4 * n as int + 2, count_undecided(slots)),
{
    let family = Seq::new(
        (4 * b + 1) as nat,
        |d: int| slots.update(idx, Some(crate::action::action_at(d))),
    );
    let u = count_undecided(slots);
    lemma_update_decreases_public(slots, idx);
    let each = pow(4 * n as int + 2, (u - 1) as nat);
    lemma_measure_constant(family, n, each);
    lemma_pow_positive(4 * n as int + 2, (u - 1) as nat);
    assert(pow(4 * n as int + 2, u) == (4 * n as int + 2) * each) by {
        lemma_pow_adds(4 * n as int + 2, 1, (u - 1) as nat);
        lemma_pow1(4 * n as int + 2);
    }
    assert((4 * b + 1) * each < (4 * n as int + 2) * each) by (nonlinear_arith)
        requires
            1 <= b <= n,
            each >= 1,
    ;
}

/// A family of tables of one weight has their number times it as total
/// weight.
proof fn lemma_measure_constant(tables: Seq<Seq<Option<crate::action::Action>>>, n: nat, each: int)
    requires
        forall|d: int|
            0 <= d < tables.len() ==> pow(
                4 * n as int + 2,
                count_undecided(#[trigger] tables[d]),
            ) == each,
    ensures
        measure_of(tables, n) == tables.len() * each,
    decreases tables.len(),
{
    if tables.len() > 0 {
        lemma_measure_constant(tables.drop_last(), n, each);
        assert((tables.len() - 1) * each + each == tables.len() * each) by (nonlinear_arith);
    }
}

/// Deciding an undecided slot leaves one fewer undecided slot, whatever the
/// action.
proof fn lemma_update_decreases_public(slots: Seq<Option<crate::action::Action>>, idx: int)
    requires
        0 <= idx < slots.len(),
        slots[idx] is None,
    ensures
        count_undecided(slots) >= 1,
        forall|d: int|
            count_undecided(
                #[trigger] slots.update(idx, Some(crate::action::action_at(d))),
            ) == count_undecided(slots) - 1,
{
    assert forall|d: int|
        count_undecided(#[trigger] slots.update(idx, Some(crate::action::action_at(d))))
            == count_undecided(slots) - 1 by {
        crate::incomplete::lemma_update_none_removes(slots, idx, crate::action::action_at(d));
    }
    crate::incomplete::lemma_update_none_removes(slots, idx, crate::action::Action::Halt);
}

/// A family's multiplicities sum to something non-negative.
proof fn lemma_sum_mult_nonneg(tables: Seq<Seq<Option<crate::action::Action>>>, n: nat)
    ensures
        sum_multiplicity(tables, n) >= 0,
    decreases tables.len(),
{
    if tables.len() > 0 {
        lemma_sum_mult_nonneg(tables.drop_last(), n);
        lemma_pow_positive(4 * n as int + 1, count_undecided(tables.last()));
    }
}

/// A fully undecided table has every slot undecided.
proof fn lemma_count_all_none(slots: Seq<Option<crate::action::Action>>)
    requires
        forall|i: int| 0 <= i < slots.len() ==> (#[trigger] slots[i]) is None,
    ensures
        count_undecided(slots) == slots.len(),
    decreases slots.len(),
{
    if slots.len() > 0 {
        lemma_count_all_none(slots.drop_last());
    }
}

} // verus!
