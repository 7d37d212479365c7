use busy_beaver::complete::{CompleteProgram, CompletePrograms};
use busy_beaver::compound::CompoundTape;
use busy_beaver::direction::Direction;
use busy_beaver::key::Key;
use busy_beaver::machine::{Assessment, Details, Machine};
use busy_beaver::action::Action;
use busy_beaver::report::Report;
use busy_beaver::search::search;
use busy_beaver::simple::SimpleTape;
use busy_beaver::state::State;
use busy_beaver::symbol::Symbol;

#[test]
fn a_simple_machine_can_be_run() {
    let mut program = CompleteProgram::new();
    program.insert(
        Key {
            state: State::Number(0),
            symbol: Symbol::Blank,
        },
        Action::Do {
            symbol: Symbol::NonBlank,
            direction: Direction::Right,
            state: State::Number(1),
        },
    );
    program.insert(
        Key {
            state: State::Number(0),
            symbol: Symbol::NonBlank,
        },
        Action::Do {
            symbol: Symbol::NonBlank,
            direction: Direction::Left,
            state: State::Halted,
        },
    );
    program.insert(
        Key {
            state: State::Number(1),
            symbol: Symbol::Blank,
        },
        Action::Do {
            symbol: Symbol::NonBlank,
            direction: Direction::Left,
            state: State::Number(0),
        },
    );
    program.insert(
        Key {
            state: State::Number(1),
            symbol: Symbol::NonBlank,
        },
        Action::Do {
            symbol: Symbol::NonBlank,
            direction: Direction::Right,
            state: State::Halted,
        },
    );
    let start = State::Number(0);
    let mut machine = Machine::with(SimpleTape::empty(), start, &program);

    let steps = machine.run(10);

    assert_eq!(
        steps,
        Assessment::HaltedIn(Details {
            steps: 3,
            score: 2,
            multiplicity: 1
        })
    );
}

#[test]
fn an_all_halt_one_state_program_halts_in_one_step_with_score_zero() {
    let program = CompleteProgram::from_str("  H   H").unwrap();
    let mut machine = Machine::new(SimpleTape::empty(), &program);

    let assessment = machine.run(10);

    assert_eq!(
        assessment,
        Assessment::HaltedIn(Details {
            steps: 1,
            score: 0,
            multiplicity: 1
        })
    );
}

#[test]
fn a_right_running_two_state_program_exhausts_its_budget() {
    // This program only ever writes and moves right, so it never rereads a
    // cell and can never reach its one transition towards state 2; the
    // budget runs out with the machine still going.
    let program = CompleteProgram::from_str("1R1 1L2 1R0 1R0").unwrap();
    let mut machine = Machine::new(SimpleTape::empty(), &program);

    let assessment = machine.run(10);

    assert_eq!(
        assessment,
        Assessment::NotHalted(Details {
            steps: 10,
            score: 0,
            multiplicity: 1
        })
    );
}

#[test]
fn runs_are_deterministic() {
    let program = CompleteProgram::from_str("1R1 0R1 1L1 1R2").unwrap();
    let mut first = Machine::new(SimpleTape::empty(), &program);
    let mut second = Machine::new(SimpleTape::empty(), &program);

    assert_eq!(first.run(100), second.run(100));
}

#[test]
fn both_tape_representations_run_alike() {
    let program = CompleteProgram::from_str("0L1   H 1R0 1L1").unwrap();
    let mut with_simple = Machine::new(SimpleTape::empty(), &program);
    let mut with_compound = Machine::new(CompoundTape::empty(), &program);

    assert_eq!(with_simple.run(10), with_compound.run(10));
}

#[test]
fn both_tape_representations_run_alike_on_every_two_state_program() {
    let mut programs = CompletePrograms::all(2);
    while let Some(program) = programs.next() {
        let mut with_simple = Machine::new(SimpleTape::empty(), &program);
        let mut with_compound = Machine::new(CompoundTape::empty(), &program);

        assert_eq!(with_simple.run(100), with_compound.run(100));
    }
}

#[test]
fn enumeration_totals_match_the_report() {
    let mut report = Report::new();
    let mut programs = CompletePrograms::all(2);
    while let Some(program) = programs.next() {
        let mut machine = Machine::new(SimpleTape::empty(), &program);
        let assessment = machine.run(100);
        report.update_with(&assessment);
    }
    // Every complete program counts itself once: the totals are the whole
    // program space, for the plain enumeration and for the search alike.
    assert_eq!(6561, report.total());
    assert_eq!(6561, report.subjects());
    let search_report = search(2, 100);
    assert_eq!(6561, search_report.total());
    assert_eq!(report.halted_total(), search_report.halted_total());
    assert_eq!(
        report.indeterminate_total(),
        search_report.indeterminate_total()
    );
}

#[test]
fn search_conserves_the_one_state_program_space() {
    let report = search(1, 10);
    assert_eq!(25, report.total());
    assert_eq!(0, report.stuck_total());
}

#[test]
fn search_conserves_the_two_state_program_space() {
    let report = search(2, 6);
    assert_eq!(6561, report.total());
    assert_eq!(0, report.stuck_total());
}

#[test]
fn halted_machines_stay_halted() {
    let program = CompleteProgram::from_str("  H   H").unwrap();
    let mut machine = Machine::with(SimpleTape::empty(), State::Halted, &program);

    let before = machine.score();
    let first = machine.step();
    let second = machine.step();
    let after = machine.score();

    assert_eq!(first, second);
    assert_eq!(before, after);
}

#[test]
fn report_totals_do_not_depend_on_absorption_order() {
    let halted = Assessment::HaltedIn(Details {
        steps: 3,
        score: 2,
        multiplicity: 1,
    });
    let timed_out = Assessment::NotHalted(Details {
        steps: 10,
        score: 0,
        multiplicity: 9,
    });

    let mut one_way = Report::new();
    one_way.update_with(&halted);
    one_way.update_with(&timed_out);

    let mut other_way = Report::new();
    other_way.update_with(&timed_out);
    other_way.update_with(&halted);

    assert_eq!(one_way.subjects(), other_way.subjects());
    assert_eq!(one_way.total(), other_way.total());
    assert_eq!(one_way.halted_total(), other_way.halted_total());
    assert_eq!(one_way.indeterminate_total(), other_way.indeterminate_total());
    assert_eq!(one_way.stuck_total(), other_way.stuck_total());
}

#[test]
fn champion_tallies_do_not_depend_on_absorption_order() {
    let low = Details {
        steps: 2,
        score: 1,
        multiplicity: 1,
    };
    let high = Details {
        steps: 5,
        score: 2,
        multiplicity: 1,
    };

    let mut rising = Report::new();
    rising.halted(low);
    rising.halted(high);

    let mut falling = Report::new();
    falling.halted(high);
    falling.halted(low);

    let rising_sigma = rising.sigma_champion().unwrap();
    let falling_sigma = falling.sigma_champion().unwrap();
    assert_eq!(rising_sigma.record_details().score, 2);
    assert_eq!(falling_sigma.record_details().score, 2);
    // Exactly one absorbed run attains the record, in either order.
    assert_eq!(rising_sigma.record_count(), 1);
    assert_eq!(falling_sigma.record_count(), 1);

    let rising_s = rising.s_champion().unwrap();
    assert_eq!(rising_s.record_details().steps, 5);
    assert_eq!(rising_s.record_count(), 1);
}

#[test]
fn champion_tallies_count_the_runs_attaining_the_record() {
    let record = Details {
        steps: 5,
        score: 2,
        multiplicity: 1,
    };

    let mut report = Report::new();
    report.halted(record);
    report.halted(record);
    report.halted(Details {
        steps: 1,
        score: 0,
        multiplicity: 1,
    });

    assert_eq!(report.sigma_champion().unwrap().record_count(), 2);
    assert_eq!(report.s_champion().unwrap().record_count(), 2);
}
