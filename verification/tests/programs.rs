use busy_beaver::action::{self, Action, Actions};
use busy_beaver::complete::{
    ActionProblemDetail, CompleteProgram, CompletePrograms, KeyActionIterator, ParseError,
};
use busy_beaver::direction::{self, Direction};
use busy_beaver::incomplete::IncompleteProgram;
use busy_beaver::key::{Key, Keys};
use busy_beaver::program::Program;
use busy_beaver::state::{self, State};
use busy_beaver::symbol::{self, Symbol};

fn key(state: u8, symbol: Symbol) -> Key {
    Key {
        state: State::Number(state),
        symbol,
    }
}

fn action(symbol: Symbol, direction: Direction, state: State) -> Action {
    Action::Do {
        symbol,
        direction,
        state,
    }
}

#[test]
fn keys_up_to_contain_all_keys_up_to_maximum() {
    let mut iterator = Keys::up_to(2);
    let mut actual: Vec<Key> = Vec::new();
    while let Some(k) = iterator.next() {
        actual.push(k);
    }
    let expected: Vec<Key> = vec![
        key(0, Symbol::Blank),
        key(0, Symbol::NonBlank),
        key(1, Symbol::Blank),
        key(1, Symbol::NonBlank),
    ];

    assert_eq!(expected, actual)
}

#[test]
fn key_keys_up_to_contain_all_keys_up_to_maximum() {
    let mut iterator = Keys::up_to(2);
    let mut actual: Vec<Key> = Vec::new();
    while let Some(k) = iterator.next() {
        actual.push(k);
    }
    let expected: Vec<Key> = vec![
        key(0, Symbol::Blank),
        key(0, Symbol::NonBlank),
        key(1, Symbol::Blank),
        key(1, Symbol::NonBlank),
    ];

    assert_eq!(expected, actual)
}

#[test]
fn actions_up_to_contain_all_actions_up_to_maximum() {
    let mut iterator = Actions::up_to(2);
    let mut actual: Vec<Action> = Vec::new();
    while let Some(a) = iterator.next() {
        actual.push(a);
    }

    assert_eq!(
        vec![
            Action::Halt,
            action(Symbol::Blank, Direction::Left, State::Number(0)),
            action(Symbol::Blank, Direction::Right, State::Number(0)),
            action(Symbol::NonBlank, Direction::Left, State::Number(0)),
            action(Symbol::NonBlank, Direction::Right, State::Number(0)),
            action(Symbol::Blank, Direction::Left, State::Number(1)),
            action(Symbol::Blank, Direction::Right, State::Number(1)),
            action(Symbol::NonBlank, Direction::Left, State::Number(1)),
            action(Symbol::NonBlank, Direction::Right, State::Number(1)),
        ],
        actual
    )
}

#[test]
fn program_actions_up_to_contain_all_actions_up_to_maximum() {
    let mut iterator = Actions::up_to(1);
    let mut actual: Vec<Action> = Vec::new();
    while let Some(a) = iterator.next() {
        actual.push(a);
    }

    assert_eq!(
        vec![
            Action::Halt,
            action(Symbol::Blank, Direction::Left, State::Number(0)),
            action(Symbol::Blank, Direction::Right, State::Number(0)),
            action(Symbol::NonBlank, Direction::Left, State::Number(0)),
            action(Symbol::NonBlank, Direction::Right, State::Number(0)),
        ],
        actual
    )
}

#[test]
fn actions_can_be_parsed() {
    assert_eq!(Ok(Action::Halt), Action::from_str("  H"));
    assert_eq!(
        Ok(Action::Do {
            symbol: Symbol::Blank,
            direction: Direction::Left,
            state: State::Number(2)
        }),
        Action::from_str("0L2")
    );
}

#[test]
fn parse_checks_for_errors() {
    assert_eq!(
        Err(action::ParseError::IncorrectLength(2)),
        Action::from_str("..")
    );
    assert_eq!(
        Err(action::ParseError::IncorrectLength(4)),
        Action::from_str("....")
    );
    assert_eq!(
        Err(action::ParseError::SymbolProblem(
            symbol::ParseError::UnknownSymbol(" ".to_owned())
        )),
        Action::from_str(" L1")
    );
    assert_eq!(
        Err(action::ParseError::DirectionProblem(
            direction::ParseError::UnknownSymbol("H".to_owned())
        )),
        Action::from_str("0H1")
    );
    assert_eq!(
        Err(action::ParseError::StateProblem(
            state::ParseError::UnknownState("a".to_owned())
        )),
        Action::from_str("0La")
    );
}

#[test]
fn halt_destinations_are_only_spelled_with_the_halt_token() {
    assert_eq!(
        Err(action::ParseError::StateProblem(
            state::ParseError::UnknownState("H".to_owned())
        )),
        Action::from_str("1LH")
    );
}

#[test]
fn programs_can_be_parsed() {
    let mut expected = CompleteProgram::new();
    expected.insert(
        key(0, Symbol::Blank),
        action(Symbol::NonBlank, Direction::Right, State::Number(1)),
    );
    expected.insert(
        key(0, Symbol::NonBlank),
        action(Symbol::Blank, Direction::Right, State::Number(1)),
    );
    expected.insert(
        key(1, Symbol::Blank),
        action(Symbol::NonBlank, Direction::Left, State::Number(1)),
    );
    expected.insert(
        key(1, Symbol::NonBlank),
        action(Symbol::NonBlank, Direction::Right, State::Number(2)),
    );

    assert_eq!(Ok(expected), CompleteProgram::from_str("1R1 0R1 1L1 1R2"))
}

#[test]
fn program_parsing_reports_each_problem() {
    assert_eq!(Err(ParseError::NoInput), CompleteProgram::from_str(""));
    assert_eq!(
        Err(ParseError::InsufficientActions(1)),
        CompleteProgram::from_str("1R1")
    );
    assert_eq!(
        Err(ParseError::ActionProblem(ActionProblemDetail {
            index: 4,
            error: action::ParseError::DirectionProblem(direction::ParseError::UnknownSymbol(
                "X".to_owned()
            )),
        })),
        CompleteProgram::from_str("1R1 0X1")
    );
}

#[test]
fn tokens_must_be_separated_by_single_spaces() {
    assert_eq!(
        Err(ParseError::ActionProblem(ActionProblemDetail {
            index: 3,
            error: action::ParseError::UnknownSymbol("X".to_owned()),
        })),
        CompleteProgram::from_str("1R1X0R0")
    );
}

#[test]
fn key_action_iterator_can_be_iterated() {
    let program: CompleteProgram = CompleteProgram::from_str("1R0 0R0").unwrap();
    let expected: Vec<(Key, Action)> = vec![
        (
            key(0, Symbol::Blank),
            action(Symbol::NonBlank, Direction::Right, State::Number(0)),
        ),
        (
            key(0, Symbol::NonBlank),
            action(Symbol::Blank, Direction::Right, State::Number(0)),
        ),
    ];

    let mut iterator = KeyActionIterator::new(&program);
    let mut actual: Vec<(Key, Action)> = Vec::new();
    while let Some(pair) = iterator.next() {
        actual.push(pair);
    }

    assert_eq!(expected, actual)
}

#[test]
fn program_can_be_iterated() {
    let program: CompleteProgram = CompleteProgram::from_str("1R0 0R0").unwrap();
    let expected: Vec<(Key, Action)> = vec![
        (
            key(0, Symbol::Blank),
            action(Symbol::NonBlank, Direction::Right, State::Number(0)),
        ),
        (
            key(0, Symbol::NonBlank),
            action(Symbol::Blank, Direction::Right, State::Number(0)),
        ),
    ];

    let mut iterator = KeyActionIterator::new(&program);
    let mut actual: Vec<(Key, Action)> = Vec::new();
    while let Some(pair) = iterator.next() {
        actual.push(pair);
    }

    assert_eq!(expected, actual)
}

fn count_programs(mut programs: CompletePrograms) -> usize {
    let mut count: usize = 0;
    while let Some(_program) = programs.next() {
        count += 1;
    }
    count
}

#[test]
fn all1_contains_correct_number_of_programs() {
    let number_of_programs = count_programs(CompletePrograms::all(1));

    assert_eq!(number_of_programs, 25);
}

#[test]
fn all2_contains_correct_number_of_programs() {
    let number_of_programs = count_programs(CompletePrograms::all(2));

    assert_eq!(number_of_programs, 6561);
}

#[test]
fn enumeration_starts_with_the_all_halt_program() {
    let mut programs = CompletePrograms::all(1);
    let first = programs.next().unwrap();

    assert_eq!(Ok(first), CompleteProgram::from_str("  H   H"));
}

#[test]
fn empty_incomplete_programs_can_be_extended() {
    let program = IncompleteProgram::with_states(2);

    let mut extentions = program.extentions(key(0, Symbol::Blank));
    let mut actual: Vec<String> = Vec::new();
    while let Some(extended) = extentions.next() {
        actual.push(extended.render());
    }

    assert_eq!(
        vec![
            "  H ??? ??? ???",
            "0L0 ??? ??? ???",
            "0R0 ??? ??? ???",
            "1L0 ??? ??? ???",
            "1R0 ??? ??? ???",
            "0L1 ??? ??? ???",
            "0R1 ??? ??? ???",
            "1L1 ??? ??? ???",
            "1R1 ??? ??? ???",
        ],
        actual,
    )
}

#[test]
fn incomplete_programs_can_be_displayed() {
    let mut program = IncompleteProgram::with_states(1);
    program.insert(
        key(0, Symbol::Blank),
        action(Symbol::NonBlank, Direction::Right, State::Number(0)),
    );

    let actual = program.render();

    assert_eq!("1R0 ???", actual);
}

#[test]
fn programs_round_trip_through_their_text() {
    let program = CompleteProgram::from_str("1R1 0R1 1L1 1R2").unwrap();

    assert_eq!("1R1 0R1 1L1 1R2", program.render());
    assert_eq!(Ok(program), CompleteProgram::from_str("1R1 0R1 1L1 1R2"));

    let champion = CompleteProgram::from_str("1L1 1R2 1R0 1L1 1R1 1L2").unwrap();
    assert_eq!(Ok(champion), CompleteProgram::from_str(&CompleteProgram::from_str("1L1 1R2 1R0 1L1 1R1 1L2").unwrap().render()));
}

#[test]
fn multiplicity_counts_the_programs_an_incomplete_table_stands_for() {
    let mut program = IncompleteProgram::with_states(2);
    assert_eq!(6561, program.multiplicity());

    program.insert(key(0, Symbol::Blank), Action::Halt);
    assert_eq!(729, program.multiplicity());

    let complete = CompleteProgram::from_str("1R0 0R0").unwrap();
    assert_eq!(1, complete.multiplicity());
}
