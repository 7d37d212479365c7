use busy_beaver::compound::{CompoundTape, Occurrence};
use busy_beaver::direction::Direction;
use busy_beaver::simple::SimpleTape;
use busy_beaver::symbol::Symbol;
use busy_beaver::tape::{Instruction, Tape};

#[test]
fn simple_empty_tape_contains_blanks() {
    let tape = SimpleTape::empty();

    assert_eq!(tape.read(), Symbol::Blank);
}

#[test]
fn simple_tape_can_be_written_to() {
    let mut tape = SimpleTape::empty();

    tape.write(Symbol::NonBlank);

    assert_eq!(tape.read(), Symbol::NonBlank);
}

#[test]
fn simple_tape_can_count_symbols() {
    let mut tape = SimpleTape::empty();

    tape.write(Symbol::NonBlank);
    tape.move_to(&Direction::Right);
    tape.write(Symbol::NonBlank);

    assert_eq!(tape.count(&Symbol::NonBlank), 2usize);
}

#[test]
fn tape_empty_tape_contains_blanks() {
    let tape = SimpleTape::empty();

    assert_eq!(tape.read(), Symbol::Blank);
}

#[test]
fn tape_tape_can_be_written_to() {
    let mut tape = SimpleTape::empty();

    tape.write(Symbol::NonBlank);

    assert_eq!(tape.read(), Symbol::NonBlank);
}

#[test]
fn tape_tape_can_count_symbols() {
    let mut tape = SimpleTape::empty();

    tape.write(Symbol::NonBlank);
    tape.move_to(&Direction::Right);
    tape.write(Symbol::NonBlank);

    assert_eq!(tape.count(&Symbol::NonBlank), 2usize);
}

#[test]
fn compound_empty_tape_contains_blanks() {
    let tape = CompoundTape::empty();

    assert_eq!(tape.read(), Symbol::Blank);
}

#[test]
fn compound_tape_can_be_written_to() {
    let mut tape = CompoundTape::empty();

    tape.write(Symbol::NonBlank);

    assert_eq!(tape.read(), Symbol::NonBlank);
}

#[test]
fn compound_tape_can_count_symbols() {
    let mut tape = CompoundTape::empty();

    tape.write(Symbol::NonBlank);
    tape.move_to(&Direction::Right);
    tape.write(Symbol::NonBlank);

    assert_eq!(tape.count(&Symbol::NonBlank), 2usize);
}

#[test]
fn tape_can_move_efficiently() {
    let mut tape = CompoundTape::empty();

    for _ in 0..10 {
        tape.write(Symbol::NonBlank);
        tape.move_to(&Direction::Right);
    }

    assert_eq!(tape.count(&Symbol::NonBlank), 10usize);
}

fn execute_on(tape: &mut CompoundTape, instruction: &Instruction) {
    match *instruction {
        Instruction::Move(direction) => tape.move_to(&direction),
        Instruction::Write(symbol) => tape.write(symbol),
    }
}

fn check_sequence(instructions: Vec<Instruction>, expected: CompoundTape) {
    let mut actual = CompoundTape::empty();

    for instruction in &instructions {
        execute_on(&mut actual, instruction)
    }

    assert!(actual == expected);
}

#[test]
fn test_sequence_of_instructions() {
    check_sequence(vec![], CompoundTape::from_stacks(vec![], vec![]));
    check_sequence(
        vec![Instruction::Move(Direction::Left)],
        CompoundTape::from_stacks(vec![], vec![]),
    );
    check_sequence(
        vec![Instruction::Move(Direction::Right)],
        CompoundTape::from_stacks(vec![], vec![]),
    );
    check_sequence(
        vec![Instruction::Write(Symbol::Blank)],
        CompoundTape::from_stacks(vec![], vec![]),
    );
    check_sequence(
        vec![Instruction::Write(Symbol::NonBlank)],
        CompoundTape::from_stacks(vec![], vec![(Symbol::NonBlank, Occurrence::Finite(1))]),
    );
    check_sequence(
        vec![
            Instruction::Write(Symbol::NonBlank),
            Instruction::Move(Direction::Right),
        ],
        CompoundTape::from_stacks(vec![(Symbol::NonBlank, Occurrence::Finite(1))], vec![]),
    );
    check_sequence(
        vec![
            Instruction::Write(Symbol::NonBlank),
            Instruction::Move(Direction::Left),
        ],
        CompoundTape::from_stacks(
            vec![],
            vec![
                (Symbol::Blank, Occurrence::Finite(1)),
                (Symbol::NonBlank, Occurrence::Finite(1)),
            ],
        ),
    );
    check_sequence(
        vec![
            Instruction::Write(Symbol::NonBlank),
            Instruction::Move(Direction::Right),
            Instruction::Write(Symbol::Blank),
        ],
        CompoundTape::from_stacks(vec![(Symbol::NonBlank, Occurrence::Finite(1))], vec![]),
    );
    check_sequence(
        vec![
            Instruction::Write(Symbol::NonBlank),
            Instruction::Move(Direction::Right),
            Instruction::Write(Symbol::NonBlank),
        ],
        CompoundTape::from_stacks(
            vec![(Symbol::NonBlank, Occurrence::Finite(1))],
            vec![(Symbol::NonBlank, Occurrence::Finite(1))],
        ),
    );
    check_sequence(
        vec![
            Instruction::Write(Symbol::NonBlank),
            Instruction::Move(Direction::Left),
            Instruction::Write(Symbol::Blank),
        ],
        CompoundTape::from_stacks(
            vec![],
            vec![
                (Symbol::Blank, Occurrence::Finite(1)),
                (Symbol::NonBlank, Occurrence::Finite(1)),
            ],
        ),
    );
    check_sequence(
        vec![
            Instruction::Write(Symbol::NonBlank),
            Instruction::Move(Direction::Left),
            Instruction::Write(Symbol::NonBlank),
        ],
        CompoundTape::from_stacks(vec![], vec![(Symbol::NonBlank, Occurrence::Finite(2))]),
    );
}

#[test]
fn occurrences_can_be_adjusted_and_counted() {
    assert_eq!(Occurrence::Finite(2), Occurrence::Finite(1).increment());
    assert_eq!(Occurrence::Infinite, Occurrence::Infinite.increment());
    assert_eq!(Occurrence::Finite(0), Occurrence::Finite(1).decrement());
    assert_eq!(Occurrence::Finite(0), Occurrence::Finite(0).decrement());
    assert_eq!(Occurrence::Infinite, Occurrence::Infinite.decrement());
    assert_eq!(3usize, Occurrence::Finite(3).count());
    assert_eq!(0usize, Occurrence::Infinite.count());
    assert!(Occurrence::Infinite > Occurrence::Finite(1));
    assert!(Occurrence::Finite(2) > Occurrence::Finite(1));
}

fn both_tapes(instructions: &[Instruction]) -> (SimpleTape, CompoundTape) {
    let mut simple = SimpleTape::empty();
    let mut compound = CompoundTape::empty();
    for instruction in instructions {
        match *instruction {
            Instruction::Move(direction) => {
                simple.move_to(&direction);
                compound.move_to(&direction);
            }
            Instruction::Write(symbol) => {
                simple.write(symbol);
                compound.write(symbol);
            }
        }
        assert_eq!(simple.read(), compound.read());
        assert_eq!(
            simple.count(&Symbol::NonBlank),
            compound.count(&Symbol::NonBlank)
        );
    }
    (simple, compound)
}

#[test]
fn tape_representations_agree_step_by_step() {
    both_tapes(&[
        Instruction::Write(Symbol::NonBlank),
        Instruction::Move(Direction::Left),
        Instruction::Write(Symbol::NonBlank),
        Instruction::Move(Direction::Left),
        Instruction::Write(Symbol::Blank),
        Instruction::Move(Direction::Right),
        Instruction::Move(Direction::Right),
        Instruction::Move(Direction::Right),
        Instruction::Write(Symbol::NonBlank),
        Instruction::Write(Symbol::Blank),
        Instruction::Move(Direction::Left),
        Instruction::Write(Symbol::NonBlank),
    ]);
}
