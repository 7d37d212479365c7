use busy_beaver::direction::{self, Direction, Directions};
use busy_beaver::state::{self, State, States};
use busy_beaver::symbol::{self, Symbol, Symbols};

#[test]
fn it_works() {
    assert_eq!(2 + 2, 4);
}

#[test]
fn same_symbols_are_equal() {
    assert_eq!(Symbol::Blank, Symbol::Blank);
    assert_eq!(Symbol::NonBlank, Symbol::NonBlank);
}

#[test]
fn distinct_symbols_are_non_equal() {
    assert_ne!(Symbol::Blank, Symbol::NonBlank);
    assert_ne!(Symbol::NonBlank, Symbol::Blank);
}

#[test]
fn symbols_can_be_parsed() {
    assert_eq!(Ok(Symbol::Blank), Symbol::from_str("0"));
    assert_eq!(Ok(Symbol::NonBlank), Symbol::from_str("1"));
}

#[test]
fn symbols_all_contain_all_symbols() {
    let mut iterator = Symbols::all();
    let mut actual: Vec<Symbol> = Vec::new();
    while let Some(symbol) = iterator.next() {
        actual.push(symbol);
    }
    assert_eq!(vec![Symbol::Blank, Symbol::NonBlank], actual);
}

#[test]
fn symbol_parse_rejects_other_text() {
    assert_eq!(
        Err(symbol::ParseError::UnknownSymbol("x".to_owned())),
        Symbol::from_str("x")
    );
}

#[test]
fn same_direction_are_equal() {
    assert_eq!(Direction::Left, Direction::Left);
    assert_eq!(Direction::Right, Direction::Right);
}

#[test]
fn distinct_direction_are_not_equal() {
    assert_ne!(Direction::Left, Direction::Right);
    assert_ne!(Direction::Right, Direction::Left);
}

#[test]
fn directions_can_be_parsed() {
    assert_eq!(Ok(Direction::Left), Direction::from_str("L"));
    assert_eq!(Ok(Direction::Right), Direction::from_str("R"));
}

#[test]
fn directions_all_contains_all_directions() {
    let mut iterator = Directions::all();
    let mut actual: Vec<Direction> = Vec::new();
    while let Some(direction) = iterator.next() {
        actual.push(direction);
    }
    assert_eq!(vec![Direction::Left, Direction::Right], actual);
}

#[test]
fn direction_parse_rejects_other_text() {
    assert_eq!(
        Err(direction::ParseError::UnknownSymbol("H".to_owned())),
        Direction::from_str("H")
    );
}

#[test]
fn same_states_are_equal() {
    assert_eq!(State::Halted, State::Halted);
    assert_eq!(State::Number(0u8), State::Number(0u8));
}

#[test]
fn distinct_states_are_not_equal() {
    assert_ne!(State::Halted, State::Number(0u8));
    assert_ne!(State::Number(0u8), State::Halted);
    assert_ne!(State::Number(0u8), State::Number(1u8));
}

#[test]
fn halted_is_the_only_halted_states() {
    assert!(State::Halted.halted());
    assert!(!State::Number(0u8).halted());
}

#[test]
fn states_can_be_parsed() {
    assert_eq!(Ok(State::Halted), State::from_str("H"));
    assert_eq!(Ok(State::Number(0)), State::from_str("0"));
    assert_eq!(Ok(State::Number(1)), State::from_str("1"));
}

#[test]
fn state_parse_handles_long_and_bad_text() {
    assert_eq!(Ok(State::Number(255)), State::from_str("255"));
    assert_eq!(
        Err(state::ParseError::UnknownState("256".to_owned())),
        State::from_str("256")
    );
    assert_eq!(
        Err(state::ParseError::UnknownState("a".to_owned())),
        State::from_str("a")
    );
    assert_eq!(
        Err(state::ParseError::UnknownState("".to_owned())),
        State::from_str("")
    );
}

#[test]
fn states_up_to_contains_all_states_up_to_argument() {
    let mut iterator = States::up_to(2);
    let mut actual: Vec<State> = Vec::new();
    while let Some(state) = iterator.next() {
        actual.push(state);
    }
    assert_eq!(
        vec![State::Halted, State::Number(0), State::Number(1)],
        actual
    );
}

#[test]
fn non_halted_states_contain_all_non_halted_states_up_to_argument() {
    let mut iterator = States::non_halted_up_to(3);
    let mut actual: Vec<State> = Vec::new();
    while let Some(state) = iterator.next() {
        actual.push(state);
    }
    assert_eq!(
        vec![State::Number(0), State::Number(1), State::Number(2)],
        actual
    );
}
