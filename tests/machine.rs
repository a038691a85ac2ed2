use std::usize::MAX;

use busy_beaver::chunk::split_ascii_string;
use busy_beaver::machine::{
    create_machine, decode_transition, split_states, ChunkError, Direction, ParseError, Transition,
    HALT_STATE,
};

#[test]
fn test_create_simple_two_state_machine_with_two_symbols() {
    let machine = create_machine("0RB1RB_0LA---".to_string()).unwrap();

    assert_eq!(machine.state_count, 2);
    assert_eq!(machine.transition_count, 2);

    assert_eq!(machine.states[0][0], Transition { to_write: 0, direction: Direction::Right, to_state: 1 });
    assert_eq!(machine.states[0][1], Transition { to_write: 1, direction: Direction::Right, to_state: 1 });
    assert_eq!(machine.states[1][0], Transition { to_write: 0, direction: Direction::Left, to_state: 0 });
    assert_eq!(machine.states[1][1], Transition { to_write: 0, direction: Direction::Halt, to_state: MAX });
}

#[test]
fn round_trip_example_has_exactly_four_transitions() {
    let machine = create_machine("0RB1RB_0LA---".to_string()).unwrap();
    assert_eq!(machine.states.len(), 2);
    let all: Vec<Transition> = machine.states.iter().flatten().copied().collect();
    assert_eq!(
        all,
        vec![
            Transition { to_write: 0, direction: Direction::Right, to_state: 1 },
            Transition { to_write: 1, direction: Direction::Right, to_state: 1 },
            Transition { to_write: 0, direction: Direction::Left, to_state: 0 },
            Transition { to_write: 0, direction: Direction::Halt, to_state: HALT_STATE },
        ]
    );
    assert_eq!(HALT_STATE, usize::MAX);
}

#[test]
fn state_count_is_number_of_segments() {
    let machine = create_machine("1RB1LC_1RC1RB_1RD0LE_1LA1LD_1RZ0LA".to_string()).unwrap();
    assert_eq!(machine.state_count, 5);
    assert_eq!(machine.states.len(), 5);
    assert_eq!(machine.transition_count, 2);
    for row in &machine.states {
        assert_eq!(row.len(), 2);
    }
    assert_eq!(machine.states[4][0], Transition { to_write: 1, direction: Direction::Right, to_state: 25 });
}

#[test]
fn three_symbol_machine() {
    let machine = create_machine("1RB2LB1LA_2LA2RB0RB".to_string()).unwrap();
    assert_eq!(machine.state_count, 2);
    assert_eq!(machine.transition_count, 3);
    assert_eq!(machine.states[0][1], Transition { to_write: 2, direction: Direction::Left, to_state: 1 });
    assert_eq!(machine.states[1][2], Transition { to_write: 0, direction: Direction::Right, to_state: 1 });
}

#[test]
fn empty_definition_is_one_empty_state() {
    let machine = create_machine(String::new()).unwrap();
    assert_eq!(machine.state_count, 1);
    assert_eq!(machine.transition_count, 0);
    assert_eq!(machine.states.len(), 1);
    assert!(machine.states[0].is_empty());
}

#[test]
fn invalid_direction_fails() {
    let r = create_machine("0XB".to_string());
    assert_eq!(
        r.unwrap_err(),
        ParseError::BadTransition { state: 0, symbol: 0, error: ChunkError::InvalidDirection('X') }
    );
}

#[test]
fn short_chunk_fails() {
    let r = create_machine("0R".to_string());
    assert_eq!(
        r.unwrap_err(),
        ParseError::BadTransition { state: 0, symbol: 0, error: ChunkError::MissingTarget }
    );
    let r = create_machine("0RB1".to_string());
    assert_eq!(
        r.unwrap_err(),
        ParseError::BadTransition { state: 0, symbol: 1, error: ChunkError::MissingDirection }
    );
}

#[test]
fn invalid_write_and_target_fail() {
    assert_eq!(
        create_machine("0RB1RB_xLA---".to_string()).unwrap_err(),
        ParseError::BadTransition { state: 1, symbol: 0, error: ChunkError::InvalidWrite('x') }
    );
    assert_eq!(
        create_machine("0RB1Rb_0LA---".to_string()).unwrap_err(),
        ParseError::BadTransition { state: 0, symbol: 1, error: ChunkError::InvalidTarget('b') }
    );
}

#[test]
fn shorter_later_state_fails() {
    assert_eq!(
        create_machine("0RB1RB_0LA".to_string()).unwrap_err(),
        ParseError::TransitionCount { state: 1, expected: 2, found: 1 }
    );
    assert_eq!(
        create_machine("0RB1RB_0LA1".to_string()).unwrap_err(),
        ParseError::BadTransition { state: 1, symbol: 1, error: ChunkError::MissingDirection }
    );
}

#[test]
fn longer_later_state_fails() {
    assert_eq!(
        create_machine("0RB_0LA1RB".to_string()).unwrap_err(),
        ParseError::TransitionCount { state: 1, expected: 1, found: 2 }
    );
}

#[test]
fn first_error_wins() {
    assert_eq!(
        create_machine("0RB0X-_0LA---_Q--".to_string()).unwrap_err(),
        ParseError::BadTransition { state: 0, symbol: 1, error: ChunkError::InvalidDirection('X') }
    );
}

#[test]
fn placeholders_decode_to_zero_and_halt() {
    assert_eq!(
        decode_transition("-LC"),
        Ok(Transition { to_write: 0, direction: Direction::Left, to_state: 2 })
    );
    assert_eq!(
        decode_transition("7R-"),
        Ok(Transition { to_write: 7, direction: Direction::Right, to_state: HALT_STATE })
    );
    assert_eq!(
        decode_transition("---"),
        Ok(Transition { to_write: 0, direction: Direction::Halt, to_state: HALT_STATE })
    );
}

#[test]
fn digits_and_letters_decode_to_values() {
    for (i, c) in "0123456789".chars().enumerate() {
        let text = format!("{}L-", c);
        assert_eq!(decode_transition(&text).unwrap().to_write, i);
    }
    for (i, c) in "ABCDEFGHIJKLMNOPQRSTUVWXYZ".chars().enumerate() {
        let text = format!("-R{}", c);
        assert_eq!(decode_transition(&text).unwrap().to_state, i);
    }
}

#[test]
fn decode_transition_errors() {
    assert_eq!(decode_transition(""), Err(ChunkError::MissingWrite));
    assert_eq!(decode_transition("1"), Err(ChunkError::MissingDirection));
    assert_eq!(decode_transition("1L"), Err(ChunkError::MissingTarget));
    assert_eq!(decode_transition("aLA"), Err(ChunkError::InvalidWrite('a')));
    assert_eq!(decode_transition("1lA"), Err(ChunkError::InvalidDirection('l')));
    assert_eq!(decode_transition("1L1"), Err(ChunkError::InvalidTarget('1')));
    assert_eq!(decode_transition("1LAB"), Err(ChunkError::TooLong));
}

#[test]
fn non_ascii_text_fails() {
    assert_eq!(
        create_machine("0RB1R\u{e9}".to_string()).unwrap_err(),
        ParseError::BadTransition { state: 0, symbol: 1, error: ChunkError::InvalidTarget('\u{e9}') }
    );
}

#[test]
fn split_into_threes() {
    assert_eq!(split_ascii_string("0RB1RB", 3), vec!["0RB".to_string(), "1RB".to_string()]);
    assert_eq!(split_ascii_string("0RB1R", 3), vec!["0RB".to_string(), "1R".to_string()]);
    assert_eq!(split_ascii_string("", 3), Vec::<String>::new());
    assert_eq!(split_ascii_string("abcde", 2), vec!["ab".to_string(), "cd".to_string(), "e".to_string()]);
}

#[test]
fn split_on_separator() {
    assert_eq!(split_states("0RB1RB_0LA---"), vec!["0RB1RB".to_string(), "0LA---".to_string()]);
    assert_eq!(split_states(""), vec![String::new()]);
    assert_eq!(split_states("_A_"), vec![String::new(), "A".to_string(), String::new()]);
}
