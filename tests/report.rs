use busy_beaver::machine::{create_machine, Machine};
use busy_beaver::report::{header_line, report_lines};

#[test]
fn two_symbol_header() {
    let machine = create_machine("0RB1RB_0LA---".to_string()).unwrap();
    assert_eq!(header_line(&machine), "BB(2)");
}

#[test]
fn other_symbol_count_header() {
    let machine = create_machine("1RB2LB1LA_2LA2RB0RB".to_string()).unwrap();
    assert_eq!(header_line(&machine), "BB(2, 3)");
    let empty = create_machine(String::new()).unwrap();
    assert_eq!(header_line(&empty), "BB(1, 0)");
}

#[test]
fn header_with_large_counts() {
    let machine = Machine { state_count: 12, transition_count: 105, states: Vec::new() };
    assert_eq!(header_line(&machine), "BB(12, 105)");
    let machine = Machine { state_count: 20, transition_count: 2, states: Vec::new() };
    assert_eq!(header_line(&machine), "BB(20)");
}

#[test]
fn full_report() {
    let machine = create_machine("0RB1RB_0LA---".to_string()).unwrap();
    let lines = report_lines(&machine);
    let expected = vec![
        "BB(2)",
        "To write: 0",
        "Direction: Right",
        "To state: 1",
        "To write: 1",
        "Direction: Right",
        "To state: 1",
        "",
        "To write: 0",
        "Direction: Left",
        "To state: 0",
        "To write: 0",
        "Direction: Halt",
        "To state: 18446744073709551615",
        "",
    ];
    assert_eq!(lines, expected);
}
