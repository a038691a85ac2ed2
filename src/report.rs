//! The text report of a decoded machine: a header naming its size, then
//! three lines per transition and a blank line after each state.

use vstd::prelude::*;

use crate::machine::{Direction, Machine, Transition};

verus! {

/// The decimal digit `d`.
pub open spec fn digit_char(d: nat) -> char {
    seq!['0', '1', '2', '3', '4', '5', '6', '7', '8', '9'][d as int]
}

/// The decimal numeral of `n`, without leading zeros.
pub open spec fn decimal(n: nat) -> Seq<char>
    decreases n,
{
    if n < 10 {
        seq![digit_char(n)]
    } else {
        decimal(n / 10).push(digit_char(n % 10))
    }
}

/// Relies on `ToString::to_string` through the standard `Display` of `usize`,
/// which writes the number in decimal without sign or leading zeros.
#[verifier::external_body]
fn decimal_text(n: usize) -> (r: String)
    ensures
        r@ == decimal(n as nat),
{
    n.to_string()
}

/// The header: `BB(N)` for a two-symbol machine of `N` states, else `BB(N, K)`
/// with `K` symbols.
pub open spec fn header_text(state_count: nat, transition_count: nat) -> Seq<char> {
    if transition_count == 2 {
        "BB("@ + decimal(state_count) + ")"@
    } else {
        "BB("@ + decimal(state_count) + ", "@ + decimal(transition_count) + ")"@
    }
}

/// The name of a direction in the report.
pub open spec fn direction_text(d: Direction) -> Seq<char> {
    match d {
        Direction::Left => "Left"@,
        Direction::Right => "Right"@,
        Direction::Halt => "Halt"@,
    }
}

/// The three lines that describe one transition.
pub open spec fn transition_lines(t: Transition) -> Seq<Seq<char>> {
    seq![
        "To write: "@ + decimal(t.to_write as nat),
        "Direction: "@ + direction_text(t.direction),
        "To state: "@ + decimal(t.to_state as nat),
    ]
}

/// The lines of the transitions of one state, in order.
pub open spec fn row_lines(row: Seq<Transition>) -> Seq<Seq<char>>
    decreases row.len(),
{
    if row.len() == 0 {
        seq![]
    } else {
        row_lines(row.drop_last()) + transition_lines(row.last())
    }
}

/// The lines of every state, each state followed by a blank line.
pub open spec fn table_lines(table: Seq<Seq<Transition>>) -> Seq<Seq<char>>
    decreases table.len(),
{
    if table.len() == 0 {
        seq![]
    } else {
        table_lines(table.drop_last()) + row_lines(table.last()).push(seq![])
    }
}

/// The text of the lines of `v`.
pub open spec fn lines_view(v: Seq<String>) -> Seq<Seq<char>> {
    v.map_values(|l: String| l@)
}

fn joined(label: &str, value: &str) -> (r: String)
    ensures
        r@ == label@ + value@,
{
    let mut s = label.to_owned();
    s.append(value);
    s
}

fn direction_name(d: Direction) -> (r: &'static str)
    ensures
        r@ == direction_text(d),
{
    match d {
        Direction::Left => "Left",
        Direction::Right => "Right",
        Direction::Halt => "Halt",
    }
}

/// The header line of the report of `machine`.
pub fn header_line(machine: &Machine) -> (r: String)
    ensures
        r@ == header_text(machine.state_count as nat, machine.transition_count as nat),
{
    let mut s = joined("BB(", decimal_text(machine.state_count).as_str());
    if machine.transition_count != 2 {
        s.append(", ");
        s.append(decimal_text(machine.transition_count).as_str());
    }
    s.append(")");
    s
}

/// All lines of the report of `machine`: the header, then for each state
/// the lines of its transitions and a blank line.
pub fn report_lines(machine: &Machine) -> (r: Vec<String>)
    ensures
        lines_view(r@) == seq![
            header_text(machine.state_count as nat, machine.transition_count as nat),
        ] + table_lines(machine.table()),
{
    let mut lines: Vec<String> = Vec::new();
    lines.push(header_line(machine));
    let ghost head = seq![
        header_text(machine.state_count as nat, machine.transition_count as nat),
    ];
    let ghost table = machine.table();
    let mut i: usize = 0;
    proof {
        assert(table.take(0) =~= Seq::<Seq<Transition>>::empty());
        assert(lines_view(lines@) =~= head + table_lines(table.take(0)));
    }
    while i < machine.states.len()
        invariant
            i <= machine.states@.len(),
            table == machine.table(),
            table.len() == machine.states@.len(),
            lines_view(lines@) == head + table_lines(table.take(i as int)),
        decreases machine.states@.len() - i,
    {
        let row = &machine.states[i];
        let mut k: usize = 0;
        assert(table[i as int] == row@);
        proof {
            assert(row@.take(0) =~= Seq::<Transition>::empty());
            assert(lines_view(lines@) =~= head + table_lines(table.take(i as int)) + row_lines(
                row@.take(0),
            ));
        }
        while k < row.len()
            invariant
                k <= row@.len(),
                lines_view(lines@) == head + table_lines(table.take(i as int)) + row_lines(
                    row@.take(k as int),
                ),
            decreases row@.len() - k,
        {
            let t = row[k];
            let ghost before = lines_view(lines@);
            lines.push(joined("To write: ", decimal_text(t.to_write).as_str()));
            lines.push(joined("Direction: ", direction_name(t.direction)));
            lines.push(joined("To state: ", decimal_text(t.to_state).as_str()));
            proof {
                assert(row@.take(k + 1).drop_last() =~= row@.take(k as int));
                assert(lines_view(lines@) =~= before + transition_lines(t));
            }
            k = k + 1;
        }
        let ghost before = lines_view(lines@);
        lines.push(String::new());
        proof {
            assert(row@.take(k as int) =~= row@);
            assert(table.take(i + 1).drop_last() =~= table.take(i as int));
            assert(lines_view(lines@) =~= before.push(Seq::<char>::empty()));
        }
        i = i + 1;
    }
    proof {
        assert(table.take(i as int) =~= table);
    }
    lines
}

} // verus!
