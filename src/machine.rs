//! The transition table of a machine and its decoding from text.
//!
//! A definition lists the states separated by `_`. Each state is a run of
//! three-character transitions, one per symbol read: the symbol to write
//! (`-` or a digit), the direction (`-`, `L` or `R`) and the next state
//! (`-` or a letter `A`..`Z`).

use vstd::prelude::*;

use crate::chunk::{chunks, lemma_chunks_exact, lemma_chunks_full, split_ascii_string};

verus! {

/// The character that separates the states of a definition.
pub const SEPARATOR: char = '_';

/// The next-state value of a transition that halts.
pub const HALT_STATE: usize = usize::MAX;

/// Where the head moves after writing.
#[derive(Debug, Clone, Copy, PartialEq, Eq, Structural)]
pub enum Direction {
    Left,
    Right,
    Halt,
}

/// What a machine does in one state on reading one symbol.
#[derive(Debug, Clone, Copy, PartialEq, Eq, Structural)]
pub struct Transition {
    pub to_write: usize,
    pub direction: Direction,
    /// The index of the next state, or `HALT_STATE`.
    pub to_state: usize,
}

/// Why the text of one transition could not be decoded.
#[derive(Debug, Clone, Copy, PartialEq, Eq, Structural)]
pub enum ChunkError {
    MissingWrite,
    MissingDirection,
    MissingTarget,
    InvalidWrite(char),
    InvalidDirection(char),
    InvalidTarget(char),
    /// More than three characters were given.
    TooLong,
}

/// The symbol written, for the first character of a transition.
pub open spec fn write_value(c: char) -> Option<usize> {
    if c == '-' {
        Some(0)
    } else if '0' <= c && c <= '9' {
        Some((c as u32 - '0' as u32) as usize)
    } else {
        None
    }
}

/// The direction, for the second character of a transition.
pub open spec fn direction_value(c: char) -> Option<Direction> {
    if c == '-' {
        Some(Direction::Halt)
    } else if c == 'L' {
        Some(Direction::Left)
    } else if c == 'R' {
        Some(Direction::Right)
    } else {
        None
    }
}

/// The next state, for the third character of a transition.
pub open spec fn target_value(c: char) -> Option<usize> {
    if c == '-' {
        Some(HALT_STATE)
    } else if 'A' <= c && c <= 'Z' {
        Some((c as u32 - 'A' as u32) as usize)
    } else {
        None
    }
}

/// The transition that the text `c` encodes, or the first thing wrong with it.
pub open spec fn decode_spec(c: Seq<char>) -> Result<Transition, ChunkError> {
    if c.len() == 0 {
        Err(ChunkError::MissingWrite)
    } else if write_value(c[0]) is None {
        Err(ChunkError::InvalidWrite(c[0]))
    } else if c.len() == 1 {
        Err(ChunkError::MissingDirection)
    } else if direction_value(c[1]) is None {
        Err(ChunkError::InvalidDirection(c[1]))
    } else if c.len() == 2 {
        Err(ChunkError::MissingTarget)
    } else if target_value(c[2]) is None {
        Err(ChunkError::InvalidTarget(c[2]))
    } else if c.len() > 3 {
        Err(ChunkError::TooLong)
    } else {
        Ok(
            Transition {
                to_write: write_value(c[0])->0,
                direction: direction_value(c[1])->0,
                to_state: target_value(c[2])->0,
            },
        )
    }
}

fn write_symbol(c: char) -> (r: Option<usize>)
    ensures
        r == write_value(c),
{
    if c == '-' {
        Some(0)
    } else if '0' <= c && c <= '9' {
        Some((c as u32 - '0' as u32) as usize)
    } else {
        None
    }
}

fn direction_symbol(c: char) -> (r: Option<Direction>)
    ensures
        r == direction_value(c),
{
    if c == '-' {
        Some(Direction::Halt)
    } else if c == 'L' {
        Some(Direction::Left)
    } else if c == 'R' {
        Some(Direction::Right)
    } else {
        None
    }
}

fn target_symbol(c: char) -> (r: Option<usize>)
    ensures
        r == target_value(c),
{
    if c == '-' {
        Some(HALT_STATE)
    } else if 'A' <= c && c <= 'Z' {
        Some((c as u32 - 'A' as u32) as usize)
    } else {
        None
    }
}

/// Decodes the three characters of one transition.
pub fn decode_transition(chunk: &str) -> (r: Result<Transition, ChunkError>)
    ensures
        r == decode_spec(chunk@),
{
    let n = chunk.unicode_len();
    if n == 0 {
        return Err(ChunkError::MissingWrite);
    }
    let c0 = chunk.get_char(0);
    let to_write = match write_symbol(c0) {
        Some(v) => v,
        None => return Err(ChunkError::InvalidWrite(c0)),
    };
    if n == 1 {
        return Err(ChunkError::MissingDirection);
    }
    let c1 = chunk.get_char(1);
    let direction = match direction_symbol(c1) {
        Some(d) => d,
        None => return Err(ChunkError::InvalidDirection(c1)),
    };
    if n == 2 {
        return Err(ChunkError::MissingTarget);
    }
    let c2 = chunk.get_char(2);
    let to_state = match target_symbol(c2) {
        Some(v) => v,
        None => return Err(ChunkError::InvalidTarget(c2)),
    };
    if n > 3 {
        return Err(ChunkError::TooLong);
    }
    Ok(Transition { to_write, direction, to_state })
}

/// The states of a definition: the text between separators, in order. A
/// definition without a separator is one state.
pub open spec fn segments(s: Seq<char>) -> Seq<Seq<char>>
    decreases s.len(),
{
    if s.len() == 0 {
        seq![seq![]]
    } else {
        let init = segments(s.drop_last());
        if s.last() == SEPARATOR {
            init.push(seq![])
        } else {
            init.update(init.len() - 1, init.last().push(s.last()))
        }
    }
}

/// There is always at least one state.
pub proof fn lemma_segments_nonempty(s: Seq<char>)
    ensures
        segments(s).len() >= 1,
    decreases s.len(),
{
    if s.len() > 0 {
        lemma_segments_nonempty(s.drop_last());
    }
}

/// Splits a definition into the text of its states.
pub fn split_states(s: &str) -> (r: Vec<String>)
    ensures
        r@.len() == segments(s@).len(),
        forall|i: int| 0 <= i < r@.len() ==> #[trigger] r@[i]@ == segments(s@)[i],
{
    let n = s.unicode_len();
    let mut out: Vec<String> = Vec::new();
    let mut start: usize = 0;
    let mut i: usize = 0;
    proof {
        assert(s@.take(0) =~= Seq::<char>::empty());
        assert(s@.subrange(0, 0) =~= Seq::<char>::empty());
    }
    while i < n
        invariant
            n == s@.len(),
            start <= i <= n,
            out@.len() + 1 == segments(s@.take(i as int)).len(),
            forall|j: int| 0 <= j < out@.len() ==> #[trigger] out@[j]@ == segments(s@.take(i as int))[j],
            s@.subrange(start as int, i as int) == segments(s@.take(i as int)).last(),
        decreases n - i,
    {
        let c = s.get_char(i);
        proof {
            lemma_segments_nonempty(s@.take(i as int));
            assert(s@.take(i + 1).drop_last() =~= s@.take(i as int));
            assert(s@.take(i + 1).last() == c);
        }
        if c == SEPARATOR {
            let piece = s.substring_char(start, i).to_owned();
            out.push(piece);
            start = i + 1;
            proof {
                assert(s@.subrange(start as int, i + 1) =~= Seq::<char>::empty());
            }
        } else {
            proof {
                assert(s@.subrange(start as int, i + 1) =~= s@.subrange(start as int, i as int).push(c));
            }
        }
        i = i + 1;
    }
    let last = s.substring_char(start, n).to_owned();
    out.push(last);
    proof {
        assert(s@.take(n as int) =~= s@);
    }
    out
}

/// Why a definition could not be decoded.
#[derive(Debug, Clone, Copy, PartialEq, Eq, Structural)]
pub enum ParseError {
    /// The transition for `symbol` in state `state` is malformed.
    BadTransition { state: usize, symbol: usize, error: ChunkError },
    /// State `state` has `found` transitions where the first state has `expected`.
    TransitionCount { state: usize, expected: usize, found: usize },
}

/// A decoded transition table.
#[derive(Debug)]
pub struct Machine {
    pub state_count: usize,
    /// The number of symbols, that is of transitions in each state.
    pub transition_count: usize,
    pub states: Vec<Vec<Transition>>,
}

impl Machine {
    /// The transitions of each state.
    pub open spec fn table(&self) -> Seq<Seq<Transition>> {
        self.states@.map_values(|row: Vec<Transition>| row@)
    }

    /// The counts agree with the table, and every state has one transition
    /// per symbol.
    pub open spec fn wf(&self) -> bool {
        &&& self.state_count == self.states@.len()
        &&& forall|i: int|
            0 <= i < self.states@.len() ==> #[trigger] self.states@[i]@.len()
                == self.transition_count
    }
}

/// The transitions that the pieces `cs` encode, or the index of the first
/// malformed one with what is wrong with it.
pub open spec fn decode_row(cs: Seq<Seq<char>>) -> Result<Seq<Transition>, (int, ChunkError)>
    decreases cs.len(),
{
    if cs.len() == 0 {
        Ok(seq![])
    } else {
        match decode_row(cs.drop_last()) {
            Err(e) => Err(e),
            Ok(row) => match decode_spec(cs.last()) {
                Ok(tr) => Ok(row.push(tr)),
                Err(e) => Err((cs.len() - 1, e)),
            },
        }
    }
}

/// The transitions of state number `state`, whose text is `seg`, in a
/// machine of `count` symbols.
pub open spec fn state_spec(seg: Seq<char>, state: usize, count: usize) -> Result<
    Seq<Transition>,
    ParseError,
> {
    match decode_row(chunks(seg, 3)) {
        Err((k, e)) => Err(ParseError::BadTransition { state, symbol: k as usize, error: e }),
        Ok(row) => if row.len() == count {
            Ok(row)
        } else {
            Err(ParseError::TransitionCount { state, expected: count, found: row.len() as usize })
        },
    }
}

/// The table of the states `segs`, or the error of the first state that fails.
pub open spec fn table_spec(segs: Seq<Seq<char>>, count: usize) -> Result<
    Seq<Seq<Transition>>,
    ParseError,
>
    decreases segs.len(),
{
    if segs.len() == 0 {
        Ok(seq![])
    } else {
        match table_spec(segs.drop_last(), count) {
            Err(e) => Err(e),
            Ok(t) => match state_spec(segs.last(), (segs.len() - 1) as usize, count) {
                Err(e) => Err(e),
                Ok(row) => Ok(t.push(row)),
            },
        }
    }
}

/// The number of symbols of a definition: the length of its first state over three.
pub open spec fn symbol_count(s: Seq<char>) -> nat {
    segments(s)[0].len() / 3
}

/// The table that the definition `s` encodes, or the first error in it.
pub open spec fn parse_spec(s: Seq<char>) -> Result<Seq<Seq<Transition>>, ParseError> {
    table_spec(segments(s), symbol_count(s) as usize)
}

/// Once a prefix of the pieces fails, the whole row fails with the same error.
proof fn lemma_decode_row_err(cs: Seq<Seq<char>>, j: int)
    requires
        0 <= j <= cs.len(),
        decode_row(cs.take(j)) is Err,
    ensures
        decode_row(cs) == decode_row(cs.take(j)),
    decreases cs.len(),
{
    if j == cs.len() {
        assert(cs.take(j) =~= cs);
    } else {
        assert(cs.drop_last().take(j) =~= cs.take(j));
        lemma_decode_row_err(cs.drop_last(), j);
    }
}

/// Once a prefix of the states fails, the whole table fails with the same error.
proof fn lemma_table_err(segs: Seq<Seq<char>>, count: usize, j: int)
    requires
        0 <= j <= segs.len(),
        table_spec(segs.take(j), count) is Err,
    ensures
        table_spec(segs, count) == table_spec(segs.take(j), count),
    decreases segs.len(),
{
    if j == segs.len() {
        assert(segs.take(j) =~= segs);
    } else {
        assert(segs.drop_last().take(j) =~= segs.take(j));
        lemma_table_err(segs.drop_last(), count, j);
    }
}

fn decode_state(seg: &str, state: usize, count: usize) -> (r: Result<Vec<Transition>, ParseError>)
    ensures
        match r {
            Ok(row) => state_spec(seg@, state, count) == Ok::<Seq<Transition>, ParseError>(row@),
            Err(e) => state_spec(seg@, state, count) == Err::<Seq<Transition>, ParseError>(e),
        },
{
    let pieces = split_ascii_string(seg, 3);
    let ghost cs = chunks(seg@, 3);
    let mut row: Vec<Transition> = Vec::new();
    let mut k: usize = 0;
    proof {
        assert(cs.take(0) =~= Seq::<Seq<char>>::empty());
    }
    while k < pieces.len()
        invariant
            k <= pieces@.len(),
            cs == chunks(seg@, 3),
            pieces@.len() == cs.len(),
            forall|i: int| 0 <= i < pieces@.len() ==> #[trigger] pieces@[i]@ == cs[i],
            decode_row(cs.take(k as int)) == Ok::<Seq<Transition>, (int, ChunkError)>(row@),
        decreases pieces@.len() - k,
    {
        let decoded = decode_transition(pieces[k].as_str());
        proof {
            assert(cs.take(k + 1).drop_last() =~= cs.take(k as int));
            assert(cs.take(k + 1).last() == pieces@[k as int]@);
        }
        match decoded {
            Ok(tr) => {
                row.push(tr);
            },
            Err(e) => {
                proof {
                    lemma_decode_row_err(cs, k + 1);
                }
                return Err(ParseError::BadTransition { state, symbol: k, error: e });
            },
        }
        k = k + 1;
    }
    proof {
        assert(cs.take(k as int) =~= cs);
    }
    if row.len() != count {
        return Err(ParseError::TransitionCount { state, expected: count, found: row.len() });
    }
    Ok(row)
}

/// Decodes a whole definition into its transition table.
///
/// The states are the text between `_` separators, in order. The number of
/// symbols is the length of the first state over three, and every state
/// must hold exactly that many well-formed transitions.
pub fn create_machine(machine: String) -> (r: Result<Machine, ParseError>)
    ensures
        match r {
            Ok(m) => {
                &&& parse_spec(machine@) == Ok::<Seq<Seq<Transition>>, ParseError>(m.table())
                &&& m.wf()
                &&& m.state_count == segments(machine@).len()
                &&& m.transition_count == symbol_count(machine@)
            },
            Err(e) => parse_spec(machine@) == Err::<Seq<Seq<Transition>>, ParseError>(e),
        },
{
    let s = machine.as_str();
    let states = split_states(s);
    let ghost segs = segments(s@);
    proof {
        lemma_segments_nonempty(s@);
    }
    let state_count = states.len();
    let transition_count = states[0].unicode_len() / 3;
    let mut table: Vec<Vec<Transition>> = Vec::new();
    let mut i: usize = 0;
    proof {
        assert(segs.take(0) =~= Seq::<Seq<char>>::empty());
        assert(table@.map_values(|row: Vec<Transition>| row@) =~= Seq::<Seq<Transition>>::empty());
    }
    while i < state_count
        invariant
            i <= state_count,
            s@ == machine@,
            segs == segments(s@),
            state_count == states@.len(),
            states@.len() == segs.len(),
            forall|j: int| 0 <= j < states@.len() ==> #[trigger] states@[j]@ == segs[j],
            transition_count == symbol_count(s@),
            table@.len() == i,
            forall|j: int| 0 <= j < i ==> #[trigger] table@[j]@.len() == transition_count,
            table_spec(segs.take(i as int), transition_count) == Ok::<
                Seq<Seq<Transition>>,
                ParseError,
            >(table@.map_values(|row: Vec<Transition>| row@)),
        decreases state_count - i,
    {
        let decoded = decode_state(states[i].as_str(), i, transition_count);
        proof {
            assert(segs.take(i + 1).drop_last() =~= segs.take(i as int));
            assert(segs.take(i + 1).last() == states@[i as int]@);
        }
        match decoded {
            Ok(row) => {
                let ghost before = table@;
                table.push(row);
                proof {
                    assert(table@.map_values(|row: Vec<Transition>| row@) =~= before.map_values(
                        |row: Vec<Transition>| row@,
                    ).push(row@));
                }
            },
            Err(e) => {
                proof {
                    lemma_table_err(segs, transition_count, i + 1);
                }
                return Err(e);
            },
        }
        i = i + 1;
    }
    proof {
        assert(segs.take(i as int) =~= segs);
    }
    Ok(Machine { state_count, transition_count, states: table })
}

/// Every state's text is a part of the definition, so no longer than it.
pub proof fn lemma_segments_len(s: Seq<char>)
    ensures
        forall|i: int| 0 <= i < segments(s).len() ==> #[trigger] segments(s)[i].len() <= s.len(),
    decreases s.len(),
{
    if s.len() > 0 {
        lemma_segments_len(s.drop_last());
        lemma_segments_nonempty(s.drop_last());
    }
}

/// A row decodes exactly when each of its pieces does, one transition per piece.
proof fn lemma_decode_row_ok(cs: Seq<Seq<char>>)
    ensures
        decode_row(cs) is Ok <==> forall|k: int|
            0 <= k < cs.len() ==> #[trigger] decode_spec(cs[k]) is Ok,
        decode_row(cs) is Ok ==> decode_row(cs)->Ok_0.len() == cs.len(),
        decode_row(cs) is Ok ==> forall|k: int|
            0 <= k < cs.len() ==> decode_row(cs)->Ok_0[k] == #[trigger] decode_spec(cs[k])->Ok_0,
    decreases cs.len(),
{
    if cs.len() > 0 {
        let init = cs.drop_last();
        lemma_decode_row_ok(init);
        assert forall|k: int| 0 <= k < init.len() implies #[trigger] init[k] == cs[k] by {}
        if decode_row(cs) is Ok {
            assert forall|k: int| 0 <= k < cs.len() implies #[trigger] decode_spec(cs[k]) is Ok by {
                if k < init.len() {
                    assert(init[k] == cs[k]);
                }
            }
        }
        if forall|k: int| 0 <= k < cs.len() ==> #[trigger] decode_spec(cs[k]) is Ok {
            assert forall|k: int| 0 <= k < init.len() implies #[trigger] decode_spec(init[k]) is Ok by {
                assert(init[k] == cs[k]);
                assert(decode_spec(cs[k]) is Ok);
            }
            assert(decode_spec(cs[cs.len() - 1]) is Ok);
        }
    }
}

/// A table decodes exactly when each of its states does, and then holds
/// their rows in order.
proof fn lemma_table_ok(segs: Seq<Seq<char>>, count: usize)
    ensures
        table_spec(segs, count) is Ok <==> forall|i: int|
            0 <= i < segs.len() ==> #[trigger] state_spec(segs[i], i as usize, count) is Ok,
        table_spec(segs, count) is Ok ==> table_spec(segs, count)->Ok_0.len() == segs.len(),
        table_spec(segs, count) is Ok ==> forall|i: int|
            0 <= i < segs.len() ==> table_spec(segs, count)->Ok_0[i] == #[trigger] state_spec(
                segs[i],
                i as usize,
                count,
            )->Ok_0,
    decreases segs.len(),
{
    if segs.len() > 0 {
        let init = segs.drop_last();
        lemma_table_ok(init, count);
        assert forall|i: int| 0 <= i < init.len() implies #[trigger] init[i] == segs[i] by {}
        if table_spec(segs, count) is Ok {
            assert forall|i: int| 0 <= i < segs.len() implies #[trigger] state_spec(
                segs[i],
                i as usize,
                count,
            ) is Ok by {
                if i < init.len() {
                    assert(init[i] == segs[i]);
                }
            }
        }
        if forall|i: int|
            0 <= i < segs.len() ==> #[trigger] state_spec(segs[i], i as usize, count) is Ok {
            assert forall|i: int| 0 <= i < init.len() implies #[trigger] state_spec(
                init[i],
                i as usize,
                count,
            ) is Ok by {
                assert(init[i] == segs[i]);
                assert(state_spec(segs[i], i as usize, count) is Ok);
            }
            assert(state_spec(segs[segs.len() - 1], (segs.len() - 1) as usize, count) is Ok);
        }
    }
}

/// The three characters `c` are a well-formed transition.
pub open spec fn valid_transition_text(c: Seq<char>) -> bool {
    &&& c.len() == 3
    &&& write_value(c[0]) is Some
    &&& direction_value(c[1]) is Some
    &&& target_value(c[2]) is Some
}

/// `seg` is `count` well-formed transitions.
pub open spec fn valid_state_text(seg: Seq<char>, count: nat) -> bool {
    &&& seg.len() == 3 * count
    &&& forall|k: int|
        0 <= k < chunks(seg, 3).len() ==> valid_transition_text(#[trigger] chunks(seg, 3)[k])
}

/// Every state of `s` holds as many well-formed transitions as the first.
pub open spec fn valid_definition(s: Seq<char>) -> bool {
    forall|i: int|
        0 <= i < segments(s).len() ==> valid_state_text(#[trigger] segments(s)[i], symbol_count(s))
}

/// A well-formed definition decodes into a table with one row per state,
/// each of `symbol_count` transitions: the decodings of the state's text
/// taken three characters at a time.
pub proof fn lemma_valid_definition_decodes(s: Seq<char>)
    requires
        valid_definition(s),
        s.len() <= usize::MAX,
    ensures
        parse_spec(s) is Ok,
        parse_spec(s)->Ok_0.len() == segments(s).len(),
        forall|i: int|
            0 <= i < segments(s).len() ==> (#[trigger] parse_spec(s)->Ok_0[i]).len()
                == symbol_count(s),
        forall|i: int, k: int|
            0 <= i < segments(s).len() && 0 <= k < symbol_count(s) ==> #[trigger] parse_spec(
                s,
            )->Ok_0[i][k] == decode_spec(chunks(segments(s)[i], 3)[k])->Ok_0,
{
    let segs = segments(s);
    let count = symbol_count(s);
    lemma_segments_nonempty(s);
    lemma_segments_len(s);
    assert(segs[0].len() <= s.len());
    assert(count as usize == count);
    assert forall|i: int| 0 <= i < segs.len() implies #[trigger] state_spec(
        segs[i],
        i as usize,
        count as usize,
    ) is Ok && state_spec(segs[i], i as usize, count as usize)->Ok_0 == decode_row(
        chunks(segs[i], 3),
    )->Ok_0 && decode_row(chunks(segs[i], 3))->Ok_0.len() == count by {
        let cs = chunks(segs[i], 3);
        assert(valid_state_text(segs[i], count));
        lemma_chunks_exact(segs[i], 3, count);
        lemma_decode_row_ok(cs);
        assert forall|k: int| 0 <= k < cs.len() implies #[trigger] decode_spec(cs[k]) is Ok by {
            assert(valid_transition_text(cs[k]));
        }
    }
    lemma_table_ok(segs, count as usize);
    assert forall|i: int, k: int|
        0 <= i < segs.len() && 0 <= k < count implies #[trigger] parse_spec(s)->Ok_0[i][k]
        == decode_spec(chunks(segs[i], 3)[k])->Ok_0 by {
        lemma_chunks_exact(segs[i], 3, count);
        lemma_decode_row_ok(chunks(segs[i], 3));
        assert(state_spec(segs[i], i as usize, count as usize) is Ok);
    }
}

/// A state whose text is shorter than three characters per symbol makes the
/// whole definition fail: it is never padded or cut to fit.
pub proof fn lemma_short_state_fails(s: Seq<char>, i: int)
    requires
        0 <= i < segments(s).len(),
        segments(s)[i].len() < 3 * symbol_count(s),
        s.len() <= usize::MAX,
    ensures
        parse_spec(s) is Err,
{
    let segs = segments(s);
    let count = symbol_count(s);
    let cs = chunks(segs[i], 3);
    lemma_segments_nonempty(s);
    lemma_segments_len(s);
    assert(segs[0].len() <= s.len());
    assert(count as usize == count);
    lemma_decode_row_ok(cs);
    if decode_row(cs) is Ok {
        assert forall|k: int| 0 <= k < cs.len() implies #[trigger] cs[k].len() == 3 by {
            assert(decode_spec(cs[k]) is Ok);
        }
        lemma_chunks_full(segs[i], 3);
    }
    assert(state_spec(segs[i], i as usize, count as usize) is Err);
    lemma_table_ok(segs, count as usize);
}

/// A `-` in the first place writes 0, and a `-` in the third place halts,
/// whatever the other well-formed places hold.
pub proof fn lemma_placeholders(c: Seq<char>)
    requires
        c.len() == 3,
        direction_value(c[1]) is Some,
    ensures
        c[0] == '-' && target_value(c[2]) is Some ==> decode_spec(c) is Ok
            && decode_spec(c)->Ok_0.to_write == 0,
        c[2] == '-' && write_value(c[0]) is Some ==> decode_spec(c) is Ok
            && decode_spec(c)->Ok_0.to_state == HALT_STATE,
{
}

/// A digit in the first place writes its value, 0 to 9; a letter in the
/// third place goes to its place in the alphabet, 0 to 25.
pub proof fn lemma_digits_and_letters(c: Seq<char>)
    requires
        c.len() == 3,
        direction_value(c[1]) is Some,
    ensures
        '0' <= c[0] <= '9' && target_value(c[2]) is Some ==> decode_spec(c) is Ok
            && decode_spec(c)->Ok_0.to_write == c[0] as u32 - '0' as u32
            && decode_spec(c)->Ok_0.to_write <= 9,
        'A' <= c[2] <= 'Z' && write_value(c[0]) is Some ==> decode_spec(c) is Ok
            && decode_spec(c)->Ok_0.to_state == c[2] as u32 - 'A' as u32
            && decode_spec(c)->Ok_0.to_state <= 25,
{
}

} // verus!
