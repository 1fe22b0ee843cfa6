//! What the two scans find: the bracket at which the nesting that was open
//! when the scan began is closed for the first time.

use vstd::prelude::*;
use super::command::Command;
use super::machine::MachineError;
use super::state::{matching_jump_ahead, matching_jump_back, scan_ahead, scan_behind, State};

verus! {

/// What `command` adds to the number of open loops: one for a `JumpAhead`,
/// minus one for a `JumpBack`.
pub open spec fn opens(command: Command) -> int {
    if command == Command::JumpAhead {
        1
    } else if command == Command::JumpBack {
        -1
    } else {
        0
    }
}

/// The number of `JumpAhead`s less the number of `JumpBack`s among the
/// commands of `program` from `from` up to, not including, `to`.
pub open spec fn surplus(program: Seq<Command>, from: int, to: int) -> int
    decreases to - from,
{
    if from >= to {
        0
    } else {
        opens(program[from]) + surplus(program, from + 1, to)
    }
}

/// The forward scan ends on the first command after which as many loops
/// have been closed as were open: `depth` of them at the start, and those
/// that the commands passed have opened. It finds nothing exactly when some
/// loop stays open up to the end of the program.
pub proof fn lemma_scan_ahead_finds_first_close(program: Seq<Command>, index: int, depth: int)
    requires
        0 <= index <= program.len(),
        1 <= depth,
    ensures
        match scan_ahead(program, index, depth) {
            Some(found) => {
                &&& index <= found < program.len()
                &&& program[found] == Command::JumpBack
                &&& depth + surplus(program, index, found + 1) == 0
                &&& forall|k: int|
                    index <= k <= found ==> depth + #[trigger] surplus(program, index, k) >= 1
            },
            None => forall|k: int|
                index <= k <= program.len() ==> depth + #[trigger] surplus(program, index, k)
                    >= 1,
        },
    decreases program.len() - index,
{
    if index < program.len() {
        let deeper = depth + opens(program[index]);
        if deeper >= 1 {
            lemma_scan_ahead_finds_first_close(program, index + 1, deeper);
            assert(scan_ahead(program, index, depth) == scan_ahead(program, index + 1, deeper));
            match scan_ahead(program, index, depth) {
                Some(found) => {
                    assert forall|k: int| index <= k <= found implies depth + #[trigger] surplus(
                        program,
                        index,
                        k,
                    ) >= 1 by {
                        if k > index {
                            assert(deeper + surplus(program, index + 1, k) >= 1);
                        }
                    }
                },
                None => {
                    assert forall|k: int| index <= k <= program.len() implies depth
                        + #[trigger] surplus(program, index, k) >= 1 by {
                        if k > index {
                            assert(deeper + surplus(program, index + 1, k) >= 1);
                        }
                    }
                },
            }
        } else {
            assert(scan_ahead(program, index, depth) == Some(index));
            assert(surplus(program, index + 1, index + 1) == 0);
            assert forall|k: int| index <= k <= index implies depth + #[trigger] surplus(
                program,
                index,
                k,
            ) >= 1 by {}
        }
    } else {
        assert forall|k: int| index <= k <= program.len() implies depth + #[trigger] surplus(
            program,
            index,
            k,
        ) >= 1 by {}
    }
}

/// The backward scan ends on the first command before which as many loops
/// have been opened as were closed: `depth` of them at the start, and those
/// that the commands passed have closed. It finds nothing exactly when some
/// loop stays closed back to the start of the program.
pub proof fn lemma_scan_behind_finds_first_open(program: Seq<Command>, index: int, depth: int)
    requires
        -1 <= index < program.len(),
        1 <= depth,
    ensures
        match scan_behind(program, index, depth) {
            Some(found) => {
                &&& 0 <= found <= index
                &&& program[found] == Command::JumpAhead
                &&& depth - surplus(program, found, index + 1) == 0
                &&& forall|k: int|
                    found < k <= index + 1 ==> depth - #[trigger] surplus(program, k, index + 1)
                        >= 1
            },
            None => forall|k: int|
                0 <= k <= index + 1 ==> depth - #[trigger] surplus(program, k, index + 1) >= 1,
        },
    decreases index + 1,
{
    if index >= 0 {
        let deeper = depth - opens(program[index]);
        lemma_surplus_ends_with(program, index, index + 1);
        assert(surplus(program, index, index + 1) == opens(program[index]));
        if deeper >= 1 {
            lemma_scan_behind_finds_first_open(program, index - 1, deeper);
            assert(scan_behind(program, index, depth) == scan_behind(program, index - 1, deeper));
            assert forall|k: int| 0 <= k <= index implies #[trigger] surplus(
                program,
                k,
                index + 1,
            ) == surplus(program, k, index) + opens(program[index]) by {
                lemma_surplus_ends_with(program, k, index + 1);
            }
        } else {
            assert(scan_behind(program, index, depth) == Some(index));
        }
    }
}

/// The surplus of a stretch is that of the stretch without its last command,
/// and what the last command adds.
pub proof fn lemma_surplus_ends_with(program: Seq<Command>, from: int, to: int)
    requires
        from < to,
    ensures
        surplus(program, from, to) == surplus(program, from, to - 1) + opens(program[to - 1]),
    decreases to - from,
{
    if from + 1 < to {
        lemma_surplus_ends_with(program, from + 1, to);
    } else {
        assert(surplus(program, from + 1, to) == 0);
        assert(surplus(program, from, to - 1) == 0);
    }
}

/// A `JumpAhead` over a zero cell goes to just past its matching `JumpBack`
/// and fails when it has none; over any other cell it goes on with the next
/// instruction.
pub proof fn lemma_jump_ahead(state: State)
    requires
        state.wf(),
        !state.halted(),
        state.command() == Command::JumpAhead,
    ensures
        state.cell() != 0 ==> state.step() == Ok::<State, MachineError>(
            state.at(state.instruction_pointer + 1),
        ),
        state.cell() == 0 ==> state.step() == (match matching_jump_back(
            state.program,
            state.instruction_pointer,
        ) {
            Some(index) => Ok::<State, MachineError>(state.at(index + 1)),
            None => Err(MachineError::UnmatchedJumpAhead),
        }),
{
}

/// A `JumpBack` over a cell that is not zero goes to just past its matching
/// `JumpAhead` and fails when it has none; over a zero cell it goes on with
/// the next instruction.
pub proof fn lemma_jump_back(state: State)
    requires
        state.wf(),
        !state.halted(),
        state.command() == Command::JumpBack,
    ensures
        state.cell() == 0 ==> state.step() == Ok::<State, MachineError>(
            state.at(state.instruction_pointer + 1),
        ),
        state.cell() != 0 ==> state.step() == (match matching_jump_ahead(
            state.program,
            state.instruction_pointer,
        ) {
            Some(index) => Ok::<State, MachineError>(state.at(index + 1)),
            None => Err(MachineError::UnmatchedJumpBack),
        }),
{
}

/// A `JumpAhead` with no `JumpBack` after it has no match, and a `JumpBack`
/// with no `JumpAhead` before it has none either.
pub proof fn lemma_lone_jump_has_no_match(program: Seq<Command>, index: int)
    requires
        0 <= index < program.len(),
    ensures
        (forall|k: int| index < k < program.len() ==> program[k] != Command::JumpBack)
            ==> matching_jump_back(program, index) is None,
        (forall|k: int| 0 <= k < index ==> program[k] != Command::JumpAhead)
            ==> matching_jump_ahead(program, index) is None,
{
    lemma_scan_ahead_finds_first_close(program, index + 1, 1);
    lemma_scan_behind_finds_first_open(program, index - 1, 1);
}

} // verus!
