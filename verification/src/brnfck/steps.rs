//! What single steps do to the cells and to the cell pointer.

use vstd::prelude::*;
use super::command::Command;
use super::endpoint::{ReadOutcome, WriteOutcome};
use super::machine::{MachineError, SIZE};
use super::state::{predecessor, successor, State};

verus! {

/// Cell arithmetic is arithmetic modulo 256: the value after 255 is 0, the
/// value before 0 is 255, and adding one undoes subtracting one.
pub proof fn lemma_cell_values_wrap(value: u8)
    ensures
        successor(255) == 0,
        predecessor(0) == 255,
        successor(value) == (value + 1) % 256,
        predecessor(value) == (value - 1) % 256,
        successor(predecessor(value)) == value,
        predecessor(successor(value)) == value,
{
}

/// An increment and a decrement never fail: they change the current cell by
/// one, wrapping around, and go on with the next instruction.
pub proof fn lemma_cell_commands(state: State)
    requires
        state.wf(),
        !state.halted(),
    ensures
        state.command() == Command::Increment ==> state.step() == Ok::<State, MachineError>(
            state.with_cell(successor(state.cell())).at(state.instruction_pointer + 1),
        ),
        state.command() == Command::Decrement ==> state.step() == Ok::<State, MachineError>(
            state.with_cell(predecessor(state.cell())).at(state.instruction_pointer + 1),
        ),
{
}

/// The cell pointer moves by one cell and stops at both edges of the tape:
/// a move to the right fails at the last cell and nowhere else, a move to
/// the left fails at the first cell and nowhere else.
pub proof fn lemma_pointer_commands(state: State)
    requires
        state.wf(),
        !state.halted(),
    ensures
        state.command() == Command::IncrementPointer ==> state.step() == (
        if state.cell_pointer == SIZE - 1 {
            Err::<State, MachineError>(MachineError::PointerIncrementOutOfBound)
        } else {
            Ok(
                State {
                    cell_pointer: state.cell_pointer + 1,
                    ..state.at(state.instruction_pointer + 1)
                },
            )
        }),
        state.command() == Command::DecrementPointer ==> state.step() == (
        if state.cell_pointer == 0 {
            Err::<State, MachineError>(MachineError::PointerDecrementOutOfBound)
        } else {
            Ok(
                State {
                    cell_pointer: state.cell_pointer - 1,
                    ..state.at(state.instruction_pointer + 1)
                },
            )
        }),
{
}

/// A read from a bound input is the read answered with the first pending
/// byte, which is then no longer pending, or with the end of the input when
/// nothing is pending; with no input bound it fails.
pub proof fn lemma_read_command(state: State)
    requires
        state.wf(),
        !state.halted(),
        state.command() == Command::Read,
    ensures
        state.step() == (match state.input {
            None => Err::<State, MachineError>(MachineError::NoInput),
            Some(pending) => if pending.len() == 0 {
                state.after_read(ReadOutcome::End)
            } else {
                match state.after_read(ReadOutcome::Byte(pending[0])) {
                    Ok(next) => Ok(State { input: Some(pending.skip(1)), ..next }),
                    Err(error) => Err(error),
                }
            },
        }),
{
}

/// A write to a bound output is the write answered with `Written`, and the
/// value of the current cell is the next byte that the output has taken;
/// with no output bound it fails.
pub proof fn lemma_write_command(state: State)
    requires
        state.wf(),
        !state.halted(),
        state.command() == Command::Write,
    ensures
        state.step() == (match state.output {
            None => Err::<State, MachineError>(MachineError::NoOutput),
            Some(taken) => match state.after_write(WriteOutcome::Written) {
                Ok(next) => Ok(State { output: Some(taken.push(state.cell())), ..next }),
                Err(error) => Err(error),
            },
        }),
{
}

} // verus!
