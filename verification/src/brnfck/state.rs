//! The state of the tape machine and what steps make of it: the model that
//! the executable machine is held to.

use vstd::prelude::*;
use super::command::Command;
use super::endpoint::{ReadOutcome, WriteOutcome};
use super::machine::{MachineError, SIZE};

verus! {

/// The value of a cell after one is added to it: 255 is followed by 0.
pub open spec fn successor(value: u8) -> u8 {
    if value == 255 {
        0
    } else {
        (value + 1) as u8
    }
}

/// The value of a cell after one is subtracted from it: 0 is followed by 255.
pub open spec fn predecessor(value: u8) -> u8 {
    if value == 0 {
        255
    } else {
        (value - 1) as u8
    }
}

/// Scans `program` to the right from `index` for the `JumpBack` that closes
/// the innermost of `depth` open `JumpAhead`s: every `JumpAhead` on the way
/// opens one more, every `JumpBack` closes one, and the scan ends on the
/// `JumpBack` that closes the last. `None` when the program ends first.
pub open spec fn scan_ahead(program: Seq<Command>, index: int, depth: int) -> Option<int>
    decreases program.len() - index,
{
    if index < 0 || index >= program.len() {
        None
    } else if program[index] == Command::JumpBack {
        if depth == 1 {
            Some(index)
        } else {
            scan_ahead(program, index + 1, depth - 1)
        }
    } else if program[index] == Command::JumpAhead {
        scan_ahead(program, index + 1, depth + 1)
    } else {
        scan_ahead(program, index + 1, depth)
    }
}

/// Scans `program` to the left from `index` for the `JumpAhead` that opens
/// the innermost of `depth` closed `JumpBack`s; the mirror image of
/// `scan_ahead`. `None` when the program starts first.
pub open spec fn scan_behind(program: Seq<Command>, index: int, depth: int) -> Option<int>
    decreases index + 1,
{
    if index < 0 || index >= program.len() {
        None
    } else if program[index] == Command::JumpAhead {
        if depth == 1 {
            Some(index)
        } else {
            scan_behind(program, index - 1, depth - 1)
        }
    } else if program[index] == Command::JumpBack {
        scan_behind(program, index - 1, depth + 1)
    } else {
        scan_behind(program, index - 1, depth)
    }
}

/// Position of the `JumpBack` that matches the `JumpAhead` at `index`.
pub open spec fn matching_jump_back(program: Seq<Command>, index: int) -> Option<int> {
    scan_ahead(program, index + 1, 1)
}

/// Position of the `JumpAhead` that matches the `JumpBack` at `index`.
pub open spec fn matching_jump_ahead(program: Seq<Command>, index: int) -> Option<int> {
    scan_behind(program, index - 1, 1)
}

/// What the next instruction of a machine asks of its surroundings.
#[derive(Clone, Copy, Debug, PartialEq, Eq, Structural)]
pub enum Action {
    /// Nothing: the instruction works on the machine alone.
    Compute,
    /// One byte, to be read into the current cell.
    Read,
    /// That this byte, the value of the current cell, be written.
    Write(u8),
}

/// Everything that determines how a machine goes on: the program, the two
/// pointers, the tape, and what its endpoints hold.
#[verifier::ext_equal]
pub struct State {
    /// The program being executed.
    pub program: Seq<Command>,
    /// Index of the next instruction; the length of the program once halted.
    pub instruction_pointer: int,
    /// Index of the current cell.
    pub cell_pointer: int,
    /// The tape.
    pub cells: Seq<u8>,
    /// The bytes pending in the bound input; `None` when no input is bound.
    pub input: Option<Seq<u8>>,
    /// The bytes taken by the bound output; `None` when no output is bound.
    pub output: Option<Seq<u8>>,
}

impl State {
    /// The state in which a machine starts: both pointers at zero and every
    /// cell zero.
    pub open spec fn fresh(
        program: Seq<Command>,
        input: Option<Seq<u8>>,
        output: Option<Seq<u8>>,
    ) -> State {
        State {
            program,
            instruction_pointer: 0,
            cell_pointer: 0,
            cells: Seq::new(SIZE as nat, |i: int| 0u8),
            input,
            output,
        }
    }

    /// The invariant of every machine state: the instruction pointer is an
    /// index of the program or its length, the cell pointer is an index of
    /// the tape, and the tape has `SIZE` cells.
    pub open spec fn wf(self) -> bool {
        &&& 0 <= self.instruction_pointer <= self.program.len()
        &&& 0 <= self.cell_pointer < SIZE
        &&& self.cells.len() == SIZE
    }

    /// Whether the instruction pointer has reached the end of the program.
    pub open spec fn halted(self) -> bool {
        self.program.len() <= self.instruction_pointer
    }

    /// The instruction that the next step executes.
    pub open spec fn command(self) -> Command
        recommends
            self.wf(),
            !self.halted(),
    {
        self.program[self.instruction_pointer]
    }

    /// The value of the current cell.
    pub open spec fn cell(self) -> u8
        recommends
            self.wf(),
    {
        self.cells[self.cell_pointer]
    }

    /// This state with the instruction pointer at `instruction_pointer`.
    pub open spec fn at(self, instruction_pointer: int) -> State {
        State { instruction_pointer, ..self }
    }

    /// This state with `value` in the current cell.
    pub open spec fn with_cell(self, value: u8) -> State {
        State { cells: self.cells.update(self.cell_pointer, value), ..self }
    }

    /// What one step makes of this state, when no endpoint fails.
    ///
    /// Every command but the two jumps moves the instruction pointer on by
    /// one. The pointer moves fail at the edges of the tape; the cell
    /// arithmetic wraps around. A read takes the first pending byte of the
    /// input, a write appends the current cell to what the output has taken.
    pub open spec fn step(self) -> Result<State, MachineError>
        recommends
            self.wf(),
            !self.halted(),
    {
        let next = self.instruction_pointer + 1;
        match self.command() {
            Command::IncrementPointer => if self.cell_pointer + 1 < SIZE {
                Ok(State { cell_pointer: self.cell_pointer + 1, ..self.at(next) })
            } else {
                Err(MachineError::PointerIncrementOutOfBound)
            },
            Command::DecrementPointer => if self.cell_pointer > 0 {
                Ok(State { cell_pointer: self.cell_pointer - 1, ..self.at(next) })
            } else {
                Err(MachineError::PointerDecrementOutOfBound)
            },
            Command::Increment => Ok(self.with_cell(successor(self.cell())).at(next)),
            Command::Decrement => Ok(self.with_cell(predecessor(self.cell())).at(next)),
            Command::JumpAhead => if self.cell() == 0 {
                match matching_jump_back(self.program, self.instruction_pointer) {
                    Some(index) => Ok(self.at(index + 1)),
                    None => Err(MachineError::UnmatchedJumpAhead),
                }
            } else {
                Ok(self.at(next))
            },
            Command::JumpBack => if self.cell() != 0 {
                match matching_jump_ahead(self.program, self.instruction_pointer) {
                    Some(index) => Ok(self.at(index + 1)),
                    None => Err(MachineError::UnmatchedJumpBack),
                }
            } else {
                Ok(self.at(next))
            },
            Command::Read => match self.input {
                None => Err(MachineError::NoInput),
                Some(pending) => if pending.len() == 0 {
                    Err(MachineError::NoByteRead)
                } else {
                    Ok(
                        State { input: Some(pending.skip(1)), ..self.with_cell(pending[0]) }.at(
                            next,
                        ),
                    )
                },
            },
            Command::Write => match self.output {
                None => Err(MachineError::NoOutput),
                Some(taken) => Ok(State { output: Some(taken.push(self.cell())), ..self.at(next) }),
            },
        }
    }

    /// What the next instruction asks of the surroundings.
    pub open spec fn action(self) -> Action
        recommends
            self.wf(),
            !self.halted(),
    {
        match self.command() {
            Command::Read => Action::Read,
            Command::Write => Action::Write(self.cell()),
            _ => Action::Compute,
        }
    }

    /// What a read makes of this state once the surroundings have answered
    /// it with `outcome`: a byte goes into the current cell and the machine
    /// goes on with the next instruction; any other answer is an error.
    pub open spec fn after_read(self, outcome: ReadOutcome) -> Result<State, MachineError> {
        match outcome {
            ReadOutcome::Byte(byte) => Ok(self.with_cell(byte).at(self.instruction_pointer + 1)),
            ReadOutcome::End => Err(MachineError::NoByteRead),
            ReadOutcome::Failed => Err(MachineError::InputError),
        }
    }

    /// What a write makes of this state once the surroundings have answered
    /// it with `outcome`: when the byte was written the machine goes on with
    /// the next instruction; any other answer is an error.
    pub open spec fn after_write(self, outcome: WriteOutcome) -> Result<State, MachineError> {
        match outcome {
            WriteOutcome::Written => Ok(self.at(self.instruction_pointer + 1)),
            WriteOutcome::Refused => Err(MachineError::NoByteWritten),
            WriteOutcome::Failed => Err(MachineError::OutputError),
        }
    }

    /// Whether the next step asks a bound endpoint, which may then answer
    /// with `error` whatever this state holds: a source may be at its end or
    /// fail, a sink may refuse the byte or fail.
    pub open spec fn endpoint_may_answer(self, error: MachineError) -> bool
        recommends
            self.wf(),
            !self.halted(),
    {
        ||| self.command() == Command::Read && self.input is Some && (error
            == MachineError::NoByteRead || error == MachineError::InputError)
        ||| self.command() == Command::Write && self.output is Some && (error
            == MachineError::NoByteWritten || error == MachineError::OutputError)
    }

    /// Whether a run of at most `limit` steps that took `steps` steps to reach
    /// this state ends there with `result` when no endpoint falters: with `Ok`
    /// in a halted state, with `OutOfSteps` after `limit` steps in a state
    /// that has not halted, and with any other error after fewer steps in a
    /// state whose step fails with it.
    pub open spec fn settles(
        self,
        steps: nat,
        limit: nat,
        result: Result<(), MachineError>,
    ) -> bool {
        match result {
            Ok(_) => self.halted(),
            Err(MachineError::OutOfSteps) => steps == limit && !self.halted(),
            Err(error) => steps < limit && !self.halted() && self.step() == Err::<
                State,
                MachineError,
            >(error),
        }
    }

    /// Whether a run of at most `limit` steps that took `steps` steps to reach
    /// this state may end there with `result`: as it does when no endpoint
    /// falters, or with an error that an endpoint may answer the step of this
    /// state with.
    pub open spec fn explains(
        self,
        steps: nat,
        limit: nat,
        result: Result<(), MachineError>,
    ) -> bool {
        ||| self.settles(steps, limit, result)
        ||| result matches Err(error) && steps < limit && !self.halted()
            && self.endpoint_may_answer(error)
    }

    /// What up to `steps` steps make of this state: the state in which the
    /// machine has halted or has taken all of them, or the error of the
    /// first step that fails.
    pub open spec fn run(self, steps: nat) -> Result<State, MachineError>
        decreases steps,
    {
        if steps == 0 || self.halted() {
            Ok(self)
        } else {
            match self.step() {
                Ok(next) => next.run((steps - 1) as nat),
                Err(error) => Err(error),
            }
        }
    }

    /// How a run of at most `limit` steps from this state ends when no
    /// endpoint falters: with `Ok` when the machine halts within `limit`
    /// steps, with the error of the first step that fails, and with
    /// `OutOfSteps` when `limit` steps neither fail nor halt the machine.
    pub open spec fn outcome(self, limit: nat) -> Result<(), MachineError> {
        match self.run(limit) {
            Ok(last) => if last.halted() {
                Ok(())
            } else {
                Err(MachineError::OutOfSteps)
            },
            Err(error) => Err(error),
        }
    }
}

/// One more step after `steps` steps that ended in a state that has not
/// halted makes `steps + 1` steps.
pub proof fn lemma_run_one_more(state: State, steps: nat, last: State)
    requires
        state.run(steps) == Ok::<State, MachineError>(last),
        !last.halted(),
    ensures
        state.run(steps + 1) == last.step(),
    decreases steps,
{
    if steps == 0 {
        assert(last == state);
        match state.step() {
            Ok(next) => {
                assert(next.run(0) == Ok::<State, MachineError>(next));
            },
            Err(_) => {},
        }
    } else {
        if state.halted() {
        } else {
            match state.step() {
                Ok(next) => {
                    lemma_run_one_more(next, (steps - 1) as nat, last);
                },
                Err(_) => {},
            }
        }
    }
}

/// A step keeps a state well formed.
pub proof fn lemma_step_keeps_wf(state: State)
    requires
        state.wf(),
        !state.halted(),
    ensures
        state.step() matches Ok(next) ==> next.wf() && next.program == state.program,
{
    lemma_scan_ahead_in_range(state.program, state.instruction_pointer + 1, 1);
    lemma_scan_behind_in_range(state.program, state.instruction_pointer - 1, 1);
}

/// What `scan_ahead` finds is a `JumpBack` at or after the place where the
/// scan began.
pub proof fn lemma_scan_ahead_in_range(program: Seq<Command>, index: int, depth: int)
    requires
        0 <= index,
    ensures
        scan_ahead(program, index, depth) matches Some(found) ==> index <= found < program.len()
            && program[found] == Command::JumpBack,
    decreases program.len() - index,
{
    if index < program.len() {
        lemma_scan_ahead_in_range(program, index + 1, depth - 1);
        lemma_scan_ahead_in_range(program, index + 1, depth + 1);
        lemma_scan_ahead_in_range(program, index + 1, depth);
    }
}

/// What `scan_behind` finds is a `JumpAhead` at or before the place where the
/// scan began.
pub proof fn lemma_scan_behind_in_range(program: Seq<Command>, index: int, depth: int)
    requires
        index < program.len(),
    ensures
        scan_behind(program, index, depth) matches Some(found) ==> 0 <= found <= index
            && program[found] == Command::JumpAhead,
    decreases index + 1,
{
    if index >= 0 {
        lemma_scan_behind_in_range(program, index - 1, depth - 1);
        lemma_scan_behind_in_range(program, index - 1, depth + 1);
        lemma_scan_behind_in_range(program, index - 1, depth);
    }
}

} // verus!
