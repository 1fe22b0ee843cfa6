//! The executable tape machine: it takes the steps that the model of its
//! state describes, on a program and a pair of endpoints that it borrows.

use vstd::prelude::*;
use vstd::std_specs::cmp::PartialEqSpecImpl;
use super::command::Command;
use super::endpoint::{ByteSink, ByteSource, ReadOutcome, WriteOutcome};
use super::runs::lemma_settled_run_is_outcome;
use super::state::{
    lemma_run_one_more,
    lemma_scan_ahead_in_range,
    lemma_scan_behind_in_range,
    matching_jump_ahead,
    matching_jump_back,
    scan_ahead,
    scan_behind,
    Action,
    State,
};

verus! {

/// Number of cells on the tape.
pub const SIZE: usize = 30_000;

/// Largest number of instructions that one call of `run` executes.
pub const STEP_LIMIT: u64 = 0xffff_ffff_ffff_ffff;

/// Why a machine stopped before the end of its program.
#[derive(Clone, Copy, Debug, PartialEq, Eq, Structural)]
pub enum MachineError {
    /// The cell pointer was at the last cell and was told to move right.
    PointerIncrementOutOfBound,
    /// The cell pointer was at the first cell and was told to move left.
    PointerDecrementOutOfBound,
    /// A `JumpAhead` over a zero cell found no matching `JumpBack`.
    UnmatchedJumpAhead,
    /// A `JumpBack` over a non-zero cell found no matching `JumpAhead`.
    UnmatchedJumpBack,
    /// A `Read` was reached and no input is bound.
    NoInput,
    /// The input reported an error.
    InputError,
    /// The input had no byte to hand out.
    NoByteRead,
    /// A `Write` was reached and no output is bound.
    NoOutput,
    /// The output reported an error.
    OutputError,
    /// The output took no byte.
    NoByteWritten,
    /// A run has executed as many instructions as it was allowed and the
    /// program has not come to its end.
    OutOfSteps,
}

/// A machine at work on a program: the two pointers, the tape, and the
/// endpoints that it borrows for as long as it lives.
#[derive(Debug)]
pub struct Machine<'a, I: ByteSource, O: ByteSink> {
    input: Option<&'a mut I>,
    output: Option<&'a mut O>,
    instruction_pointer: usize,
    instructions: &'a [Command],
    cell_pointer: usize,
    cells: [u8; SIZE],
}

impl<'a, I: ByteSource, O: ByteSink> View for Machine<'a, I, O> {
    type V = State;

    closed spec fn view(&self) -> State {
        State {
            program: self.instructions@,
            instruction_pointer: self.instruction_pointer as int,
            cell_pointer: self.cell_pointer as int,
            cells: self.cells@,
            input: match self.input {
                Some(source) => Some(source.pending()),
                None => None,
            },
            output: match self.output {
                Some(sink) => Some(sink.taken()),
                None => None,
            },
        }
    }
}

impl<'a, I: ByteSource, O: ByteSink> Machine<'a, I, O> {
    #[verifier::type_invariant]
    spec fn inv(self) -> bool {
        &&& self.instruction_pointer <= self.instructions@.len()
        &&& self.cell_pointer < SIZE
    }

    /// The input that this machine has borrowed, if any.
    pub closed spec fn bound_input(self) -> Option<&'a mut I> {
        self.input
    }

    /// The output that this machine has borrowed, if any.
    pub closed spec fn bound_output(self) -> Option<&'a mut O> {
        self.output
    }

    /// Whether this machine has borrowed an endpoint that is not reliable.
    pub closed spec fn falters(self) -> bool {
        ||| self.input matches Some(source) && !source.reliable()
        ||| self.output matches Some(sink) && !sink.reliable()
    }

    /// The state of a machine shows of each endpoint that it has borrowed
    /// what that endpoint holds now, and of no other.
    pub proof fn lemma_state_shows_endpoints(self)
        ensures
            self@.input == match self.bound_input() {
                Some(source) => Some(source.pending()),
                None => None,
            },
            self@.output == match self.bound_output() {
                Some(sink) => Some(sink.taken()),
                None => None,
            },
            self.falters() <==> {
                ||| self.bound_input() matches Some(source) && !source.reliable()
                ||| self.bound_output() matches Some(sink) && !sink.reliable()
            },
    {
    }

    /// A machine at the start of `instructions`, with a zeroed tape and no
    /// endpoint bound.
    pub fn new(instructions: &'a [Command]) -> (machine: Machine<'a, I, O>)
        ensures
            machine@ == State::fresh(instructions@, None, None),
            machine@.wf(),
            !machine.falters(),
    {
        let machine = Machine {
            input: None,
            output: None,
            instruction_pointer: 0,
            instructions,
            cell_pointer: 0,
            cells: [0u8;SIZE],
        };
        assert(machine@.cells =~= State::fresh(instructions@, None, None).cells);
        machine
    }

    /// A machine at the start of `instructions`, with a zeroed tape, that
    /// reads from `input` and writes to `output`.
    pub fn io(instructions: &'a [Command], input: &'a mut I, output: &'a mut O) -> (machine:
        Machine<'a, I, O>)
        ensures
            machine@ == State::fresh(
                instructions@,
                Some(old(input).pending()),
                Some(old(output).taken()),
            ),
            machine@.wf(),
            machine.bound_input() matches Some(source) && *final(source) == *final(input),
            machine.bound_output() matches Some(sink) && *final(sink) == *final(output),
            machine.falters() <==> !old(input).reliable() || !old(output).reliable(),
    {
        let machine = Machine {
            input: Some(input),
            output: Some(output),
            instruction_pointer: 0,
            instructions,
            cell_pointer: 0,
            cells: [0u8;SIZE],
        };
        assert(machine@.cells =~= State::fresh(instructions@, None, None).cells);
        machine
    }

    /// Whether the machine has reached the end of its program.
    pub fn halted(&self) -> (halted: bool)
        ensures
            halted == self@.halted(),
    {
        self.instructions.len() <= self.instruction_pointer
    }

    /// A machine in the middle of `instructions`, with no endpoint bound:
    /// the next instruction is the one at `instruction_pointer`, the current
    /// cell the one at `cell_pointer`, and the tape holds `cells`. `None`
    /// when either pointer is out of range.
    pub fn restore(
        instructions: &'a [Command],
        instruction_pointer: usize,
        cell_pointer: usize,
        cells: [u8; SIZE],
    ) -> (machine: Option<Machine<'a, I, O>>)
        ensures
            match machine {
                Some(machine) => machine@ == (State {
                    program: instructions@,
                    instruction_pointer: instruction_pointer as int,
                    cell_pointer: cell_pointer as int,
                    cells: cells@,
                    input: None,
                    output: None,
                }) && machine@.wf() && !machine.falters(),
                None => instruction_pointer > instructions@.len() || cell_pointer >= SIZE,
            },
    {
        if instruction_pointer <= instructions.len() && cell_pointer < SIZE {
            Some(
                Machine {
                    input: None,
                    output: None,
                    instruction_pointer,
                    instructions,
                    cell_pointer,
                    cells,
                },
            )
        } else {
            None
        }
    }

    /// Index of the next instruction.
    pub fn instruction_pointer(&self) -> (index: usize)
        ensures
            index == self@.instruction_pointer,
            self@.wf(),
    {
        proof {
            use_type_invariant(self);
        }
        self.instruction_pointer
    }

    /// Index of the current cell.
    pub fn cell_pointer(&self) -> (index: usize)
        ensures
            index == self@.cell_pointer,
            self@.wf(),
    {
        proof {
            use_type_invariant(self);
        }
        self.cell_pointer
    }

    /// The tape.
    pub fn cells(&self) -> (cells: &[u8; SIZE])
        ensures
            cells@ == self@.cells,
    {
        &self.cells
    }

    /// Index of the `JumpBack` that matches the `JumpAhead` at `start_index`,
    /// found by scanning to the right; `None` when there is none.
    pub fn jump_back_index(&self, start_index: usize) -> (found: Option<usize>)
        requires
            start_index < self@.program.len(),
        ensures
            match found {
                Some(index) => matching_jump_back(self@.program, start_index as int) == Some(
                    index as int,
                ),
                None => matching_jump_back(self@.program, start_index as int) is None,
            },
    {
        let ghost program = self.instructions@;
        let length = self.instructions.len();
        let mut openings: usize = 1;
        let mut index: usize = start_index + 1;
        while index < length && openings != 0
            invariant
                program == self.instructions@,
                length == program.len(),
                start_index < index <= program.len(),
                openings <= index - start_index,
                openings != 0 ==> scan_ahead(program, start_index + 1, 1) == scan_ahead(
                    program,
                    index as int,
                    openings as int,
                ),
                openings == 0 ==> scan_ahead(program, start_index + 1, 1) == Some(index - 1),
            decreases program.len() - index,
        {
            match self.instructions[index] {
                Command::JumpAhead => {
                    openings += 1;
                },
                Command::JumpBack => {
                    openings -= 1;
                },
                _ => {},
            }
            index += 1;
        }
        if openings == 0 {
            Some(index - 1)
        } else {
            None
        }
    }

    /// Index of the `JumpAhead` that matches the `JumpBack` at `start_index`,
    /// found by scanning to the left; `None` when there is none.
    pub fn jump_ahead_index(&self, start_index: usize) -> (found: Option<usize>)
        requires
            start_index < self@.program.len(),
        ensures
            match found {
                Some(index) => matching_jump_ahead(self@.program, start_index as int) == Some(
                    index as int,
                ),
                None => matching_jump_ahead(self@.program, start_index as int) is None,
            },
    {
        let ghost program = self.instructions@;
        let mut closings: usize = 1;
        let mut index: usize = start_index;
        while index > 0 && closings != 0
            invariant
                program == self.instructions@,
                index <= start_index < program.len(),
                closings <= start_index - index + 1,
                closings != 0 ==> scan_behind(program, start_index - 1, 1) == scan_behind(
                    program,
                    index - 1,
                    closings as int,
                ),
                closings == 0 ==> scan_behind(program, start_index - 1, 1) == Some(index as int),
            decreases index,
        {
            index -= 1;
            match self.instructions[index] {
                Command::JumpAhead => {
                    closings -= 1;
                },
                Command::JumpBack => {
                    closings += 1;
                },
                _ => {},
            }
        }
        if closings == 0 {
            Some(index)
        } else {
            None
        }
    }

    /// Executes the instruction at the instruction pointer and returns the
    /// machine in its next state, or the reason why there is none.
    ///
    /// The next state is `step` of this one, and the step fails exactly when
    /// `step` does, with the same error, unless an endpoint falters: one that
    /// is not reliable may make a read or a write fail on its own account. A
    /// failing step leaves the endpoints as they were before it.
    pub fn execute(self) -> (result: Result<Machine<'a, I, O>, MachineError>)
        requires
            !self@.halted(),
        ensures
            match result {
                Ok(next) => {
                    &&& self@.step() == Ok::<State, MachineError>(next@)
                    &&& next@.wf()
                    &&& next.falters() == self.falters()
                    &&& self.bound_input() matches Some(before) ==> (
                    next.bound_input() matches Some(after) && *final(after) == *final(before))
                    &&& self.bound_output() matches Some(before) ==> (
                    next.bound_output() matches Some(after) && *final(after) == *final(before))
                },
                Err(error) => {
                    &&& self@.step() == Err::<State, MachineError>(error) || (self.falters()
                        && self@.endpoint_may_answer(error))
                    &&& self.bound_input() matches Some(source) ==> Some(final(source).pending())
                        == self@.input
                    &&& self.bound_output() matches Some(sink) ==> Some(final(sink).taken())
                        == self@.output
                },
            },
    {
        let mut machine = self;
        proof {
            use_type_invariant(&machine);
        }
        let command = machine.instructions[machine.instruction_pointer];
        match command {
            Command::IncrementPointer => {
                if machine.cell_pointer != SIZE - 1 {
                    machine.instruction_pointer += 1;
                    machine.cell_pointer += 1;
                    Ok(machine)
                } else {
                    Err(MachineError::PointerIncrementOutOfBound)
                }
            },
            Command::DecrementPointer => {
                if machine.cell_pointer != 0 {
                    machine.instruction_pointer += 1;
                    machine.cell_pointer -= 1;
                    Ok(machine)
                } else {
                    Err(MachineError::PointerDecrementOutOfBound)
                }
            },
            Command::Increment => {
                let current_value = machine.cells[machine.cell_pointer];
                machine.instruction_pointer += 1;
                machine.cells[machine.cell_pointer] = current_value.wrapping_add(1);
                Ok(machine)
            },
            Command::Decrement => {
                let current_value = machine.cells[machine.cell_pointer];
                machine.instruction_pointer += 1;
                machine.cells[machine.cell_pointer] = current_value.wrapping_sub(1);
                Ok(machine)
            },
            Command::JumpAhead => {
                let current_value = machine.cells[machine.cell_pointer];
                if current_value == 0 {
                    match machine.jump_back_index(machine.instruction_pointer) {
                        Some(index) => {
                            proof {
                                lemma_scan_ahead_in_range(
                                    machine@.program,
                                    machine@.instruction_pointer + 1,
                                    1,
                                );
                            }
                            machine.instruction_pointer = index + 1;
                            Ok(machine)
                        },
                        None => Err(MachineError::UnmatchedJumpAhead),
                    }
                } else {
                    machine.instruction_pointer += 1;
                    Ok(machine)
                }
            },
            Command::JumpBack => {
                let current_value = machine.cells[machine.cell_pointer];
                if current_value != 0 {
                    match machine.jump_ahead_index(machine.instruction_pointer) {
                        Some(index) => {
                            proof {
                                lemma_scan_behind_in_range(
                                    machine@.program,
                                    machine@.instruction_pointer - 1,
                                    1,
                                );
                            }
                            machine.instruction_pointer = index + 1;
                            Ok(machine)
                        },
                        None => Err(MachineError::UnmatchedJumpBack),
                    }
                } else {
                    machine.instruction_pointer += 1;
                    Ok(machine)
                }
            },
            Command::Read => {
                let Machine {
                    input,
                    output,
                    instruction_pointer,
                    instructions,
                    cell_pointer,
                    cells,
                } = machine;
                match input {
                    None => Err(MachineError::NoInput),
                    Some(source) => {
                        let outcome = source.read_byte();
                        let asked = Machine {
                            input: Some(source),
                            output,
                            instruction_pointer,
                            instructions,
                            cell_pointer,
                            cells,
                        };
                        proof {
                            if let ReadOutcome::Byte(_) = outcome {
                                assert(asked@.input->0 =~= self@.input->0.skip(1));
                            }
                        }
                        asked.after_read(outcome)
                    },
                }
            },
            Command::Write => {
                let Machine {
                    input,
                    output,
                    instruction_pointer,
                    instructions,
                    cell_pointer,
                    cells,
                } = machine;
                match output {
                    None => Err(MachineError::NoOutput),
                    Some(sink) => {
                        let outcome = sink.write_byte(cells[cell_pointer]);
                        let asked = Machine {
                            input,
                            output: Some(sink),
                            instruction_pointer,
                            instructions,
                            cell_pointer,
                            cells,
                        };
                        asked.after_write(outcome)
                    },
                }
            },
        }
    }

    /// What the next instruction asks of the surroundings.
    ///
    /// A caller that does the reading and writing itself, in place of bound
    /// endpoints, asks this before each step: on `Compute` it calls
    /// `execute`, on `Read` it reads and calls `after_read`, on `Write` it
    /// writes the byte and calls `after_write`.
    pub fn next_action(&self) -> (action: Action)
        requires
            !self@.halted(),
        ensures
            action == self@.action(),
    {
        proof {
            use_type_invariant(self);
        }
        match self.instructions[self.instruction_pointer] {
            Command::Read => Action::Read,
            Command::Write => Action::Write(self.cells[self.cell_pointer]),
            _ => Action::Compute,
        }
    }

    /// Carries out the read at the instruction pointer with the answer that
    /// the caller got for it; the bound endpoints are not asked.
    pub fn after_read(self, outcome: ReadOutcome) -> (result: Result<
        Machine<'a, I, O>,
        MachineError,
    >)
        requires
            !self@.halted(),
            self@.command() == Command::Read,
        ensures
            match result {
                Ok(next) => {
                    &&& self@.after_read(outcome) == Ok::<State, MachineError>(next@)
                    &&& next@.wf()
                    &&& next.falters() == self.falters()
                    &&& next.bound_input() == self.bound_input()
                    &&& next.bound_output() == self.bound_output()
                },
                Err(error) => {
                    &&& self@.after_read(outcome) == Err::<State, MachineError>(error)
                    &&& self.bound_input() matches Some(source) ==> Some(final(source).pending())
                        == self@.input
                    &&& self.bound_output() matches Some(sink) ==> Some(final(sink).taken())
                        == self@.output
                },
            },
    {
        let mut machine = self;
        proof {
            use_type_invariant(&machine);
            assert(machine.instruction_pointer < machine.instructions.len());
        }
        match outcome {
            ReadOutcome::Byte(byte) => {
                machine.instruction_pointer += 1;
                machine.cells[machine.cell_pointer] = byte;
                Ok(machine)
            },
            ReadOutcome::End => Err(MachineError::NoByteRead),
            ReadOutcome::Failed => Err(MachineError::InputError),
        }
    }

    /// Goes on after the write at the instruction pointer with the answer
    /// that the caller got for it; the bound endpoints are not asked.
    pub fn after_write(self, outcome: WriteOutcome) -> (result: Result<
        Machine<'a, I, O>,
        MachineError,
    >)
        requires
            !self@.halted(),
            self@.command() == Command::Write,
        ensures
            match result {
                Ok(next) => {
                    &&& self@.after_write(outcome) == Ok::<State, MachineError>(next@)
                    &&& next@.wf()
                    &&& next.falters() == self.falters()
                    &&& next.bound_input() == self.bound_input()
                    &&& next.bound_output() == self.bound_output()
                },
                Err(error) => {
                    &&& self@.after_write(outcome) == Err::<State, MachineError>(error)
                    &&& self.bound_input() matches Some(source) ==> Some(final(source).pending())
                        == self@.input
                    &&& self.bound_output() matches Some(sink) ==> Some(final(sink).taken())
                        == self@.output
                },
            },
    {
        let mut machine = self;
        proof {
            use_type_invariant(&machine);
            assert(machine.instruction_pointer < machine.instructions.len());
        }
        match outcome {
            WriteOutcome::Written => {
                machine.instruction_pointer += 1;
                Ok(machine)
            },
            WriteOutcome::Refused => Err(MachineError::NoByteWritten),
            WriteOutcome::Failed => Err(MachineError::OutputError),
        }
    }

    /// Gives the endpoints back: they are left as the state of this machine
    /// shows them.
    pub fn release(self)
        ensures
            self.bound_input() matches Some(source) ==> Some(final(source).pending())
                == self@.input,
            self.bound_output() matches Some(sink) ==> Some(final(sink).taken()) == self@.output,
    {
    }

    /// Executes instructions until the machine has halted, an instruction
    /// fails, or `limit` instructions have been executed.
    ///
    /// Some number of steps, at most `limit`, leads from this machine's state
    /// to a last state, in which the endpoints are left. On `Ok` the last
    /// state is halted. On `OutOfSteps` it is the state after `limit` steps,
    /// and not halted. On any other error it is the state whose step failed:
    /// as `step` says or, where an endpoint falters, on account of that
    /// endpoint. Where no endpoint falters, the result is the `outcome` of
    /// this machine's state within `limit` steps.
    pub fn run_within(self, limit: u64) -> (result: Result<(), MachineError>)
        ensures
            exists|steps: nat|
                {
                    &&& steps <= limit
                    &&& #[trigger] self@.run(steps) matches Ok(last)
                    &&& self.bound_input() matches Some(source) ==> Some(final(source).pending())
                        == last.input
                    &&& self.bound_output() matches Some(sink) ==> Some(final(sink).taken())
                        == last.output
                    &&& last.explains(steps, limit as nat, result)
                    &&& !self.falters() ==> last.settles(steps, limit as nat, result)
                },
            !self.falters() ==> result == self@.outcome(limit as nat),
            !self.falters() ==> (self@.run(limit as nat) matches Ok(last) ==> {
                &&& self.bound_input() matches Some(source) ==> Some(final(source).pending())
                    == last.input
                &&& self.bound_output() matches Some(sink) ==> Some(final(sink).taken())
                    == last.output
            }),
    {
        let mut machine = self;
        let mut steps: u64 = 0;
        while !machine.halted() && steps < limit
            invariant
                steps <= limit,
                machine.falters() == self.falters(),
                self@.run(steps as nat) == Ok::<State, MachineError>(machine@),
                self.bound_input() matches Some(before) ==> (machine.bound_input() matches Some(
                    after,
                ) && *final(after) == *final(before)),
                self.bound_output() matches Some(before) ==> (machine.bound_output() matches Some(
                    after,
                ) && *final(after) == *final(before)),
            decreases limit - steps,
        {
            proof {
                lemma_run_one_more(self@, steps as nat, machine@);
            }
            match machine.execute() {
                Ok(next) => {
                    machine = next;
                    steps += 1;
                },
                Err(error) => {
                    proof {
                        if !self.falters() {
                            lemma_settled_run_is_outcome(
                                self@,
                                steps as nat,
                                limit as nat,
                                machine@,
                                Err(error),
                            );
                        }
                    }
                    return Err(error);
                },
            }
        }
        let result = if machine.halted() {
            Ok(())
        } else {
            Err(MachineError::OutOfSteps)
        };
        proof {
            lemma_settled_run_is_outcome(self@, steps as nat, limit as nat, machine@, result);
        }
        result
    }

    /// Executes instructions until the machine has halted or an instruction
    /// fails; gives up with `OutOfSteps` after `STEP_LIMIT` instructions, so
    /// that every call returns.
    ///
    /// The result is that of `run_within` with `STEP_LIMIT` steps.
    pub fn run(self) -> (result: Result<(), MachineError>)
        ensures
            exists|steps: nat|
                {
                    &&& steps <= STEP_LIMIT
                    &&& #[trigger] self@.run(steps) matches Ok(last)
                    &&& self.bound_input() matches Some(source) ==> Some(final(source).pending())
                        == last.input
                    &&& self.bound_output() matches Some(sink) ==> Some(final(sink).taken())
                        == last.output
                    &&& last.explains(steps, STEP_LIMIT as nat, result)
                    &&& !self.falters() ==> last.settles(steps, STEP_LIMIT as nat, result)
                },
            !self.falters() ==> result == self@.outcome(STEP_LIMIT as nat),
            !self.falters() ==> (self@.run(STEP_LIMIT as nat) matches Ok(last) ==> {
                &&& self.bound_input() matches Some(source) ==> Some(final(source).pending())
                    == last.input
                &&& self.bound_output() matches Some(sink) ==> Some(final(sink).taken())
                    == last.output
            }),
    {
        self.run_within(STEP_LIMIT)
    }
}

/// Whether two tapes hold the same value in every cell.
pub fn same_cells(lhs: &[u8; SIZE], rhs: &[u8; SIZE]) -> (same: bool)
    ensures
        same == (lhs@ == rhs@),
{
    let mut index: usize = 0;
    while index < SIZE && lhs[index] == rhs[index]
        invariant
            index <= SIZE,
            forall|i: int| 0 <= i < index ==> lhs@[i] == rhs@[i],
        decreases SIZE - index,
    {
        index += 1;
    }
    assert(index == SIZE ==> lhs@ =~= rhs@);
    index == SIZE
}

/// Whether two programs are the same instructions in the same order.
pub fn same_instructions(lhs: &[Command], rhs: &[Command]) -> (same: bool)
    ensures
        same == (lhs@ == rhs@),
{
    if lhs.len() != rhs.len() {
        return false;
    }
    let mut index: usize = 0;
    while index < lhs.len() && lhs[index] == rhs[index]
        invariant
            lhs@.len() == rhs@.len(),
            index <= lhs@.len(),
            forall|i: int| 0 <= i < index ==> lhs@[i] == rhs@[i],
        decreases lhs@.len() - index,
    {
        index += 1;
    }
    assert(index == lhs@.len() ==> lhs@ =~= rhs@);
    index == lhs.len()
}

/// Two machines are equal when they stand at the same place of the same
/// program, over equal tapes and at the same cell. What their endpoints hold
/// is not compared.
impl<'a, I: ByteSource, O: ByteSink> PartialEq for Machine<'a, I, O> {
    fn eq(&self, rhs: &Self) -> (equal: bool) {
        if self.instruction_pointer != rhs.instruction_pointer {
            return false;
        }
        if !same_instructions(self.instructions, rhs.instructions) {
            return false;
        }
        if self.cell_pointer != rhs.cell_pointer {
            return false;
        }
        if !same_cells(&self.cells, &rhs.cells) {
            return false;
        }
        true
    }
}

impl<'a, I: ByteSource, O: ByteSink> PartialEqSpecImpl for Machine<'a, I, O> {
    open spec fn obeys_eq_spec() -> bool {
        true
    }

    open spec fn eq_spec(&self, rhs: &Self) -> bool {
        &&& self@.instruction_pointer == rhs@.instruction_pointer
        &&& self@.program == rhs@.program
        &&& self@.cell_pointer == rhs@.cell_pointer
        &&& self@.cells == rhs@.cells
    }
}

} // verus!
