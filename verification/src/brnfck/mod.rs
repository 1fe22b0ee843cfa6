//! The instruction set and everything that works on instruction sequences.
//!
//! * [`command`] is the instruction set, with the symbol and the mountain of
//!   each command.
//! * [`state`] is the model of the machine: its state, what a step makes of
//!   it, and what a run is. [`steps`], [`jumps`] and [`runs`] hold what
//!   follows from the model.
//! * [`machine`] is the executable machine, [`endpoint`] what it reads from
//!   and writes to.
//! * [`parser`] reads symbolic source, [`emit`] writes both notations.
//! * [`synth`] synthesizes the program that prints given bytes, and
//!   [`printing`] proves that it does.
//!
//! Two choices are fixed throughout. Cells hold bytes and their arithmetic
//! wraps around: 255 is followed by 0 and 0 preceded by 255. The cell pointer
//! does not wrap: moving it off either edge of the tape is an error.

use vstd::prelude::*;

pub mod command;
pub mod emit;
pub mod endpoint;
pub mod jumps;
pub mod machine;
pub mod parser;
pub mod printing;
pub mod runs;
pub mod state;
pub mod steps;
pub mod synth;

pub use self::command::Command;
pub use self::emit::{to_bergen, to_brnfck};
pub use self::endpoint::{ByteSink, ByteSource, ReadOutcome, WriteOutcome};
pub use self::synth::{alter_to_left, change_to_character_by, factors_of, program_from};
pub use self::machine::{Machine, MachineError, SIZE, STEP_LIMIT};
pub use self::state::{Action, State};

verus! {

/// Runs `instructions` on a fresh machine with no endpoint bound, for at
/// most `STEP_LIMIT` steps.
pub fn run(instructions: &[Command]) -> (result: Result<(), MachineError>)
    ensures
        result == State::fresh(instructions@, None, None).outcome(STEP_LIMIT as nat),
{
    let machine: Machine<&[u8], Vec<u8>> = Machine::new(instructions);
    machine.run()
}

/// Runs `instructions` on a fresh machine that reads from `input` and writes
/// to `output`, for at most `STEP_LIMIT` steps.
///
/// Some number of steps leads from the fresh state to a last state, which
/// accounts for the result as `State::explains` says; afterwards `input` has
/// pending and `output` has taken what the last state says. Where both
/// endpoints are reliable, the result is the `outcome` of the fresh state,
/// and a run that no step fails leaves the endpoints as the state that it
/// ends in says.
pub fn io_run<I: ByteSource, O: ByteSink>(
    instructions: &[Command],
    input: &mut I,
    output: &mut O,
) -> (result: Result<(), MachineError>)
    ensures
        exists|steps: nat|
            {
                &&& steps <= STEP_LIMIT
                &&& #[trigger] State::fresh(
                    instructions@,
                    Some(old(input).pending()),
                    Some(old(output).taken()),
                ).run(steps) matches Ok(last)
                &&& last.input == Some(final(input).pending())
                &&& last.output == Some(final(output).taken())
                &&& last.explains(steps, STEP_LIMIT as nat, result)
                &&& old(input).reliable() && old(output).reliable() ==> last.settles(
                    steps,
                    STEP_LIMIT as nat,
                    result,
                )
            },
        old(input).reliable() && old(output).reliable() ==> result == State::fresh(
            instructions@,
            Some(old(input).pending()),
            Some(old(output).taken()),
        ).outcome(STEP_LIMIT as nat),
        old(input).reliable() && old(output).reliable() ==> (State::fresh(
            instructions@,
            Some(old(input).pending()),
            Some(old(output).taken()),
        ).run(STEP_LIMIT as nat) matches Ok(last) ==> last.input == Some(final(input).pending())
            && last.output == Some(final(output).taken())),
{
    let machine: Machine<I, O> = Machine::io(instructions, input, output);
    machine.run()
}

} // verus!
