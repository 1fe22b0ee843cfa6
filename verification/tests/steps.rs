use bergen::brnfck::machine::{same_cells, same_instructions, Machine, SIZE};
use bergen::brnfck::{run, Action, Command, MachineError, ReadOutcome, WriteOutcome};

type Plain<'a> = Machine<'a, &'a [u8], Vec<u8>>;

fn at<'a>(
    instructions: &'a [Command],
    instruction_pointer: usize,
    cell_pointer: usize,
    values: &[(usize, u8)],
) -> Plain<'a> {
    let mut cells = [0u8; SIZE];
    for (index, value) in values {
        cells[*index] = *value;
    }
    Machine::restore(instructions, instruction_pointer, cell_pointer, cells)
        .expect("pointers within the program and the tape")
}

#[test]
fn increment_of_255_yields_0() {
    let instructions = [Command::Increment];

    let next = at(&instructions, 0, 7, &[(7, 255)]).execute().expect("no error");

    assert_eq!(next.cells()[7], 0);
    assert_eq!(next.instruction_pointer(), 1);
}

#[test]
fn decrement_of_0_yields_255() {
    let instructions = [Command::Decrement];

    let next = at(&instructions, 0, 0, &[]).execute().expect("no error");

    assert_eq!(next.cells()[0], 255);
    assert_eq!(next.instruction_pointer(), 1);
    assert_eq!(next, at(&instructions, 1, 0, &[(0, 255)]));
}

#[test]
fn pointer_moves_by_one_cell_inside_the_tape() {
    let right = [Command::IncrementPointer];
    let left = [Command::DecrementPointer];

    let moved_right = at(&right, 0, SIZE - 2, &[]).execute().expect("no error");
    let moved_left = at(&left, 0, 1, &[]).execute().expect("no error");

    assert_eq!(moved_right.cell_pointer(), SIZE - 1);
    assert_eq!(moved_left.cell_pointer(), 0);
}

#[test]
fn pointer_stops_at_both_edges_of_the_tape() {
    let right = [Command::IncrementPointer];
    let left = [Command::DecrementPointer];

    assert_eq!(
        at(&right, 0, SIZE - 1, &[]).execute().err(),
        Some(MachineError::PointerIncrementOutOfBound)
    );
    assert_eq!(
        at(&left, 0, 0, &[]).execute().err(),
        Some(MachineError::PointerDecrementOutOfBound)
    );
}

#[test]
fn jump_ahead_over_zero_skips_past_the_matching_jump_back() {
    let instructions = [
        Command::JumpAhead,
        Command::JumpAhead,
        Command::Increment,
        Command::JumpBack,
        Command::JumpBack,
        Command::Write,
    ];

    let next = at(&instructions, 0, 0, &[]).execute().expect("no error");

    assert_eq!(next, at(&instructions, 5, 0, &[]));
}

#[test]
fn jump_ahead_over_a_value_falls_through() {
    let instructions = [Command::JumpAhead, Command::Decrement, Command::JumpBack];

    let next = at(&instructions, 0, 0, &[(0, 3)]).execute().expect("no error");

    assert_eq!(next, at(&instructions, 1, 0, &[(0, 3)]));
}

#[test]
fn jump_back_over_a_value_returns_to_just_past_the_matching_jump_ahead() {
    let instructions = [
        Command::JumpAhead,
        Command::JumpAhead,
        Command::Decrement,
        Command::JumpBack,
        Command::JumpBack,
    ];

    let inner = at(&instructions, 3, 0, &[(0, 1)]).execute().expect("no error");
    let outer = at(&instructions, 4, 0, &[(0, 1)]).execute().expect("no error");

    assert_eq!(inner.instruction_pointer(), 2);
    assert_eq!(outer.instruction_pointer(), 1);
}

#[test]
fn jump_back_over_zero_falls_through() {
    let instructions = [Command::JumpAhead, Command::Decrement, Command::JumpBack];

    let next = at(&instructions, 2, 0, &[]).execute().expect("no error");

    assert!(next.halted());
    assert_eq!(next.instruction_pointer(), 3);
}

#[test]
fn jump_ahead_that_is_closed_too_soon_has_no_match() {
    let instructions =
        [Command::JumpBack, Command::JumpAhead, Command::JumpAhead, Command::JumpBack];

    assert_eq!(
        at(&instructions, 1, 0, &[]).execute().err(),
        Some(MachineError::UnmatchedJumpAhead)
    );
    assert_eq!(
        at(&instructions, 0, 0, &[(0, 1)]).execute().err(),
        Some(MachineError::UnmatchedJumpBack)
    );
}

#[test]
fn matching_jumps_are_found_by_their_index() {
    let instructions = [
        Command::JumpAhead,
        Command::Increment,
        Command::JumpAhead,
        Command::JumpBack,
        Command::JumpBack,
        Command::JumpAhead,
    ];
    let machine: Plain = Machine::new(&instructions);

    assert_eq!(machine.jump_back_index(0), Some(4));
    assert_eq!(machine.jump_back_index(2), Some(3));
    assert_eq!(machine.jump_back_index(5), None);
    assert_eq!(machine.jump_ahead_index(4), Some(0));
    assert_eq!(machine.jump_ahead_index(3), Some(2));
    assert_eq!(machine.jump_ahead_index(0), None);
}

#[test]
fn decrement_loop_halts_after_seven_steps_with_zero() {
    let instructions = [
        Command::Increment,
        Command::Increment,
        Command::JumpAhead,
        Command::Decrement,
        Command::JumpBack,
    ];
    let mut machine: Plain = Machine::new(&instructions);
    let mut steps = 0;

    while !machine.halted() {
        machine = machine.execute().expect("no error");
        steps += 1;
    }

    assert_eq!(steps, 7);
    assert_eq!(machine.instruction_pointer(), 5);
    assert_eq!(machine.cells()[0], 0);
    assert_eq!(machine.cell_pointer(), 0);
}

#[test]
fn run_gives_up_when_it_is_out_of_steps() {
    let instructions = [Command::Increment, Command::JumpAhead, Command::JumpBack];
    let machine: Plain = Machine::new(&instructions);

    assert_eq!(machine.run_within(1000), Err(MachineError::OutOfSteps));
}

#[test]
fn run_within_enough_steps_is_run() {
    let instructions = [
        Command::Increment,
        Command::Increment,
        Command::JumpAhead,
        Command::Decrement,
        Command::JumpBack,
    ];

    let exactly: Plain = Machine::new(&instructions);
    let one_short: Plain = Machine::new(&instructions);

    assert_eq!(exactly.run_within(7), Ok(()));
    assert_eq!(one_short.run_within(6), Err(MachineError::OutOfSteps));
    assert_eq!(run(&instructions), Ok(()));
}

#[test]
fn run_of_the_empty_program_halts_at_once() {
    let machine: Plain = Machine::new(&[]);

    assert!(machine.halted());
    assert_eq!(machine.run_within(0), Ok(()));
    assert_eq!(run(&[]), Ok(()));
}

#[test]
fn run_reports_the_error_of_the_step_that_fails() {
    assert_eq!(run(&[Command::Increment, Command::DecrementPointer]),
        Err(MachineError::PointerDecrementOutOfBound));
    assert_eq!(run(&[Command::Write]), Err(MachineError::NoOutput));
    assert_eq!(run(&[Command::Read]), Err(MachineError::NoInput));
    assert_eq!(run(&[Command::JumpAhead]), Err(MachineError::UnmatchedJumpAhead));
    assert_eq!(run(&[Command::Increment, Command::JumpBack]), Err(MachineError::UnmatchedJumpBack));
}

#[test]
fn next_action_says_what_the_instruction_needs() {
    let instructions = [Command::Read, Command::Write, Command::Increment];

    assert_eq!(at(&instructions, 0, 0, &[]).next_action(), Action::Read);
    assert_eq!(at(&instructions, 1, 2, &[(2, 65)]).next_action(), Action::Write(65));
    assert_eq!(at(&instructions, 2, 0, &[]).next_action(), Action::Compute);
}

#[test]
fn answered_read_stores_the_byte() {
    let instructions = [Command::Read];

    let next = at(&instructions, 0, 3, &[]).after_read(ReadOutcome::Byte(97)).expect("no error");

    assert_eq!(next, at(&instructions, 1, 3, &[(3, 97)]));
}

#[test]
fn read_without_a_byte_fails() {
    let instructions = [Command::Read];

    assert_eq!(
        at(&instructions, 0, 0, &[]).after_read(ReadOutcome::End).err(),
        Some(MachineError::NoByteRead)
    );
    assert_eq!(
        at(&instructions, 0, 0, &[]).after_read(ReadOutcome::Failed).err(),
        Some(MachineError::InputError)
    );
}

#[test]
fn answered_write_goes_on() {
    let instructions = [Command::Write];

    let next =
        at(&instructions, 0, 0, &[(0, 9)]).after_write(WriteOutcome::Written).expect("no error");

    assert_eq!(next, at(&instructions, 1, 0, &[(0, 9)]));
}

#[test]
fn write_that_is_not_taken_fails() {
    let instructions = [Command::Write];

    assert_eq!(
        at(&instructions, 0, 0, &[]).after_write(WriteOutcome::Refused).err(),
        Some(MachineError::NoByteWritten)
    );
    assert_eq!(
        at(&instructions, 0, 0, &[]).after_write(WriteOutcome::Failed).err(),
        Some(MachineError::OutputError)
    );
}

#[test]
fn restore_refuses_pointers_out_of_range() {
    let instructions = [Command::Increment];

    let past_the_end: Option<Plain> = Machine::restore(&instructions, 2, 0, [0; SIZE]);
    let off_the_tape: Option<Plain> = Machine::restore(&instructions, 0, SIZE, [0; SIZE]);
    let at_the_end: Option<Plain> = Machine::restore(&instructions, 1, SIZE - 1, [0; SIZE]);

    assert!(past_the_end.is_none());
    assert!(off_the_tape.is_none());
    assert!(at_the_end.is_some());
}

#[test]
fn fresh_machine_stands_at_the_start_over_a_zeroed_tape() {
    let instructions = [Command::Increment];
    let machine: Plain = Machine::new(&instructions);

    assert_eq!(machine.instruction_pointer(), 0);
    assert_eq!(machine.cell_pointer(), 0);
    assert_eq!(machine.cells().len(), 30_000);
    assert!(machine.cells().iter().all(|cell| *cell == 0));
}

#[test]
fn machines_differ_by_pointer_program_and_tape() {
    let instructions = [Command::Increment, Command::Decrement];
    let others = [Command::Increment, Command::Increment];

    assert!(at(&instructions, 0, 0, &[]) == at(&instructions, 0, 0, &[]));
    assert!(at(&instructions, 0, 0, &[]) != at(&instructions, 1, 0, &[]));
    assert!(at(&instructions, 0, 0, &[]) != at(&instructions, 0, 1, &[]));
    assert!(at(&instructions, 0, 0, &[]) != at(&instructions, 0, 0, &[(SIZE - 1, 1)]));
    assert!(at(&instructions, 0, 0, &[]) != at(&others, 0, 0, &[]));
    assert!(at(&instructions, 0, 0, &[]) != at(&instructions[..1], 0, 0, &[]));
}

#[test]
fn tapes_and_programs_are_compared_value_by_value() {
    let mut changed = [0u8; SIZE];
    changed[SIZE - 1] = 1;

    assert!(same_cells(&[0; SIZE], &[0; SIZE]));
    assert!(!same_cells(&[0; SIZE], &changed));
    assert!(same_instructions(&[Command::Read], &[Command::Read]));
    assert!(!same_instructions(&[Command::Read], &[Command::Write]));
    assert!(!same_instructions(&[Command::Read], &[]));
}

#[test]
fn bound_endpoints_are_read_from_and_written_to() {
    let instructions = [Command::Read, Command::Increment, Command::Write];
    let mut input: &[u8] = &[7, 8];
    let mut output: Vec<u8> = vec![1];
    {
        let mut machine = Machine::io(&instructions, &mut input, &mut output);
        while !machine.halted() {
            machine = machine.execute().expect("no error");
        }
        assert_eq!(machine.cells()[0], 8);
        machine.release();
    }

    assert_eq!(input, &[8]);
    assert_eq!(output, vec![1, 8]);
}

#[test]
fn failing_step_leaves_the_endpoints_as_they_were() {
    let instructions = [Command::Write, Command::DecrementPointer];
    let mut input: &[u8] = &[7];
    let mut output: Vec<u8> = vec![];
    {
        let machine = Machine::io(&instructions, &mut input, &mut output);
        let machine = machine.execute().expect("no error");
        assert_eq!(machine.execute().err(), Some(MachineError::PointerDecrementOutOfBound));
    }

    assert_eq!(input, &[7]);
    assert_eq!(output, vec![0]);
}

#[test]
fn answers_given_by_the_caller_pass_the_bound_endpoints_by() {
    let instructions = [Command::Read, Command::Write];
    let mut input: &[u8] = &[7];
    let mut output: Vec<u8> = vec![];
    {
        let machine = Machine::io(&instructions, &mut input, &mut output);
        let machine = machine.after_read(ReadOutcome::Byte(9)).expect("no error");
        assert_eq!(machine.next_action(), Action::Write(9));
        let machine = machine.after_write(WriteOutcome::Written).expect("no error");
        assert!(machine.halted());
    }

    assert_eq!(input, &[7]);
    assert_eq!(output, Vec::<u8>::new());
}
