use bergen::brnfck::machine::{Machine, SIZE};
use bergen::brnfck::{Command, MachineError};

struct BuildMachine<'a> {
    instruction_pointer: usize,
    instructions: &'a [Command],
    cell_pointer: usize,
    cells: [u8; SIZE],
}

impl<'a> BuildMachine<'a> {
    fn with(instructions: &'a [Command]) -> Self {
        BuildMachine { instruction_pointer: 0, instructions, cell_pointer: 0, cells: [0; SIZE] }
    }

    fn instruction_pointer_at(self, instruction_pointer: usize) -> Self {
        BuildMachine {
            instruction_pointer,
            instructions: self.instructions,
            cell_pointer: self.cell_pointer,
            cells: self.cells,
        }
    }

    fn cell_pointer_at(self, cell_pointer: usize) -> Self {
        BuildMachine {
            instruction_pointer: self.instruction_pointer,
            instructions: self.instructions,
            cell_pointer,
            cells: self.cells,
        }
    }

    fn cell(mut self, index: usize, value: u8) -> Self {
        self.cells[index] = value;
        BuildMachine {
            instruction_pointer: self.instruction_pointer,
            instructions: self.instructions,
            cell_pointer: self.cell_pointer,
            cells: self.cells,
        }
    }

    fn build(self) -> Machine<'a, &'a [u8], Vec<u8>> {
        Machine::restore(self.instructions, self.instruction_pointer, self.cell_pointer, self.cells)
            .expect("pointers within the program and the tape")
    }
}

#[test]
fn execute_increment_pointer_will_result_in_a_machine() {
    let instructions = [Command::IncrementPointer];
    let expected_machine =
        BuildMachine::with(&instructions).instruction_pointer_at(1).cell_pointer_at(1).build();
    let machine: Machine<&[u8], Vec<u8>> = Machine::new(&instructions);

    if let Ok(result_machine) = machine.execute() {
        assert_eq!(result_machine, expected_machine);
    } else {
        assert!(false);
    }
}

#[test]
fn execute_increment_will_result_in_a_machine() {
    let instructions = [Command::Increment];
    let expected_machine =
        BuildMachine::with(&instructions).instruction_pointer_at(1).cell(0, 1).build();
    let machine: Machine<&[u8], Vec<u8>> = Machine::new(&instructions);

    if let Ok(result_machine) = machine.execute() {
        assert_eq!(result_machine, expected_machine);
    } else {
        assert!(false);
    }
}

#[test]
fn execute_instruction_will_result_in_an_error() {
    for (instruction, expected_error) in vec![
        (Command::DecrementPointer, MachineError::PointerDecrementOutOfBound),
        (Command::Read, MachineError::NoInput),
        (Command::Write, MachineError::NoOutput),
    ] {
        let instructions = [instruction];
        let machine: Machine<&[u8], Vec<u8>> = Machine::new(&instructions);

        if let Err(result_error) = machine.execute() {
            assert_eq!(result_error, expected_error);
        } else {
            assert!(false);
        }
    }
}

#[test]
fn increment_pointer_should_error_when_on_boundary() {
    let instructions = [Command::IncrementPointer];
    let machine = BuildMachine::with(&instructions).cell_pointer_at(SIZE - 1).build();

    if let Err(result_error) = machine.execute() {
        assert_eq!(result_error, MachineError::PointerIncrementOutOfBound);
    } else {
        assert!(false);
    }
}

#[test]
fn increment_should_error_when_on_around() {
    let instructions = [Command::Increment];
    let machine = BuildMachine::with(&instructions).cell(0, u8::max_value()).build();

    if let Ok(result_machine) = machine.execute() {
        assert_eq!(
            result_machine,
            BuildMachine::with(&instructions).instruction_pointer_at(1).cell(0, 0).build()
        );
    } else {
        assert!(false);
    }
}

#[test]
fn jump_ahead_should_error_when_missing_jump_back() {
    let instructions = [Command::JumpAhead];
    let machine: Machine<&[u8], Vec<u8>> = Machine::new(&instructions);

    if let Err(result_error) = machine.execute() {
        assert_eq!(result_error, MachineError::UnmatchedJumpAhead);
    } else {
        assert!(false);
    }
}

#[test]
fn jump_back_should_error_when_missing_jump_ahead() {
    let instructions = [Command::JumpBack];
    let machine = BuildMachine::with(&instructions).cell(0, 1).build();

    if let Err(result_error) = machine.execute() {
        assert_eq!(result_error, MachineError::UnmatchedJumpBack);
    } else {
        assert!(false);
    }
}

#[test]
fn jumping_should_work_correctly() {
    let instructions = [
        Command::Increment,
        Command::Increment,
        Command::JumpAhead,
        Command::Decrement,
        Command::JumpBack,
    ];
    let machine: Machine<&[u8], Vec<u8>> = Machine::new(&instructions);

    if let Ok(result_machine) = machine
        .execute()
        .and_then(|machine| {
            assert_eq!(
                machine,
                BuildMachine::with(&instructions).instruction_pointer_at(1).cell(0, 1).build()
            );
            machine.execute()
        })
        .and_then(|machine| {
            assert_eq!(
                machine,
                BuildMachine::with(&instructions).instruction_pointer_at(2).cell(0, 2).build()
            );
            machine.execute()
        })
        .and_then(|machine| {
            assert_eq!(
                machine,
                BuildMachine::with(&instructions).instruction_pointer_at(3).cell(0, 2).build()
            );
            machine.execute()
        })
        .and_then(|machine| {
            assert_eq!(
                machine,
                BuildMachine::with(&instructions).instruction_pointer_at(4).cell(0, 1).build()
            );
            machine.execute()
        })
        .and_then(|machine| {
            assert_eq!(
                machine,
                BuildMachine::with(&instructions).instruction_pointer_at(3).cell(0, 1).build()
            );
            machine.execute()
        })
        .and_then(|machine| {
            assert_eq!(
                machine,
                BuildMachine::with(&instructions).instruction_pointer_at(4).build()
            );
            machine.execute()
        })
    {
        assert_eq!(
            result_machine,
            BuildMachine::with(&instructions).instruction_pointer_at(5).build()
        );
    } else {
        assert!(false);
    }
}

#[test]
fn machine_should_not_have_halted_when_there_are_instructions_left() {
    let instructions = [
        Command::Increment,
        Command::Increment,
        Command::JumpAhead,
        Command::Decrement,
        Command::JumpBack,
    ];
    let machine = BuildMachine::with(&instructions).build();

    assert!(!machine.halted());
}

#[test]
fn machine_should_have_halted_when_there_are_no_instructions_left() {
    let instructions = [
        Command::Increment,
        Command::Increment,
        Command::JumpAhead,
        Command::Decrement,
        Command::JumpBack,
    ];
    let machine = BuildMachine::with(&instructions).instruction_pointer_at(5).build();

    assert!(machine.halted());
}
