use bergen::brnfck::parser::parse;
use bergen::brnfck::{
    alter_to_left, change_to_character_by, factors_of, io_run, program_from, to_brnfck, Command,
    Machine, MachineError,
};

fn printed_by(program: &[Command]) -> Vec<u8> {
    let mut input: &[u8] = &[];
    let mut output: Vec<u8> = vec![];
    assert_eq!(io_run(program, &mut input, &mut output), Ok(()));
    output
}

fn symbols(program: &[Command]) -> String {
    String::from_utf8(to_brnfck(program)).expect("symbols are ASCII")
}

#[test]
fn program_for_a_prints_97_once() {
    let program = program_from("a".as_bytes());

    assert_eq!(symbols(&program), ">".to_string() + &"+".repeat(97) + "[<+>-]<.");
    assert_eq!(printed_by(&program), vec![97]);
}

#[test]
fn program_for_nothing_is_empty_and_prints_nothing() {
    let program = program_from(&[]);

    assert_eq!(program, vec![]);
    assert_eq!(printed_by(&program), Vec::<u8>::new());
}

#[test]
fn program_for_a_sentence_prints_the_sentence() {
    let sentence = "Hello, World!".as_bytes();

    assert_eq!(printed_by(&program_from(sentence)), sentence.to_vec());
}

#[test]
fn program_for_every_byte_prints_every_byte() {
    let upwards: Vec<u8> = (0..=255).collect();
    let downwards: Vec<u8> = (0..=255).rev().collect();
    let jumps: Vec<u8> = vec![255, 0, 255, 1, 254, 128, 127, 0];

    assert_eq!(printed_by(&program_from(&upwards)), upwards);
    assert_eq!(printed_by(&program_from(&downwards)), downwards);
    assert_eq!(printed_by(&program_from(&jumps)), jumps);
}

#[test]
fn program_appends_to_what_the_output_holds() {
    let program = program_from("bc".as_bytes());
    let mut input: &[u8] = "left alone".as_bytes();
    let mut output: Vec<u8> = vec![97];

    assert_eq!(io_run(&program, &mut input, &mut output), Ok(()));

    assert_eq!(output, vec![97, 98, 99]);
    assert_eq!(input, "left alone".as_bytes());
}

#[test]
fn distance_of_six_is_a_loop_of_two_around_a_loop_of_three() {
    let program = program_from(&[0, 6]);

    assert_eq!(symbols(&program), ".>++[>+++[<<+>>-]<-]<.");
    assert_eq!(printed_by(&program), vec![0, 6]);
}

#[test]
fn distance_downwards_uses_decrements() {
    let program = program_from(&[6, 0]);

    assert_eq!(symbols(&program), ">++[>+++[<<+>>-]<-]<.>++[>+++[<<->>-]<-]<.");
    assert_eq!(printed_by(&program), vec![6, 0]);
}

#[test]
fn distance_of_one_is_one_command_and_of_zero_none() {
    assert_eq!(symbols(&program_from(&[1, 2, 2, 1, 0])), "+.+..-.-.");
}

#[test]
fn large_composite_distance_needs_few_increments() {
    let program = program_from(&[96]);
    let changes = program
        .iter()
        .filter(|command| **command == Command::Increment || **command == Command::Decrement)
        .count();

    assert_eq!(symbols(&program), ">++[>++[>++[>++[>++[>+++[<<<<<<+>>>>>>-]<-]<-]<-]<-]<-]<.");
    assert_eq!(changes, 20);
    assert_eq!(printed_by(&program), vec![96]);
}

#[test]
fn synthesized_program_without_output_fails_on_its_first_write() {
    let program = program_from("a".as_bytes());
    let machine: Machine<&[u8], Vec<u8>> = Machine::new(&program);

    assert_eq!(machine.run(), Err(MachineError::NoOutput));
}

#[test]
fn prime_factors_are_in_ascending_order() {
    assert_eq!(factors_of(12), vec![2, 2, 3]);
    assert_eq!(factors_of(97), vec![97]);
    assert_eq!(factors_of(255), vec![3, 5, 17]);
    assert_eq!(factors_of(128), vec![2, 2, 2, 2, 2, 2, 2]);
    assert_eq!(factors_of(32767), vec![7, 31, 151]);
    assert_eq!(factors_of(32749), vec![32749]);
}

#[test]
fn numbers_below_two_have_no_prime_factors() {
    assert_eq!(factors_of(1), Vec::<i16>::new());
    assert_eq!(factors_of(0), Vec::<i16>::new());
    assert_eq!(factors_of(-6), Vec::<i16>::new());
}

#[test]
fn alter_to_left_moves_there_and_back() {
    let mut program = vec![Command::Write];

    alter_to_left(2, Command::Decrement, &mut program);
    alter_to_left(0, Command::Increment, &mut program);

    assert_eq!(symbols(&program), ".<<->>+");
}

#[test]
fn change_to_character_by_nests_one_loop_per_factor() {
    let mut program = vec![];

    change_to_character_by(2, &[2, 3], Command::Increment, &mut program);

    assert_eq!(symbols(&program), ">++[>+++[<<+>>-]<-]<");
}

#[test]
fn change_to_character_by_without_factors_is_the_shifted_command() {
    let mut program = vec![];

    change_to_character_by(1, &[], Command::Increment, &mut program);
    change_to_character_by(0, &[0, -1], Command::Decrement, &mut program);

    assert_eq!(symbols(&program), "<+>>[>[--]<-]<");
}

#[test]
fn read_then_write_copies_the_input() {
    let program = parse(",.,.,.".as_bytes()).expect("known characters only");
    let mut input: &[u8] = "abcd".as_bytes();
    let mut output: Vec<u8> = vec![];

    assert_eq!(io_run(&program, &mut input, &mut output), Ok(()));

    assert_eq!(output, "abc".as_bytes().to_vec());
    assert_eq!(input, "d".as_bytes());
}

#[test]
fn read_at_the_end_of_the_input_fails() {
    let program = parse(",.,.".as_bytes()).expect("known characters only");
    let mut input: &[u8] = "a".as_bytes();
    let mut output: Vec<u8> = vec![];

    assert_eq!(io_run(&program, &mut input, &mut output), Err(MachineError::NoByteRead));

    assert_eq!(output, vec![97]);
    assert_eq!(input.len(), 0);
}

#[test]
fn echo_loop_runs_until_a_zero_byte() {
    let program = parse(",[.,]".as_bytes()).expect("known characters only");
    let mut input: &[u8] = &[104, 105, 0, 33];
    let mut output: Vec<u8> = vec![];

    assert_eq!(io_run(&program, &mut input, &mut output), Ok(()));

    assert_eq!(output, vec![104, 105]);
    assert_eq!(input, &[33]);
}
