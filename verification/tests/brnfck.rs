use bergen::brnfck::{factors_of, io_run, run, Command};

#[test]
fn run_simple_program() {
    let instructions = [
        Command::Increment,
        Command::Increment,
        Command::JumpAhead,
        Command::Decrement,
        Command::JumpBack,
    ];

    assert_eq!(run(&instructions), Ok(()));
}

#[test]
fn run_io_program() {
    let instructions = [Command::Read, Command::Write];
    let mut input: &[u8] = "a".as_bytes();
    let mut output: Vec<u8> = vec![];

    assert_eq!(io_run(&instructions, &mut input, &mut output), Ok(()));
    assert_eq!(output, vec!(97));
}

#[test]
fn determine_prime_factors() {
    assert_eq!(factors_of(2), vec![2]);
    assert_eq!(factors_of(3), vec![3]);
    assert_eq!(factors_of(4), vec![2, 2]);
    assert_eq!(factors_of(5), vec![5]);
    assert_eq!(factors_of(6), vec![2, 3]);
}
