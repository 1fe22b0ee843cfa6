use bergen::brnfck::parser::{parse as parse_symbols, ParseError as SymbolError};
use bergen::brnfck::{program_from, to_bergen, to_brnfck, Command};
use bergen::parser::{parse as parse_mountains, peek, rows, ParseError};

fn every_command() -> Vec<Command> {
    vec![
        Command::IncrementPointer,
        Command::DecrementPointer,
        Command::Increment,
        Command::Decrement,
        Command::JumpAhead,
        Command::JumpBack,
        Command::Read,
        Command::Write,
    ]
}

#[test]
fn symbols_survive_reading_and_writing() {
    let source = "++[->+<],.><".as_bytes();

    let program = parse_symbols(source).expect("known characters only");

    assert_eq!(to_brnfck(&program), source.to_vec());
}

#[test]
fn blanks_are_all_that_reading_and_writing_removes() {
    let source = " +\n+ [\r\n - ] ".as_bytes();

    let program = parse_symbols(source).expect("known characters only");

    assert_eq!(to_brnfck(&program), "++[-]".as_bytes().to_vec());
}

#[test]
fn every_command_is_written_as_its_symbol() {
    assert_eq!(to_brnfck(&every_command()), "><+-[],.".as_bytes().to_vec());
}

#[test]
fn written_symbols_read_back_as_the_program() {
    let program = every_command();

    assert_eq!(parse_symbols(&to_brnfck(&program)), Ok(program));
}

#[test]
fn empty_symbolic_source_is_the_empty_program() {
    assert_eq!(parse_symbols(&[]), Ok(vec![]));
    assert_eq!(to_brnfck(&[]), Vec::<u8>::new());
}

#[test]
fn unknown_character_is_reported_with_its_byte() {
    assert_eq!(parse_symbols("+a".as_bytes()), Err(SymbolError::UnknownCharacter(97)));
}

#[test]
fn first_unknown_character_is_the_one_reported() {
    assert_eq!(parse_symbols("+\tx".as_bytes()), Err(SymbolError::UnknownCharacter(9)));
}

#[test]
fn symbols_and_commands_correspond() {
    for command in every_command() {
        assert_eq!(Command::from_brnfck(command.to_brnfck()), Some(command));
    }
    assert_eq!(Command::from_brnfck(32), None);
    assert_eq!(Command::Read.to_brnfck(), 44);
}

#[test]
fn mountains_survive_writing_and_reading() {
    let program = every_command();

    assert_eq!(parse_mountains(&to_bergen(&program)), Ok(program));
}

#[test]
fn synthesized_mountains_survive_writing_and_reading() {
    let program = program_from("Hello, World!".as_bytes());

    assert_eq!(parse_mountains(&to_bergen(&program)), Ok(program));
}

#[test]
fn the_empty_program_is_drawn_as_three_empty_rows() {
    assert_eq!(to_bergen(&[]), "\n\n\n".as_bytes().to_vec());
}

#[test]
fn mountains_are_drawn_side_by_side() {
    let program = [Command::Increment, Command::Write, Command::IncrementPointer];

    let drawn = to_bergen(&program);

    assert_eq!(
        drawn,
        "        /\\  \n /\\    /  \\ \n/  \\/\\/    \\\n".as_bytes().to_vec()
    );
}

#[test]
fn read_is_drawn_as_three_low_peaks() {
    let drawn = to_bergen(&[Command::Read]);

    assert_eq!(drawn, "        \n /\\/\\/\\ \n/      \\\n".as_bytes().to_vec());
    assert_eq!(parse_mountains(&drawn), Ok(vec![Command::Read]));
}

#[test]
fn rows_of_each_mountain_are_as_wide_as_each_other() {
    for command in every_command() {
        assert_eq!(command.top().len(), command.middle().len());
        assert_eq!(command.middle().len(), command.bottom().len());
    }
    assert_eq!(Command::Write.bottom(), "/\\".as_bytes());
    assert_eq!(Command::JumpAhead.top(), "  /\\    ".as_bytes());
    assert_eq!(Command::JumpBack.middle(), " /\\/  \\ ".as_bytes());
}

#[test]
fn several_mountains_are_read_in_their_order() {
    let source: &[u8] = "      /\\  \n /\\  /  \\ \n/  \\/    \\\n".as_bytes();

    assert_eq!(parse_mountains(source), Ok(vec![Command::Increment, Command::IncrementPointer]));
}

#[test]
fn unknown_mountain_is_reported_with_its_column() {
    let source: &[u8] = "    xx\n /\\ xx\n/  \\xx\n".as_bytes();

    assert_eq!(parse_mountains(source), Err(ParseError::UnknownMountainRange(4)));
}

#[test]
fn half_a_mountain_is_no_mountain() {
    let source: &[u8] = "  /\n / \n/  \n".as_bytes();

    assert_eq!(parse_mountains(source), Err(ParseError::UnknownMountainRange(0)));
}

#[test]
fn source_without_newline_has_not_enough_rows() {
    assert_eq!(parse_mountains("/\\".as_bytes()), Err(ParseError::NotEnoughRows));
    assert_eq!(parse_mountains(&[]), Err(ParseError::NotEnoughRows));
}

#[test]
fn what_follows_the_third_row_is_not_read() {
    let source: &[u8] = "  \n  \n/\\\nnot a mountain".as_bytes();

    assert_eq!(parse_mountains(source), Ok(vec![Command::Write]));
}

#[test]
fn rows_are_the_first_three_lines() {
    let source: &[u8] = "ab\n\ncde\nrest".as_bytes();

    assert_eq!(rows(source), Ok(("ab".as_bytes(), "".as_bytes(), "cde".as_bytes())));
    assert_eq!(rows("ab\ncd".as_bytes()), Err(ParseError::NotEnoughRows));
}

#[test]
fn peek_finds_the_mountain_and_the_next_column() {
    let top: &[u8] = "        /\\  ".as_bytes();
    let middle: &[u8] = " /\\    /  \\ ".as_bytes();
    let bottom: &[u8] = "/  \\/\\/    \\".as_bytes();

    assert_eq!(peek(0, top, middle, bottom), Some((Command::Increment, 4)));
    assert_eq!(peek(4, top, middle, bottom), Some((Command::Write, 6)));
    assert_eq!(peek(6, top, middle, bottom), Some((Command::IncrementPointer, 12)));
    assert_eq!(peek(1, top, middle, bottom), None);
    assert_eq!(peek(12, top, middle, bottom), None);
    assert_eq!(peek(usize::MAX, top, middle, bottom), None);
}
