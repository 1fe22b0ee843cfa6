use bergen::brnfck::Command;
use bergen::parser::{parse, ParseError};

#[test]
fn should_parse_empty_source() {
    let source: &[u8] = "\n\n\n".as_bytes();

    if let Ok(instructions) = parse(source) {
        assert_eq!(instructions.len(), 0);
    } else {
        assert!(false);
    }
}

#[test]
fn should_parse_increment_pointer() {
    let source: &[u8] = "  /\\  \n /  \\ \n/    \\\n".as_bytes();

    if let Ok(instructions) = parse(source) {
        assert_eq!(instructions.len(), 1);
        assert_eq!(instructions, vec![Command::IncrementPointer])
    } else {
        assert!(false);
    }
}

#[test]
fn should_parse_decrement_pointer() {
    let source: &[u8] = "  /\\/\\  \n /    \\ \n/      \\\n".as_bytes();

    if let Ok(instructions) = parse(source) {
        assert_eq!(instructions.len(), 1);
        assert_eq!(instructions, vec![Command::DecrementPointer])
    } else {
        assert!(false);
    }
}

#[test]
fn should_parse_increment() {
    let source: &[u8] = "    \n /\\ \n/  \\\n".as_bytes();

    if let Ok(instructions) = parse(source) {
        assert_eq!(instructions.len(), 1);
        assert_eq!(instructions, vec![Command::Increment])
    } else {
        assert!(false);
    }
}

#[test]
fn should_parse_decrement() {
    let source: &[u8] = "      \n /\\/\\ \n/    \\\n".as_bytes();

    if let Ok(instructions) = parse(source) {
        assert_eq!(instructions.len(), 1);
        assert_eq!(instructions, vec![Command::Decrement])
    } else {
        assert!(false);
    }
}

#[test]
fn should_parse_jump_ahead() {
    let source: &[u8] = "  /\\    \n /  \\/\\ \n/      \\\n".as_bytes();

    if let Ok(instructions) = parse(source) {
        assert_eq!(instructions.len(), 1);
        assert_eq!(instructions, vec![Command::JumpAhead])
    } else {
        assert!(false);
    }
}

#[test]
fn should_parse_jump_back() {
    let source: &[u8] = "    /\\  \n /\\/  \\ \n/      \\\n".as_bytes();

    if let Ok(instructions) = parse(source) {
        assert_eq!(instructions.len(), 1);
        assert_eq!(instructions, vec![Command::JumpBack])
    } else {
        assert!(false);
    }
}

#[test]
fn should_parse_write() {
    let source: &[u8] = "  \n  \n/\\\n".as_bytes();

    if let Ok(instructions) = parse(source) {
        assert_eq!(instructions.len(), 1);
        assert_eq!(instructions, vec![Command::Write])
    } else {
        assert!(false);
    }
}

#[test]
fn should_throw_when_number_of_columns_do_not_agree() {
    let source: &[u8] = " \n\n\n".as_bytes();

    if let Err(problem) = parse(source) {
        assert_eq!(problem, ParseError::DifferentNumberOfRows);
    } else {
        assert!(false);
    }
}

#[test]
fn should_throw_when_there_are_to_few_rows() {
    let source: &[u8] = " \n\n".as_bytes();

    if let Err(problem) = parse(source) {
        assert_eq!(problem, ParseError::NotEnoughRows);
    } else {
        assert!(false);
    }
}
