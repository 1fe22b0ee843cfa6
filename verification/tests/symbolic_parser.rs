use bergen::brnfck::parser::parse;
use bergen::brnfck::Command;

#[test]
#[allow(non_snake_case)]
fn should_parse_Increment() {
    let source = "+".as_bytes();

    if let Ok(program) = parse(&source) {
        assert_eq!(program.len(), 1);
        assert_eq!(program, vec!(Command::Increment));
    } else {
        assert!(false);
    }
}

#[test]
#[allow(non_snake_case)]
fn should_parse_Decrement() {
    let source = "-".as_bytes();

    if let Ok(program) = parse(&source) {
        assert_eq!(program.len(), 1);
        assert_eq!(program, vec!(Command::Decrement));
    } else {
        assert!(false);
    }
}

#[test]
#[allow(non_snake_case)]
fn should_parse_IncrementPointer() {
    let source = ">".as_bytes();

    if let Ok(program) = parse(&source) {
        assert_eq!(program.len(), 1);
        assert_eq!(program, vec!(Command::IncrementPointer));
    } else {
        assert!(false);
    }
}

#[test]
#[allow(non_snake_case)]
fn should_parse_DecrementPointer() {
    let source = "<".as_bytes();

    if let Ok(program) = parse(&source) {
        assert_eq!(program.len(), 1);
        assert_eq!(program, vec!(Command::DecrementPointer));
    } else {
        assert!(false);
    }
}

#[test]
#[allow(non_snake_case)]
fn should_parse_JumpAhead() {
    let source = "[".as_bytes();

    if let Ok(program) = parse(&source) {
        assert_eq!(program.len(), 1);
        assert_eq!(program, vec!(Command::JumpAhead));
    } else {
        assert!(false);
    }
}

#[test]
#[allow(non_snake_case)]
fn should_parse_JumpBack() {
    let source = "]".as_bytes();

    if let Ok(program) = parse(&source) {
        assert_eq!(program.len(), 1);
        assert_eq!(program, vec!(Command::JumpBack));
    } else {
        assert!(false);
    }
}

#[test]
#[allow(non_snake_case)]
fn should_parse_Write() {
    let source = ".".as_bytes();

    if let Ok(program) = parse(&source) {
        assert_eq!(program.len(), 1);
        assert_eq!(program, vec!(Command::Write));
    } else {
        assert!(false);
    }
}

#[test]
#[allow(non_snake_case)]
fn should_parse_Read() {
    let source = ",".as_bytes();

    if let Ok(program) = parse(&source) {
        assert_eq!(program.len(), 1);
        assert_eq!(program, vec!(Command::Read));
    } else {
        assert!(false);
    }
}

#[test]
#[allow(non_snake_case)]
fn should_parse_program() {
    let source = "++[-]".as_bytes();

    if let Ok(program) = parse(&source) {
        assert_eq!(program.len(), 5);
        assert_eq!(
            program,
            vec!(
                Command::Increment,
                Command::Increment,
                Command::JumpAhead,
                Command::Decrement,
                Command::JumpBack
            )
        );
    } else {
        assert!(false);
    }
}

#[test]
#[allow(non_snake_case)]
fn should_parse_program_wuth_whitespace() {
    let source = "++ [ - ] ".as_bytes();

    if let Ok(program) = parse(&source) {
        assert_eq!(program.len(), 5);
        assert_eq!(
            program,
            vec!(
                Command::Increment,
                Command::Increment,
                Command::JumpAhead,
                Command::Decrement,
                Command::JumpBack
            )
        );
    } else {
        assert!(false);
    }
}
