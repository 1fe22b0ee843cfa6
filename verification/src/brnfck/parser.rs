//! Reader for symbolic source: one character per command, blanks ignored.

use vstd::prelude::*;
use super::command::Command;

verus! {

/// Why symbolic source could not be read.
#[derive(Clone, Copy, Debug, PartialEq, Eq, Structural)]
pub enum ParseError {
    /// The source holds this byte, which is neither a command nor a blank.
    UnknownCharacter(u8),
}

/// Whether `byte` is one of the blanks that symbolic source may hold between
/// its commands: a line feed, a carriage return or a space.
pub open spec fn is_blank(byte: u8) -> bool {
    byte == 10 || byte == 13 || byte == 32
}

/// Whether `byte` may occur in symbolic source.
pub open spec fn is_known(byte: u8) -> bool {
    Command::of_symbol(byte) is Some || is_blank(byte)
}

/// The commands that the bytes of `source` stand for, in their order; bytes
/// that stand for no command contribute nothing.
pub open spec fn commands_of(source: Seq<u8>) -> Seq<Command>
    decreases source.len(),
{
    if source.len() == 0 {
        Seq::empty()
    } else {
        match Command::of_symbol(source.last()) {
            Some(command) => commands_of(source.drop_last()).push(command),
            None => commands_of(source.drop_last()),
        }
    }
}

/// Reads symbolic source.
///
/// Source made of commands and blanks alone gives its commands. Any other
/// source fails on the first byte that is neither.
pub fn parse(source: &[u8]) -> (result: Result<Vec<Command>, ParseError>)
    ensures
        match result {
            Ok(program) => {
                &&& forall|i: int| 0 <= i < source@.len() ==> is_known(#[trigger] source@[i])
                &&& program@ == commands_of(source@)
            },
            Err(ParseError::UnknownCharacter(byte)) => exists|i: int|
                {
                    &&& 0 <= i < source@.len()
                    &&& #[trigger] source@[i] == byte
                    &&& !is_known(byte)
                    &&& forall|j: int| 0 <= j < i ==> is_known(#[trigger] source@[j])
                },
        },
{
    let mut program: Vec<Command> = Vec::new();
    let mut index: usize = 0;
    while index < source.len()
        invariant
            index <= source@.len(),
            forall|i: int| 0 <= i < index ==> is_known(#[trigger] source@[i]),
            program@ == commands_of(source@.take(index as int)),
        decreases source@.len() - index,
    {
        let byte = source[index];
        proof {
            assert(source@.take(index + 1).drop_last() =~= source@.take(index as int));
        }
        match Command::from_brnfck(byte) {
            Some(command) => {
                program.push(command);
            },
            None => {
                if byte != 10 && byte != 13 && byte != 32 {
                    return Err(ParseError::UnknownCharacter(byte));
                }
            },
        }
        index += 1;
    }
    proof {
        assert(source@.take(index as int) =~= source@);
    }
    Ok(program)
}

} // verus!
