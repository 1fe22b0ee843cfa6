//! Reader for the mountain-range notation: three rows of equal length, each
//! ended by a newline, on which every command is drawn as one mountain.

use vstd::prelude::*;
use crate::brnfck::command::{lemma_rows_have_width, Command};
use crate::brnfck::emit::NEWLINE;

pub mod laws;

verus! {

/// Why a mountain range could not be read.
#[derive(Clone, Copy, Debug, PartialEq, Eq, Structural)]
pub enum ParseError {
    /// The source holds fewer than three rows that end in a newline.
    NotEnoughRows,
    /// The three rows are not of one length.
    DifferentNumberOfRows,
    /// No mountain starts at this column.
    UnknownMountainRange(usize),
}

/// Position of the first newline of `source` at or after `start`; the length
/// of `source` when there is none.
pub open spec fn line_end(source: Seq<u8>, start: int) -> int
    decreases source.len() - start,
{
    if start < 0 || start >= source.len() {
        source.len() as int
    } else if source[start] == NEWLINE {
        start
    } else {
        line_end(source, start + 1)
    }
}

/// The first three lines of `source`, without the newlines that end them;
/// `None` when `source` holds fewer than three newlines.
pub open spec fn rows_of(source: Seq<u8>) -> Option<(Seq<u8>, Seq<u8>, Seq<u8>)> {
    let first = line_end(source, 0);
    let second = line_end(source, first + 1);
    let third = line_end(source, second + 1);
    if third < source.len() {
        Some(
            (
                source.subrange(0, first),
                source.subrange(first + 1, second),
                source.subrange(second + 1, third),
            ),
        )
    } else {
        None
    }
}

/// Whether `row` holds `pattern` from `column` on.
pub open spec fn matches_at(row: Seq<u8>, column: int, pattern: Seq<u8>) -> bool {
    &&& 0 <= column
    &&& column + pattern.len() <= row.len()
    &&& row.subrange(column, column + pattern.len()) == pattern
}

/// Whether the mountain of `command` stands at `column` of the three rows.
pub open spec fn stands_at(
    command: Command,
    column: int,
    top: Seq<u8>,
    middle: Seq<u8>,
    bottom: Seq<u8>,
) -> bool {
    &&& matches_at(top, column, command.top_row())
    &&& matches_at(middle, column, command.middle_row())
    &&& matches_at(bottom, column, command.bottom_row())
}

/// `command` with the column just past its mountain, when that mountain
/// stands at `column`.
pub open spec fn past(command: Command, column: int) -> (Command, int) {
    (command, column + command.width())
}

/// The command whose mountain stands at `column`, with the column just past
/// that mountain. Where more than one would fit, the first of pointer right,
/// pointer left, increment, decrement, jump ahead, jump back, write and read
/// is taken.
pub open spec fn mountain_at(column: int, top: Seq<u8>, middle: Seq<u8>, bottom: Seq<u8>) -> Option<
    (Command, int),
> {
    if stands_at(Command::IncrementPointer, column, top, middle, bottom) {
        Some(past(Command::IncrementPointer, column))
    } else if stands_at(Command::DecrementPointer, column, top, middle, bottom) {
        Some(past(Command::DecrementPointer, column))
    } else if stands_at(Command::Increment, column, top, middle, bottom) {
        Some(past(Command::Increment, column))
    } else if stands_at(Command::Decrement, column, top, middle, bottom) {
        Some(past(Command::Decrement, column))
    } else if stands_at(Command::JumpAhead, column, top, middle, bottom) {
        Some(past(Command::JumpAhead, column))
    } else if stands_at(Command::JumpBack, column, top, middle, bottom) {
        Some(past(Command::JumpBack, column))
    } else if stands_at(Command::Write, column, top, middle, bottom) {
        Some(past(Command::Write, column))
    } else if stands_at(Command::Read, column, top, middle, bottom) {
        Some(past(Command::Read, column))
    } else {
        None
    }
}

/// The commands drawn on the three rows from `column` on, mountain after
/// mountain up to the end of the top row; the column at which no mountain
/// starts, when there is one.
#[verifier::opaque]
pub open spec fn range_from(top: Seq<u8>, middle: Seq<u8>, bottom: Seq<u8>, column: int) -> Result<
    Seq<Command>,
    ParseError,
>
    decreases top.len() - column,
{
    if column < 0 || column >= top.len() {
        Ok(Seq::empty())
    } else {
        match mountain_at(column, top, middle, bottom) {
            None => Err(ParseError::UnknownMountainRange(column as usize)),
            Some((command, next)) => match range_from(top, middle, bottom, next) {
                Ok(rest) => Ok(seq![command] + rest),
                Err(error) => Err(error),
            },
        }
    }
}

/// What reading `source` as a mountain range gives.
pub open spec fn reading_of(source: Seq<u8>) -> Result<Seq<Command>, ParseError> {
    match rows_of(source) {
        None => Err(ParseError::NotEnoughRows),
        Some((top, middle, bottom)) => if top.len() != middle.len() || middle.len()
            != bottom.len() {
            Err(ParseError::DifferentNumberOfRows)
        } else {
            range_from(top, middle, bottom, 0)
        },
    }
}

/// Index of the first newline of `source` at or after `start`, or the length
/// of `source`.
fn end_of_line(source: &[u8], start: usize) -> (end: usize)
    requires
        start <= source@.len(),
    ensures
        end == line_end(source@, start as int),
        start <= end <= source@.len(),
{
    let mut index: usize = start;
    while index < source.len() && source[index] != NEWLINE
        invariant
            start <= index <= source@.len(),
            line_end(source@, start as int) == line_end(source@, index as int),
        decreases source@.len() - index,
    {
        index += 1;
    }
    index
}

/// Splits `source` into its first three lines.
pub fn rows(source: &[u8]) -> (result: Result<(&[u8], &[u8], &[u8]), ParseError>)
    ensures
        match result {
            Ok((top, middle, bottom)) => rows_of(source@) == Some((top@, middle@, bottom@)),
            Err(error) => error == ParseError::NotEnoughRows && rows_of(source@) is None,
        },
{
    let first_index = end_of_line(source, 0);
    if first_index >= source.len() {
        return Err(ParseError::NotEnoughRows);
    }
    let second_index = end_of_line(source, first_index + 1);
    if second_index >= source.len() {
        return Err(ParseError::NotEnoughRows);
    }
    let third_index = end_of_line(source, second_index + 1);
    if third_index >= source.len() {
        return Err(ParseError::NotEnoughRows);
    }
    Ok(
        (
            vstd::slice::slice_subrange(source, 0, first_index),
            vstd::slice::slice_subrange(source, first_index + 1, second_index),
            vstd::slice::slice_subrange(source, second_index + 1, third_index),
        ),
    )
}

/// Whether `row` holds `pattern` from `column` on.
fn matches(row: &[u8], column: usize, pattern: &[u8]) -> (found: bool)
    ensures
        found == matches_at(row@, column as int, pattern@),
{
    if column > row.len() || pattern.len() > row.len() - column {
        return false;
    }
    let ghost held = row@.subrange(column as int, column + pattern@.len());
    let length = row.len();
    let mut index: usize = 0;
    while index < pattern.len()
        invariant
            length == row@.len(),
            column + pattern@.len() <= row@.len(),
            index <= pattern@.len(),
            held == row@.subrange(column as int, column + pattern@.len()),
            forall|i: int| 0 <= i < index ==> held[i] == pattern@[i],
        decreases pattern@.len() - index,
    {
        if row[column + index] != pattern[index] {
            assert(held[index as int] != pattern@[index as int]);
            return false;
        }
        index += 1;
    }
    assert(held =~= pattern@);
    true
}

/// Whether the mountain of `command` stands at `column` of the three rows.
fn stands(command: Command, column: usize, top: &[u8], middle: &[u8], bottom: &[u8]) -> (found:
    bool)
    ensures
        found == stands_at(command, column as int, top@, middle@, bottom@),
        found ==> column + command.width() <= usize::MAX,
{
    proof {
        lemma_rows_have_width(command);
    }
    let length = top.len();
    matches(top, column, command.top()) && matches(middle, column, command.middle()) && matches(
        bottom,
        column,
        command.bottom(),
    )
}

/// Finds the mountain that stands at `column` of the three rows, and the
/// column just past it.
pub fn peek(column: usize, top: &[u8], middle: &[u8], bottom: &[u8]) -> (found: Option<
    (Command, usize),
>)
    ensures
        match found {
            Some((command, next)) => mountain_at(column as int, top@, middle@, bottom@) == Some(
                (command, next as int),
            ),
            None => mountain_at(column as int, top@, middle@, bottom@) is None,
        },
{
    if stands(Command::IncrementPointer, column, top, middle, bottom) {
        return Some((Command::IncrementPointer, column + 6));
    }
    if stands(Command::DecrementPointer, column, top, middle, bottom) {
        return Some((Command::DecrementPointer, column + 8));
    }
    if stands(Command::Increment, column, top, middle, bottom) {
        return Some((Command::Increment, column + 4));
    }
    if stands(Command::Decrement, column, top, middle, bottom) {
        return Some((Command::Decrement, column + 6));
    }
    if stands(Command::JumpAhead, column, top, middle, bottom) {
        return Some((Command::JumpAhead, column + 8));
    }
    if stands(Command::JumpBack, column, top, middle, bottom) {
        return Some((Command::JumpBack, column + 8));
    }
    if stands(Command::Write, column, top, middle, bottom) {
        return Some((Command::Write, column + 2));
    }
    if stands(Command::Read, column, top, middle, bottom) {
        return Some((Command::Read, column + 8));
    }
    None
}

/// Reads a mountain range.
///
/// The source must hold three rows of equal length, each ended by a newline;
/// what follows the third newline is not read. The result is the commands
/// whose mountains stand side by side on those rows, or the first column at
/// which none does.
pub fn parse(source: &[u8]) -> (result: Result<Vec<Command>, ParseError>)
    ensures
        match result {
            Ok(program) => reading_of(source@) == Ok::<Seq<Command>, ParseError>(program@),
            Err(error) => reading_of(source@) == Err::<Seq<Command>, ParseError>(error),
        },
{
    let (top, middle, bottom) = match rows(source) {
        Ok(found) => found,
        Err(error) => {
            return Err(error);
        },
    };
    if top.len() != middle.len() || middle.len() != bottom.len() {
        return Err(ParseError::DifferentNumberOfRows);
    }
    let mut program: Vec<Command> = Vec::new();
    let mut column: usize = 0;
    proof {
        reveal(range_from);
    }
    while column < top.len()
        invariant
            rows_of(source@) == Some((top@, middle@, bottom@)),
            top@.len() == middle@.len() == bottom@.len(),
            range_from(top@, middle@, bottom@, 0) == match range_from(
                top@,
                middle@,
                bottom@,
                column as int,
            ) {
                Ok(rest) => Ok::<Seq<Command>, ParseError>(program@ + rest),
                Err(error) => Err(error),
            },
        decreases top@.len() - column,
    {
        proof {
            reveal(range_from);
        }
        match peek(column, top, middle, bottom) {
            Some((command, next_column)) => {
                proof {
                    match range_from(top@, middle@, bottom@, next_column as int) {
                        Ok(rest) => {
                            assert(program@ + (seq![command] + rest) =~= program@.push(command)
                                + rest);
                        },
                        Err(_) => {},
                    }
                }
                column = next_column;
                program.push(command);
            },
            None => {
                return Err(ParseError::UnknownMountainRange(column));
            },
        }
    }
    proof {
        reveal(range_from);
        assert(program@ + Seq::<Command>::empty() =~= program@);
    }
    Ok(program)
}

} // verus!
