//! What holds of the mountain-range notation as a whole: no two mountains
//! can be taken for one another, and reading a drawn program gives it back.

use vstd::prelude::*;
use crate::brnfck::command::{lemma_rows_have_width, Command, BACKSLASH, SLASH, SPACE};
use crate::brnfck::emit::{drawn, mountains_of, slice_of, Row, NEWLINE};
use super::{line_end, matches_at, mountain_at, range_from, reading_of, rows_of, stands_at};
use super::ParseError;

verus! {

/// Number of columns that the mountain range of `program` occupies.
pub open spec fn width_of(program: Seq<Command>) -> nat
    decreases program.len(),
{
    if program.len() == 0 {
        0
    } else {
        width_of(program.drop_last()) + program.last().width()
    }
}

/// A row that holds a pattern at a column holds each byte of the pattern at
/// its place.
proof fn lemma_matches_at_index(row: Seq<u8>, column: int, pattern: Seq<u8>, i: int)
    requires
        matches_at(row, column, pattern),
        0 <= i < pattern.len(),
    ensures
        row[column + i] == pattern[i],
{
    assert(row.subrange(column, column + pattern.len())[i] == row[column + i]);
}

/// The bottom row of a mountain is a rising slope, blanks, and a falling
/// slope.
proof fn lemma_bottom_shape(command: Command)
    ensures
        command.bottom_row()[0] == SLASH,
        command.bottom_row()[command.width() - 1] == BACKSLASH,
        forall|i: int| 0 < i < command.width() - 1 ==> command.bottom_row()[i] == SPACE,
{
}

/// No row of a mountain holds a newline.
proof fn lemma_slice_holds_no_newline(command: Command, row: Row)
    ensures
        forall|i: int|
            0 <= i < slice_of(command, row).len() ==> slice_of(command, row)[i] != NEWLINE,
{
}

/// Two mountains that stand at one column are as wide as each other: the
/// falling slope on the bottom row ends both.
pub proof fn lemma_mountains_at_one_column_have_one_width(
    first: Command,
    second: Command,
    column: int,
    top: Seq<u8>,
    middle: Seq<u8>,
    bottom: Seq<u8>,
)
    requires
        stands_at(first, column, top, middle, bottom),
        stands_at(second, column, top, middle, bottom),
    ensures
        first.width() == second.width(),
{
    lemma_rows_have_width(first);
    lemma_rows_have_width(second);
    lemma_bottom_shape(first);
    lemma_bottom_shape(second);
    if first.width() < second.width() {
        lemma_matches_at_index(bottom, column, first.bottom_row(), first.width() - 1);
        lemma_matches_at_index(bottom, column, second.bottom_row(), first.width() - 1);
    } else if second.width() < first.width() {
        lemma_matches_at_index(bottom, column, first.bottom_row(), second.width() - 1);
        lemma_matches_at_index(bottom, column, second.bottom_row(), second.width() - 1);
    }
}

/// At most one mountain stands at a column.
pub proof fn lemma_mountains_exclusive(
    first: Command,
    second: Command,
    column: int,
    top: Seq<u8>,
    middle: Seq<u8>,
    bottom: Seq<u8>,
)
    requires
        stands_at(first, column, top, middle, bottom),
        stands_at(second, column, top, middle, bottom),
    ensures
        first == second,
{
    lemma_mountains_at_one_column_have_one_width(first, second, column, top, middle, bottom);
    lemma_rows_have_width(first);
    lemma_rows_have_width(second);
    if first.width() >= 6 {
        lemma_matches_at_index(top, column, first.top_row(), 2);
        lemma_matches_at_index(top, column, second.top_row(), 2);
        lemma_matches_at_index(top, column, first.top_row(), 4);
        lemma_matches_at_index(top, column, second.top_row(), 4);
    }
}

/// The mountain that stands at a column is the one that is found there.
pub proof fn lemma_mountain_found(
    command: Command,
    column: int,
    top: Seq<u8>,
    middle: Seq<u8>,
    bottom: Seq<u8>,
)
    requires
        stands_at(command, column, top, middle, bottom),
    ensures
        mountain_at(column, top, middle, bottom) == Some((command, column + command.width())),
{
    match mountain_at(column, top, middle, bottom) {
        Some((found, _)) => {
            assert(stands_at(found, column, top, middle, bottom));
            lemma_mountains_exclusive(command, found, column, top, middle, bottom);
        },
        None => {
            assert(false);
        },
    }
}

/// Where a mountain stands, the commands read from its column on are its
/// command and then those read from the column just past it.
proof fn lemma_range_starts_with_mountain(
    command: Command,
    column: int,
    top: Seq<u8>,
    middle: Seq<u8>,
    bottom: Seq<u8>,
)
    requires
        stands_at(command, column, top, middle, bottom),
    ensures
        range_from(top, middle, bottom, column) == match range_from(
            top,
            middle,
            bottom,
            column + command.width(),
        ) {
            Ok(rest) => Ok::<Seq<Command>, ParseError>(seq![command] + rest),
            Err(error) => Err(error),
        },
{
    reveal(range_from);
    lemma_mountain_found(command, column, top, middle, bottom);
    lemma_rows_have_width(command);
}

/// From the end of the top row on, nothing is left to read.
proof fn lemma_range_ends(top: Seq<u8>, middle: Seq<u8>, bottom: Seq<u8>, column: int)
    requires
        top.len() <= column,
    ensures
        range_from(top, middle, bottom, column) == Ok::<Seq<Command>, ParseError>(Seq::empty()),
{
    reveal(range_from);
}

/// Every row of a mountain range is as long as the range is wide.
pub proof fn lemma_drawn_len(program: Seq<Command>, row: Row)
    ensures
        drawn(program, row).len() == width_of(program),
    decreases program.len(),
{
    if program.len() > 0 {
        lemma_drawn_len(program.drop_last(), row);
        lemma_rows_have_width(program.last());
    }
}

/// No row of a mountain range holds a newline.
proof fn lemma_drawn_holds_no_newline(program: Seq<Command>, row: Row)
    ensures
        forall|i: int| 0 <= i < drawn(program, row).len() ==> drawn(program, row)[i] != NEWLINE,
    decreases program.len(),
{
    if program.len() > 0 {
        let before = drawn(program.drop_last(), row);
        let last = slice_of(program.last(), row);
        lemma_drawn_holds_no_newline(program.drop_last(), row);
        lemma_slice_holds_no_newline(program.last(), row);
        assert forall|i: int| 0 <= i < drawn(program, row).len() implies drawn(program, row)[i]
            != NEWLINE by {
            if i < before.len() {
                assert(drawn(program, row)[i] == before[i]);
            } else {
                assert(drawn(program, row)[i] == last[i - before.len()]);
            }
        }
    }
}

/// The mountain of the command at index `k` stands, on every row, where the
/// mountains of the commands before it end.
proof fn lemma_drawn_holds_slice(program: Seq<Command>, row: Row, k: int)
    requires
        0 <= k < program.len(),
    ensures
        matches_at(
            drawn(program, row),
            width_of(program.take(k)) as int,
            slice_of(program[k], row),
        ),
        width_of(program.take(k + 1)) == width_of(program.take(k)) + program[k].width(),
    decreases program.len(),
{
    let before = program.drop_last();
    lemma_drawn_len(before, row);
    lemma_rows_have_width(program[k]);
    assert(program.take(k + 1).drop_last() =~= program.take(k));
    if k == program.len() - 1 {
        assert(program.take(k) =~= before);
        assert(drawn(program, row).subrange(
            width_of(before) as int,
            width_of(before) + slice_of(program[k], row).len() as int,
        ) =~= slice_of(program[k], row));
    } else {
        lemma_drawn_holds_slice(before, row, k);
        assert(before.take(k) =~= program.take(k));
        let start = width_of(program.take(k)) as int;
        let end = start + slice_of(program[k], row).len() as int;
        assert(drawn(program, row).subrange(start, end) =~= drawn(before, row).subrange(
            start,
            end,
        ));
    }
}

/// The mountain of the command at index `k` stands where the mountains of
/// the commands before it end, and the next one starts where it ends.
proof fn lemma_drawn_mountain_stands(program: Seq<Command>, k: int)
    requires
        0 <= k < program.len(),
    ensures
        stands_at(
            program[k],
            width_of(program.take(k)) as int,
            drawn(program, Row::Top),
            drawn(program, Row::Middle),
            drawn(program, Row::Bottom),
        ),
        width_of(program.take(k + 1)) == width_of(program.take(k)) + program[k].width(),
{
    lemma_drawn_holds_slice(program, Row::Top, k);
    lemma_drawn_holds_slice(program, Row::Middle, k);
    lemma_drawn_holds_slice(program, Row::Bottom, k);
}

/// Read from the column at which the mountain of the command at index `k`
/// starts, a mountain range gives that command and then what it gives from
/// the column at which the next mountain starts.
proof fn lemma_range_of_drawn_starts(program: Seq<Command>, k: int)
    requires
        0 <= k < program.len(),
    ensures
        range_from(
            drawn(program, Row::Top),
            drawn(program, Row::Middle),
            drawn(program, Row::Bottom),
            width_of(program.take(k)) as int,
        ) == match range_from(
            drawn(program, Row::Top),
            drawn(program, Row::Middle),
            drawn(program, Row::Bottom),
            width_of(program.take(k + 1)) as int,
        ) {
            Ok(rest) => Ok::<Seq<Command>, ParseError>(seq![program[k]] + rest),
            Err(error) => Err(error),
        },
{
    lemma_drawn_mountain_stands(program, k);
    lemma_range_starts_with_mountain(
        program[k],
        width_of(program.take(k)) as int,
        drawn(program, Row::Top),
        drawn(program, Row::Middle),
        drawn(program, Row::Bottom),
    );
}

/// Read from the column at which the mountain of the command at index `k`
/// starts, a mountain range gives the commands from that index on.
proof fn lemma_range_of_drawn(program: Seq<Command>, k: int)
    requires
        0 <= k <= program.len(),
    ensures
        range_from(
            drawn(program, Row::Top),
            drawn(program, Row::Middle),
            drawn(program, Row::Bottom),
            width_of(program.take(k)) as int,
        ) == Ok::<Seq<Command>, ParseError>(program.skip(k)),
    decreases program.len() - k,
{
    let top = drawn(program, Row::Top);
    let middle = drawn(program, Row::Middle);
    let bottom = drawn(program, Row::Bottom);
    let column = width_of(program.take(k)) as int;
    lemma_drawn_len(program, Row::Top);
    if k == program.len() {
        assert(program.take(k) =~= program);
        assert(program.skip(k) =~= Seq::<Command>::empty());
        lemma_range_ends(top, middle, bottom, column);
    } else {
        lemma_range_of_drawn_starts(program, k);
        lemma_range_of_drawn(program, k + 1);
        assert(seq![program[k]] + program.skip(k + 1) =~= program.skip(k));
    }
}

/// A line ends at the first newline after its start.
proof fn lemma_line_end_found(source: Seq<u8>, start: int, end: int)
    requires
        0 <= start <= end <= source.len(),
        forall|i: int| start <= i < end ==> source[i] != NEWLINE,
        end == source.len() || source[end] == NEWLINE,
    ensures
        line_end(source, start) == end,
    decreases end - start,
{
    if start < end {
        lemma_line_end_found(source, start + 1, end);
    }
}

/// A line ends at the first newline at or after its start, or with the
/// source.
pub proof fn lemma_line_end_is_first_newline(source: Seq<u8>, start: int)
    requires
        0 <= start <= source.len(),
    ensures
        start <= line_end(source, start) <= source.len(),
        forall|i: int| start <= i < line_end(source, start) ==> source[i] != NEWLINE,
        line_end(source, start) < source.len() ==> source[line_end(source, start)] == NEWLINE,
    decreases source.len() - start,
{
    if start < source.len() && source[start] != NEWLINE {
        lemma_line_end_is_first_newline(source, start + 1);
    }
}

/// Whether `line` holds no newline.
pub open spec fn is_line(line: Seq<u8>) -> bool {
    forall|i: int| 0 <= i < line.len() ==> line[i] != NEWLINE
}

/// Three lines, each ended by a newline, are the rows of the source that
/// they start, whatever follows them.
pub proof fn lemma_rows_of_lines(top: Seq<u8>, middle: Seq<u8>, bottom: Seq<u8>, rest: Seq<u8>)
    requires
        is_line(top),
        is_line(middle),
        is_line(bottom),
    ensures
        rows_of(top.push(NEWLINE) + middle.push(NEWLINE) + bottom.push(NEWLINE) + rest) == Some(
            (top, middle, bottom),
        ),
{
    let source = top.push(NEWLINE) + middle.push(NEWLINE) + bottom.push(NEWLINE) + rest;
    let first = top.len() as int;
    let second = first + 1 + middle.len() as int;
    let third = second + 1 + bottom.len() as int;
    assert(source.len() == third + 1 + rest.len());
    assert forall|i: int| 0 <= i < first implies source[i] != NEWLINE by {
        assert(source[i] == top[i]);
    }
    assert forall|i: int| first + 1 <= i < second implies source[i] != NEWLINE by {
        assert(source[i] == middle[i - first - 1]);
    }
    assert forall|i: int| second + 1 <= i < third implies source[i] != NEWLINE by {
        assert(source[i] == bottom[i - second - 1]);
    }
    assert(source[first] == NEWLINE);
    assert(source[second] == NEWLINE);
    assert(source[third] == NEWLINE);
    lemma_line_end_found(source, 0, first);
    lemma_line_end_found(source, first + 1, second);
    lemma_line_end_found(source, second + 1, third);
    assert(source.subrange(0, first) =~= top);
    assert(source.subrange(first + 1, second) =~= middle);
    assert(source.subrange(second + 1, third) =~= bottom);
}

/// The rows of a source are three lines that, each ended by a newline,
/// start the source.
pub proof fn lemma_rows_are_lines(source: Seq<u8>)
    ensures
        rows_of(source) matches Some((top, middle, bottom)) ==> {
            &&& is_line(top)
            &&& is_line(middle)
            &&& is_line(bottom)
            &&& source == top.push(NEWLINE) + middle.push(NEWLINE) + bottom.push(NEWLINE)
                + source.skip((top.len() + middle.len() + bottom.len() + 3) as int)
        },
{
    let first = line_end(source, 0);
    lemma_line_end_is_first_newline(source, 0);
    if first < source.len() {
        let second = line_end(source, first + 1);
        lemma_line_end_is_first_newline(source, first + 1);
        if second < source.len() {
            let third = line_end(source, second + 1);
            lemma_line_end_is_first_newline(source, second + 1);
            if third < source.len() {
                let top = source.subrange(0, first);
                let middle = source.subrange(first + 1, second);
                let bottom = source.subrange(second + 1, third);
                assert(source =~= top.push(NEWLINE) + middle.push(NEWLINE) + bottom.push(NEWLINE)
                    + source.skip((top.len() + middle.len() + bottom.len() + 3) as int));
            }
        }
    }
}

/// The rows of a drawn program are its three drawn rows.
proof fn lemma_rows_of_mountains(program: Seq<Command>)
    ensures
        rows_of(mountains_of(program)) == Some(
            (drawn(program, Row::Top), drawn(program, Row::Middle), drawn(program, Row::Bottom)),
        ),
{
    let top = drawn(program, Row::Top);
    let middle = drawn(program, Row::Middle);
    let bottom = drawn(program, Row::Bottom);
    lemma_drawn_holds_no_newline(program, Row::Top);
    lemma_drawn_holds_no_newline(program, Row::Middle);
    lemma_drawn_holds_no_newline(program, Row::Bottom);
    lemma_rows_of_lines(top, middle, bottom, Seq::empty());
    assert(mountains_of(program) =~= top.push(NEWLINE) + middle.push(NEWLINE) + bottom.push(
        NEWLINE,
    ) + Seq::<u8>::empty());
}

/// Reading the mountain range of a program gives that program back.
pub proof fn lemma_pictorial_round_trip(program: Seq<Command>)
    ensures
        reading_of(mountains_of(program)) == Ok::<Seq<Command>, ParseError>(program),
{
    lemma_rows_of_mountains(program);
    lemma_drawn_len(program, Row::Top);
    lemma_drawn_len(program, Row::Middle);
    lemma_drawn_len(program, Row::Bottom);
    lemma_range_of_drawn(program, 0);
    assert(program.take(0) =~= Seq::<Command>::empty());
    assert(program.skip(0) =~= program);
}

} // verus!
