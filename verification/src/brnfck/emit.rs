//! Writers that render a program in each of the two surface syntaxes, and the
//! laws that tie the symbolic writer to the symbolic reader.

use vstd::prelude::*;
use super::command::Command;
use super::parser::{commands_of, is_blank, is_known};

verus! {

/// The byte that ends each row of a mountain range.
pub const NEWLINE: u8 = 10;

/// One of the three rows that a mountain range is drawn on.
#[derive(Clone, Copy, Debug, PartialEq, Eq, Structural)]
pub enum Row {
    /// The row of the highest peaks.
    Top,
    /// The row between the peaks and the ground.
    Middle,
    /// The row on which every mountain stands.
    Bottom,
}

/// The part of `command`'s mountain that lies on `row`.
pub open spec fn slice_of(command: Command, row: Row) -> Seq<u8> {
    match row {
        Row::Top => command.top_row(),
        Row::Middle => command.middle_row(),
        Row::Bottom => command.bottom_row(),
    }
}

/// The symbols of `program`, one per command, with nothing between them.
pub open spec fn symbols_of(program: Seq<Command>) -> Seq<u8> {
    Seq::new(program.len(), |i: int| program[i].symbol())
}

/// One row of the mountain range of `program`: the slices of its mountains
/// on that row, side by side.
pub open spec fn drawn(program: Seq<Command>, row: Row) -> Seq<u8>
    decreases program.len(),
{
    if program.len() == 0 {
        Seq::empty()
    } else {
        drawn(program.drop_last(), row) + slice_of(program.last(), row)
    }
}

/// The mountain range of `program`: its top, middle and bottom row, each
/// ended by a newline.
pub open spec fn mountains_of(program: Seq<Command>) -> Seq<u8> {
    drawn(program, Row::Top).push(NEWLINE) + drawn(program, Row::Middle).push(NEWLINE) + drawn(
        program,
        Row::Bottom,
    ).push(NEWLINE)
}

/// Appends `bytes` to `row`.
fn append(row: &mut Vec<u8>, bytes: &[u8])
    ensures
        final(row)@ == old(row)@ + bytes@,
{
    let mut index: usize = 0;
    while index < bytes.len()
        invariant
            index <= bytes@.len(),
            row@ == old(row)@ + bytes@.take(index as int),
        decreases bytes@.len() - index,
    {
        row.push(bytes[index]);
        proof {
            assert(bytes@.take(index + 1) =~= bytes@.take(index as int).push(bytes@[index as int]));
        }
        index += 1;
    }
    proof {
        assert(bytes@.take(index as int) =~= bytes@);
    }
}

/// Renders `instructions` as symbolic source.
pub fn to_brnfck(instructions: &[Command]) -> (source: Vec<u8>)
    ensures
        source@ == symbols_of(instructions@),
{
    let mut source: Vec<u8> = Vec::new();
    let mut index: usize = 0;
    while index < instructions.len()
        invariant
            index <= instructions@.len(),
            source@ == symbols_of(instructions@.take(index as int)),
        decreases instructions@.len() - index,
    {
        source.push(instructions[index].to_brnfck());
        index += 1;
        proof {
            assert(source@ =~= symbols_of(instructions@.take(index as int)));
        }
    }
    proof {
        assert(instructions@.take(index as int) =~= instructions@);
    }
    source
}

/// Renders `instructions` as a mountain range.
pub fn to_bergen(instructions: &[Command]) -> (source: Vec<u8>)
    ensures
        source@ == mountains_of(instructions@),
{
    let mut top: Vec<u8> = Vec::new();
    let mut middle: Vec<u8> = Vec::new();
    let mut bottom: Vec<u8> = Vec::new();
    let mut index: usize = 0;
    while index < instructions.len()
        invariant
            index <= instructions@.len(),
            top@ == drawn(instructions@.take(index as int), Row::Top),
            middle@ == drawn(instructions@.take(index as int), Row::Middle),
            bottom@ == drawn(instructions@.take(index as int), Row::Bottom),
        decreases instructions@.len() - index,
    {
        let instruction = instructions[index];
        append(&mut top, instruction.top());
        append(&mut middle, instruction.middle());
        append(&mut bottom, instruction.bottom());
        proof {
            assert(instructions@.take(index + 1).drop_last() =~= instructions@.take(index as int));
        }
        index += 1;
    }
    proof {
        assert(instructions@.take(index as int) =~= instructions@);
    }
    let mut source: Vec<u8> = top;
    source.push(NEWLINE);
    append(&mut source, middle.as_slice());
    source.push(NEWLINE);
    append(&mut source, bottom.as_slice());
    source.push(NEWLINE);
    proof {
        assert(source@ =~= mountains_of(instructions@));
    }
    source
}

/// Reading what was written gives the program back: the symbols of a program
/// are all known, and they stand for that program.
pub proof fn lemma_reading_symbols_gives_program(program: Seq<Command>)
    ensures
        forall|i: int|
            0 <= i < symbols_of(program).len() ==> is_known(#[trigger] symbols_of(program)[i]),
        commands_of(symbols_of(program)) == program,
    decreases program.len(),
{
    if program.len() > 0 {
        lemma_reading_symbols_gives_program(program.drop_last());
        assert(symbols_of(program).drop_last() =~= symbols_of(program.drop_last()));
        assert(commands_of(symbols_of(program)) =~= program);
    } else {
        assert(commands_of(symbols_of(program)) =~= program);
    }
}

/// Writing what was read gives the source back, but for its blanks: the
/// symbols of the commands of a source of known bytes are the bytes of that
/// source that are not blank, in their order.
pub proof fn lemma_writing_commands_gives_source(source: Seq<u8>)
    requires
        forall|i: int| 0 <= i < source.len() ==> is_known(#[trigger] source[i]),
    ensures
        symbols_of(commands_of(source)) == source.filter(|byte: u8| !is_blank(byte)),
    decreases source.len(),
{
    reveal(Seq::filter);
    let kept = |byte: u8| !is_blank(byte);
    if source.len() > 0 {
        let rest = source.drop_last();
        assert(is_known(source[source.len() - 1]));
        lemma_writing_commands_gives_source(rest);
        assert(symbols_of(commands_of(source)) =~= source.filter(kept));
    } else {
        assert(symbols_of(commands_of(source)) =~= source.filter(kept));
    }
}

/// Source without blanks survives the round trip unchanged: where every byte
/// stands for a command, the symbols of the commands read are the source.
pub proof fn lemma_symbolic_round_trip(source: Seq<u8>)
    requires
        forall|i: int| 0 <= i < source.len() ==> Command::of_symbol(#[trigger] source[i]) is Some,
    ensures
        symbols_of(commands_of(source)) == source,
    decreases source.len(),
{
    if source.len() > 0 {
        let rest = source.drop_last();
        lemma_symbolic_round_trip(rest);
        assert(Command::of_symbol(source[source.len() - 1]) is Some);
        let command = Command::of_symbol(source.last())->0;
        assert(command.symbol() == source.last());
        assert(symbols_of(commands_of(rest).push(command)) =~= symbols_of(commands_of(rest)).push(
            command.symbol(),
        ));
        assert(rest.push(source.last()) =~= source);
    } else {
        assert(symbols_of(commands_of(source)) =~= source);
    }
}

} // verus!
