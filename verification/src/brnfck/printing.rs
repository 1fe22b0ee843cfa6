//! What a synthesized program does when it runs: it prints the bytes that it
//! was made for, and halts.

use vstd::prelude::*;
use super::command::Command;
use super::machine::{MachineError, SIZE};
use super::state::{lemma_run_one_more, predecessor, scan_behind, successor, State};
use super::runs::{
    lemma_halting_run_explains,
    lemma_run_add,
    lemma_run_keeps_wf,
    lemma_run_stays_halted,
};
use super::synth::{
    adjustment,
    is_prime,
    lemma_prime_factors,
    nested,
    prime_factors,
    product,
    repeated,
    shifted,
    synthesized,
};

verus! {

/// Whether `program` holds the commands of `block` from `offset` on.
pub open spec fn holds(program: Seq<Command>, offset: int, block: Seq<Command>) -> bool {
    &&& 0 <= offset
    &&& offset + block.len() <= program.len()
    &&& program.subrange(offset, offset + block.len()) == block
}

/// Whether `command` is one of the two commands that change a cell.
pub open spec fn changes_cell(command: Command) -> bool {
    command == Command::Increment || command == Command::Decrement
}

/// The value of a cell after `command`, which changes a cell, has been
/// carried out on it `times` times.
pub open spec fn moved(value: u8, command: Command, times: int) -> u8 {
    if command == Command::Increment {
        ((value + times) % 256) as u8
    } else {
        ((value - times) % 256) as u8
    }
}

/// Whether `block` holds neither of the two jumps.
pub open spec fn jumps_nowhere(block: Seq<Command>) -> bool {
    forall|i: int|
        0 <= i < block.len() ==> #[trigger] block[i] != Command::JumpAhead && block[i]
            != Command::JumpBack
}

/// A program that holds a block holds each command of the block at its
/// place.
proof fn lemma_holds_index(program: Seq<Command>, offset: int, block: Seq<Command>, i: int)
    requires
        holds(program, offset, block),
        0 <= i < block.len(),
    ensures
        0 <= offset + i < program.len(),
        program[offset + i] == block[i],
{
    assert(program.subrange(offset, offset + block.len())[i] == program[offset + i]);
}

/// A program that holds two blocks one after the other holds each of them.
proof fn lemma_holds_both(
    program: Seq<Command>,
    offset: int,
    first: Seq<Command>,
    second: Seq<Command>,
)
    requires
        holds(program, offset, first + second),
    ensures
        holds(program, offset, first),
        holds(program, offset + first.len(), second),
{
    let whole = first + second;
    let held = program.subrange(offset, offset + whole.len());
    assert(program.subrange(offset, offset + first.len()) =~= held.subrange(
        0,
        first.len() as int,
    ));
    assert(whole.subrange(0, first.len() as int) =~= first);
    assert(program.subrange(offset + first.len(), offset + first.len() + second.len())
        =~= held.subrange(first.len() as int, whole.len() as int));
    assert(whole.subrange(first.len() as int, whole.len() as int) =~= second);
}

/// Carrying a command out once and then `times` times more is carrying it
/// out `times + 1` times.
proof fn lemma_moved_once_more(value: u8, command: Command, times: int)
    requires
        changes_cell(command),
    ensures
        moved(value, command, 0) == value,
        command == Command::Increment ==> successor(value) == moved(value, command, 1),
        command == Command::Decrement ==> predecessor(value) == moved(value, command, 1),
        forall|more: int| #[trigger]
            moved(moved(value, command, times), command, more) == moved(
                value,
                command,
                times + more,
            ),
{
    assert forall|more: int| #[trigger]
        moved(moved(value, command, times), command, more) == moved(
            value,
            command,
            times + more,
        ) by {
        if command == Command::Increment {
            assert(((value + times) % 256 + more) % 256 == (value + times + more) % 256);
        } else {
            assert(((value - times) % 256 - more) % 256 == (value - times - more) % 256);
        }
    }
}

/// A backward scan passes over a stretch without jumps as if it were not
/// there.
proof fn lemma_scan_behind_passes(
    program: Seq<Command>,
    offset: int,
    block: Seq<Command>,
    depth: int,
)
    requires
        holds(program, offset, block),
        jumps_nowhere(block),
    ensures
        scan_behind(program, offset + block.len() - 1, depth) == scan_behind(
            program,
            offset - 1,
            depth,
        ),
    decreases block.len(),
{
    if block.len() > 0 {
        let shorter = block.drop_last();
        assert(block =~= shorter + seq![block.last()]);
        lemma_holds_both(program, offset, shorter, seq![block.last()]);
        lemma_holds_index(program, offset, block, block.len() - 1);
        assert(block[block.len() - 1] != Command::JumpAhead);
        assert forall|i: int| 0 <= i < shorter.len() implies #[trigger] shorter[i]
            != Command::JumpAhead && shorter[i] != Command::JumpBack by {
            assert(shorter[i] == block[i]);
        }
        lemma_scan_behind_passes(program, offset, shorter, depth);
    }
}

/// A run of `count` increments adds `count` to the current cell, when the
/// cell has room for them.
proof fn lemma_increments_run(state: State, offset: int, total: int, count: int)
    requires
        state.wf(),
        holds(state.program, offset, repeated(Command::Increment, total)),
        state.instruction_pointer == offset,
        0 <= count <= total,
        state.cell() + count <= 255,
    ensures
        state.run(count as nat) == Ok::<State, MachineError>(
            state.with_cell((state.cell() + count) as u8).at(offset + count),
        ),
    decreases count,
{
    if count == 0 {
        assert(state.with_cell(state.cell()).at(offset) =~= state);
    } else {
        lemma_increments_run(state, offset, total, count - 1);
        let here = state.with_cell((state.cell() + count - 1) as u8).at(offset + count - 1);
        lemma_holds_index(state.program, offset, repeated(Command::Increment, total), count - 1);
        lemma_run_one_more(state, (count - 1) as nat, here);
        assert(here.step() == Ok::<State, MachineError>(
            here.with_cell(successor(here.cell())).at(offset + count),
        ));
        assert(here.with_cell(successor(here.cell())).at(offset + count) =~= state.with_cell(
            (state.cell() + count) as u8,
        ).at(offset + count));
    }
}

/// This state with `value` in the cell at `index`.
pub open spec fn with_cell_at(state: State, index: int, value: u8) -> State {
    State { cells: state.cells.update(index, value), ..state }
}

/// A command carried out `n` cells to the left changes that cell by one and
/// leaves everything else as it was.
pub proof fn lemma_shifted_runs(state: State, offset: int, n: nat, command: Command) -> (steps: nat)
    requires
        state.wf(),
        holds(state.program, offset, shifted(n, command)),
        state.instruction_pointer == offset,
        changes_cell(command),
        n <= state.cell_pointer,
    ensures
        shifted(n, command).len() == 2 * n + 1,
        steps == 2 * n + 1,
        state.run(steps) == Ok::<State, MachineError>(
            with_cell_at(
                state,
                state.cell_pointer - n,
                moved(state.cells[state.cell_pointer - n], command, 1),
            ).at(offset + 2 * n + 1),
        ),
    decreases n,
{
    lemma_moved_once_more(state.cell(), command, 0);
    if n == 0 {
        lemma_holds_index(state.program, offset, shifted(n, command), 0);
        lemma_run_one_more(state, 0, state);
        let after = with_cell_at(
            state,
            state.cell_pointer,
            moved(state.cells[state.cell_pointer], command, 1),
        ).at(offset + 1);
        assert(state.step() == Ok::<State, MachineError>(after)) by {
            match state.step() {
                Ok(next) => {
                    assert(next =~= after);
                },
                Err(_) => {},
            }
        }
        1
    } else {
        let inner = shifted((n - 1) as nat, command);
        let left = seq![Command::DecrementPointer];
        let right = seq![Command::IncrementPointer];
        assert(shifted(n, command) == left + inner + right);
        lemma_holds_both(state.program, offset, left + inner, right);
        lemma_holds_both(state.program, offset, left, inner);
        lemma_holds_index(state.program, offset, left, 0);
        // The move to the left.
        let first = State { cell_pointer: state.cell_pointer - 1, ..state.at(offset + 1) };
        lemma_run_one_more(state, 0, state);
        assert(state.run(1) == Ok::<State, MachineError>(first));
        // The command, further to the left.
        let inner_steps = lemma_shifted_runs(first, offset + 1, (n - 1) as nat, command);
        let target = state.cell_pointer - n;
        let second = with_cell_at(first, target, moved(state.cells[target], command, 1)).at(
            offset + 2 * n,
        );
        assert(first.run(inner_steps) == Ok::<State, MachineError>(second));
        lemma_run_add(state, 1, first, inner_steps);
        // The move back.
        lemma_holds_index(state.program, offset + left.len() + inner.len(), right, 0);
        let third = with_cell_at(state, target, moved(state.cells[target], command, 1)).at(
            offset + 2 * n + 1,
        );
        assert(second.step() == Ok::<State, MachineError>(third)) by {
            match second.step() {
                Ok(next) => {
                    assert(next =~= third);
                },
                Err(_) => {},
            }
        }
        lemma_run_one_more(state, 1 + inner_steps, second);
        inner_steps + 2
    }
}

/// Whether every number of `factors` is a count that one cell can hold and
/// that is worth a loop: from two up to 255.
pub open spec fn countable(factors: Seq<int>) -> bool {
    forall|i: int| 0 <= i < factors.len() ==> 2 <= #[trigger] factors[i] <= 255
}

/// What was carried out is no jump: the innermost block of the nested loops
/// holds none.
proof fn lemma_shifted_jumps_nowhere(n: nat, command: Command)
    requires
        changes_cell(command),
    ensures
        jumps_nowhere(shifted(n, command)),
    decreases n,
{
    if n > 0 {
        lemma_shifted_jumps_nowhere((n - 1) as nat, command);
        let inner = shifted((n - 1) as nat, command);
        assert forall|i: int| 0 <= i < shifted(n, command).len() implies #[trigger] shifted(
            n,
            command,
        )[i] != Command::JumpAhead && shifted(n, command)[i] != Command::JumpBack by {
            if 1 <= i <= inner.len() {
                assert(shifted(n, command)[i] == inner[i - 1]);
            }
        }
    }
}

/// Where the parts of a loop over the first of some factors stand in a
/// program that holds the nested loops from `offset` on.
proof fn lemma_nested_parts(
    program: Seq<Command>,
    offset: int,
    n: nat,
    factors: Seq<int>,
    command: Command,
)
    requires
        holds(program, offset, nested(n, factors, command)),
        factors.len() > 0,
        factors[0] >= 0,
    ensures
        ({
            let count = factors[0];
            let body = nested(n, factors.skip(1), command);
            &&& nested(n, factors, command).len() == count + body.len() + 5
            &&& program[offset] == Command::IncrementPointer
            &&& holds(program, offset + 1, repeated(Command::Increment, count))
            &&& program[offset + 1 + count] == Command::JumpAhead
            &&& holds(program, offset + 2 + count, body)
            &&& program[offset + 2 + count + body.len()] == Command::Decrement
            &&& program[offset + 3 + count + body.len()] == Command::JumpBack
            &&& program[offset + 4 + count + body.len()] == Command::DecrementPointer
        }),
{
    let count = factors[0];
    let body = nested(n, factors.skip(1), command);
    let enter = seq![Command::IncrementPointer];
    let counted = repeated(Command::Increment, count);
    let open = seq![Command::JumpAhead];
    let close = seq![Command::Decrement, Command::JumpBack, Command::DecrementPointer];
    let whole = nested(n, factors, command);
    assert(whole == enter + counted + open + body + close);
    lemma_holds_both(program, offset, enter + counted + open + body, close);
    lemma_holds_both(program, offset, enter + counted + open, body);
    lemma_holds_both(program, offset, enter + counted, open);
    lemma_holds_both(program, offset, enter, counted);
    lemma_holds_index(program, offset, enter, 0);
    lemma_holds_index(program, offset + 1 + count, open, 0);
    lemma_holds_index(program, offset + 2 + count + body.len(), close, 0);
    lemma_holds_index(program, offset + 2 + count + body.len(), close, 1);
    lemma_holds_index(program, offset + 2 + count + body.len(), close, 2);
}

/// A backward scan passes over nested loops as if they were not there: each
/// `JumpBack` in them is matched by a `JumpAhead` in them.
proof fn lemma_scan_behind_passes_nested(
    program: Seq<Command>,
    offset: int,
    n: nat,
    factors: Seq<int>,
    command: Command,
    depth: int,
)
    requires
        holds(program, offset, nested(n, factors, command)),
        changes_cell(command),
        countable(factors),
        1 <= depth,
    ensures
        scan_behind(program, offset + nested(n, factors, command).len() - 1, depth)
            == scan_behind(program, offset - 1, depth),
    decreases factors.len(),
{
    if factors.len() == 0 {
        lemma_shifted_jumps_nowhere(n, command);
        lemma_scan_behind_passes(program, offset, shifted(n, command), depth);
    } else {
        let count = factors[0];
        let rest = factors.skip(1);
        let body = nested(n, rest, command);
        let start = offset + 2 + count;
        lemma_nested_parts(program, offset, n, factors, command);
        assert(countable(rest)) by {
            assert forall|i: int| 0 <= i < rest.len() implies 2 <= #[trigger] rest[i] <= 255 by {
                assert(rest[i] == factors[i + 1]);
            }
        }
        // From the end: the move back, the closing jump, the decrement.
        assert(scan_behind(program, start + body.len() + 2, depth) == scan_behind(
            program,
            start + body.len() + 1,
            depth,
        ));
        assert(scan_behind(program, start + body.len() + 1, depth) == scan_behind(
            program,
            start + body.len(),
            depth + 1,
        ));
        assert(scan_behind(program, start + body.len(), depth + 1) == scan_behind(
            program,
            start + body.len() - 1,
            depth + 1,
        ));
        // The loops of the factors that follow.
        lemma_scan_behind_passes_nested(program, start, n, rest, command, depth + 1);
        // The opening jump, the increments, the move to the counter.
        assert(scan_behind(program, start - 1, depth + 1) == scan_behind(
            program,
            start - 2,
            depth,
        ));
        lemma_scan_behind_passes(
            program,
            offset + 1,
            repeated(Command::Increment, count),
            depth,
        );
        assert(scan_behind(program, offset, depth) == scan_behind(program, offset - 1, depth));
    }
}

/// A number of steps that nested loops take at most, when they carry their
/// command out `n` cells to the left and `times` times in all.
pub open spec fn steps_of_nested(n: nat, times: int) -> int {
    (2 * n + 10) * times - 9
}

/// Whether the `count` cells to the right of the current one are on the
/// tape and hold zero.
pub open spec fn has_room(state: State, count: nat) -> bool {
    &&& state.cell_pointer + count < SIZE
    &&& forall|j: int|
        state.cell_pointer < j <= state.cell_pointer + count ==> #[trigger] state.cells[j] == 0
}

/// The factors after the first are countable where all of them are.
proof fn lemma_rest_countable(factors: Seq<int>)
    requires
        countable(factors),
        factors.len() > 0,
    ensures
        countable(factors.skip(1)),
        2 <= factors[0] <= 255,
{
    let rest = factors.skip(1);
    assert forall|i: int| 0 <= i < rest.len() implies 2 <= #[trigger] rest[i] <= 255 by {
        assert(rest[i] == factors[i + 1]);
    }
}

/// Nested loops carry their command out as often as the product of their
/// factors says, on the cell that lies as far to the left as there are loops
/// around them, and leave everything else as it was.
pub proof fn lemma_nested_runs(
    state: State,
    offset: int,
    n: nat,
    factors: Seq<int>,
    command: Command,
) -> (steps: nat)
    requires
        state.wf(),
        holds(state.program, offset, nested(n, factors, command)),
        state.instruction_pointer == offset,
        changes_cell(command),
        countable(factors),
        factors.len() <= n,
        n - factors.len() <= state.cell_pointer,
        has_room(state, factors.len()),
    ensures
        ({
            let target = state.cell_pointer - (n - factors.len());
            state.run(steps) == Ok::<State, MachineError>(
                with_cell_at(
                    state,
                    target,
                    moved(state.cells[target], command, product(factors)),
                ).at(offset + nested(n, factors, command).len()),
            )
        }),
        steps <= steps_of_nested(n, product(factors)),
    decreases factors.len(), 256int,
{
    let target = state.cell_pointer - (n - factors.len());
    if factors.len() == 0 {
        assert(steps_of_nested(n, product(factors)) == 2 * n + 1) by (nonlinear_arith)
            requires
                product(factors) == 1,
                steps_of_nested(n, product(factors)) == (2 * n + 10) * product(factors) - 9,
        ;
        lemma_shifted_runs(state, offset, n, command)
    } else {
        let once = product(factors.skip(1));
        assert(product(factors) == factors[0] * once);
        let count = factors[0];
        let rest = factors.skip(1);
        let body = nested(n, rest, command);
        let counter = state.cell_pointer + 1;
        lemma_rest_countable(factors);
        lemma_nested_parts(state.program, offset, n, factors, command);
        // The move to the counter.
        let entered = State { cell_pointer: counter, ..state.at(offset + 1) };
        lemma_run_one_more(state, 0, state);
        assert(state.run(1) == Ok::<State, MachineError>(entered));
        // The increments that set the counter.
        assert(entered.cell() == 0);
        lemma_increments_run(entered, offset + 1, count, count);
        let counted = entered.with_cell(count as u8).at(offset + 1 + count);
        lemma_run_add(state, 1, entered, count as nat);
        // The opening jump, which the counter lets pass.
        let opened = counted.at(offset + 2 + count);
        assert(counted.step() == Ok::<State, MachineError>(opened));
        lemma_run_one_more(state, (1 + count) as nat, counted);
        // The loop.
        assert(has_room(opened, rest.len())) by {
            assert forall|j: int|
                opened.cell_pointer < j <= opened.cell_pointer + rest.len() implies
                #[trigger] opened.cells[j] == 0 by {
                assert(state.cells[j] == 0);
            }
        }
        let loop_steps = lemma_loop_runs(opened, offset + 1 + count, n, rest, command, count);
        let closed = with_cell_at(
            with_cell_at(
                opened,
                target,
                moved(opened.cells[target], command, count * product(rest)),
            ),
            counter,
            0,
        ).at(offset + 4 + count + body.len());
        assert(opened.run(loop_steps) == Ok::<State, MachineError>(closed));
        lemma_run_add(state, (2 + count) as nat, opened, loop_steps);
        // The move back.
        let left = with_cell_at(
            state,
            target,
            moved(state.cells[target], command, product(factors)),
        ).at(offset + nested(n, factors, command).len());
        assert(closed.step() == Ok::<State, MachineError>(left)) by {
            match closed.step() {
                Ok(next) => {
                    assert(next.cells =~= left.cells);
                    assert(next =~= left);
                },
                Err(_) => {},
            }
        }
        lemma_run_one_more(state, (2 + count) as nat + loop_steps, closed);
        assert(3 + count + count * (steps_of_nested(n, once) + 2) <= steps_of_nested(
            n,
            count * once,
        )) by (nonlinear_arith)
            requires
                2 <= count,
                steps_of_nested(n, once) == (2 * n + 10) * once - 9,
                steps_of_nested(n, count * once) == (2 * n + 10) * (count * once) - 9,
        ;
        (3 + count) as nat + loop_steps
    }
}

/// A counting loop whose counter holds `count` carries its body out `count`
/// times and leaves the counter at zero.
pub proof fn lemma_loop_runs(
    state: State,
    open: int,
    n: nat,
    rest: Seq<int>,
    command: Command,
    count: int,
) -> (steps: nat)
    requires
        state.wf(),
        0 <= open,
        state.program[open] == Command::JumpAhead,
        holds(state.program, open + 1, nested(n, rest, command)),
        open + 3 + nested(n, rest, command).len() <= state.program.len(),
        state.program[open + 1 + nested(n, rest, command).len()] == Command::Decrement,
        state.program[open + 2 + nested(n, rest, command).len()] == Command::JumpBack,
        state.instruction_pointer == open + 1,
        changes_cell(command),
        countable(rest),
        rest.len() < n,
        n - rest.len() <= state.cell_pointer,
        has_room(state, rest.len()),
        state.cell() == count,
        1 <= count <= 255,
    ensures
        ({
            let target = state.cell_pointer - (n - rest.len());
            state.run(steps) == Ok::<State, MachineError>(
                with_cell_at(
                    with_cell_at(
                        state,
                        target,
                        moved(state.cells[target], command, count * product(rest)),
                    ),
                    state.cell_pointer,
                    0,
                ).at(open + 3 + nested(n, rest, command).len()),
            )
        }),
        steps <= count * (steps_of_nested(n, product(rest)) + 2),
    decreases rest.len() + 1, count,
{
    let program = state.program;
    let body = nested(n, rest, command);
    let target = state.cell_pointer - (n - rest.len());
    let counter = state.cell_pointer;
    let once = product(rest);
    let before = state.cells[target];
    lemma_moved_once_more(before, command, once);
    // The body, once.
    let body_steps = lemma_nested_runs(state, open + 1, n, rest, command);
    let done = with_cell_at(state, target, moved(before, command, once)).at(open + 1 + body.len());
    assert(state.run(body_steps) == Ok::<State, MachineError>(done));
    // The decrement of the counter.
    let counted = done.with_cell((count - 1) as u8).at(open + 2 + body.len());
    assert(done.step() == Ok::<State, MachineError>(counted));
    lemma_run_one_more(state, body_steps, done);
    // The closing jump.
    let end = with_cell_at(
        with_cell_at(state, target, moved(before, command, count * once)),
        counter,
        0,
    ).at(open + 3 + body.len());
    if count == 1 {
        assert(count * once == once) by (nonlinear_arith)
            requires
                count == 1,
        ;
        assert(counted.step() == Ok::<State, MachineError>(end)) by {
            match counted.step() {
                Ok(next) => {
                    assert(next.cells =~= end.cells);
                    assert(next =~= end);
                },
                Err(_) => {},
            }
        }
        lemma_run_one_more(state, body_steps + 1, counted);
        assert(count * (steps_of_nested(n, once) + 2) == steps_of_nested(n, once) + 2)
            by (nonlinear_arith)
            requires
                count == 1,
        ;
        body_steps + 2
    } else {
        // Back to the start of the body.
        assert(scan_behind(program, open + 1 + body.len(), 1) == scan_behind(
            program,
            open + body.len(),
            1,
        ));
        lemma_scan_behind_passes_nested(program, open + 1, n, rest, command, 1);
        assert(scan_behind(program, open, 1) == Some(open));
        let again = counted.at(open + 1);
        assert(counted.step() == Ok::<State, MachineError>(again));
        lemma_run_one_more(state, body_steps + 1, counted);
        assert(has_room(again, rest.len())) by {
            assert forall|j: int|
                again.cell_pointer < j <= again.cell_pointer + rest.len() implies
                #[trigger] again.cells[j] == 0 by {
                assert(state.cells[j] == 0);
            }
        }
        let more_steps = lemma_loop_runs(again, open, n, rest, command, count - 1);
        assert(once + (count - 1) * once == count * once) by (nonlinear_arith);
        let after = with_cell_at(
            with_cell_at(again, target, moved(again.cells[target], command, (count - 1) * once)),
            counter,
            0,
        ).at(open + 3 + body.len());
        assert(again.run(more_steps) == Ok::<State, MachineError>(after));
        assert(after.cells =~= end.cells);
        assert(after =~= end);
        lemma_run_add(state, body_steps + 2, again, more_steps);
        assert((steps_of_nested(n, once) + 2) + (count - 1) * (steps_of_nested(n, once) + 2)
            == count * (steps_of_nested(n, once) + 2)) by (nonlinear_arith);
        body_steps + 2 + more_steps
    }
}

/// A number of steps that a synthesized program takes at most to print
/// `count` characters: 132 600 for each.
pub open spec fn steps_for(count: int) -> int {
    132_600 * count
}

/// Whether the machine is where a synthesized program keeps it between two
/// characters: at the first cell, which holds `value`, with zero in every
/// other cell.
pub open spec fn rests_on(state: State, value: u8) -> bool {
    &&& state.cell_pointer == 0
    &&& state.cells == State::fresh(state.program, None, None).cells.update(0, value)
}

/// An adjustment takes the first cell from the previous character to the
/// next one and leaves everything else as it was.
pub proof fn lemma_adjustment_runs(state: State, offset: int, previous: u8, target: u8) -> (steps:
    nat)
    requires
        state.wf(),
        holds(state.program, offset, adjustment(previous, target)),
        state.instruction_pointer == offset,
        rests_on(state, previous),
    ensures
        state.run(steps) == Ok::<State, MachineError>(
            with_cell_at(state, 0, target).at(offset + adjustment(previous, target).len()),
        ),
        steps < steps_for(1),
{
    let command = if target > previous {
        Command::Increment
    } else {
        Command::Decrement
    };
    let distance: int = if target > previous {
        target - previous
    } else {
        previous - target
    };
    let block = adjustment(previous, target);
    let after = with_cell_at(state, 0, target).at(offset + block.len());
    if distance >= 2 {
        let factors = prime_factors(distance);
        lemma_prime_factors(distance);
        assert(countable(factors)) by {
            assert forall|i: int| 0 <= i < factors.len() implies 2 <= #[trigger] factors[i]
                <= 255 by {
                assert(is_prime(factors[i]));
            }
        }
        assert(has_room(state, factors.len()));
        let steps = lemma_nested_runs(state, offset, factors.len(), factors, command);
        assert(moved(previous, command, distance) == target);
        assert(steps_of_nested(factors.len(), distance) < 132_600) by (nonlinear_arith)
            requires
                factors.len() < distance <= 255,
                steps_of_nested(factors.len(), distance) == (2 * factors.len() + 10) * distance
                    - 9,
        ;
        steps
    } else if distance == 1 {
        lemma_holds_index(state.program, offset, block, 0);
        lemma_run_one_more(state, 0, state);
        assert(state.step() == Ok::<State, MachineError>(after)) by {
            match state.step() {
                Ok(next) => {
                    assert(next =~= after);
                },
                Err(_) => {},
            }
        }
        1
    } else {
        assert(after =~= state);
        0
    }
}

/// The character that a synthesized program has printed last, once it has
/// printed `characters`: zero when it has printed none.
pub open spec fn last_printed(characters: Seq<u8>) -> u8 {
    if characters.len() == 0 {
        0
    } else {
        characters.last()
    }
}

/// The state of the program synthesized for `characters` once it has printed
/// the first `count` of them, on a machine that had `input` pending and
/// `written` taken when it started.
pub open spec fn printed(
    characters: Seq<u8>,
    count: int,
    input: Option<Seq<u8>>,
    written: Seq<u8>,
) -> State {
    let program = synthesized(characters);
    State {
        program,
        instruction_pointer: synthesized(characters.take(count)).len() as int,
        cell_pointer: 0,
        cells: State::fresh(program, None, None).cells.update(
            0,
            last_printed(characters.take(count)),
        ),
        input,
        output: Some(written + characters.take(count)),
    }
}

/// The program for some characters starts with the program for the first
/// `count` of them, and goes on with the adjustment to the next character
/// and its write.
proof fn lemma_synthesized_grows(characters: Seq<u8>, count: int)
    requires
        0 <= count <= characters.len(),
    ensures
        holds(synthesized(characters), 0, synthesized(characters.take(count))),
        count < characters.len() ==> holds(
            synthesized(characters),
            synthesized(characters.take(count)).len() as int,
            adjustment(last_printed(characters.take(count)), characters[count])
                + seq![Command::Write],
        ),
    decreases characters.len() - count,
{
    let program = synthesized(characters);
    if count == characters.len() {
        assert(characters.take(count) =~= characters);
        assert(program.subrange(0, program.len() as int) =~= program);
    } else {
        let longer = characters.take(count + 1);
        let shorter = characters.take(count);
        lemma_synthesized_grows(characters, count + 1);
        assert(longer.drop_last() =~= shorter);
        assert(longer.last() == characters[count]);
        let step = adjustment(last_printed(shorter), characters[count]) + seq![Command::Write];
        assert(synthesized(longer) =~= synthesized(shorter) + step);
        lemma_holds_both(program, 0, synthesized(shorter), step);
    }
}

/// A synthesized program gets as far as having printed any number of its
/// characters.
proof fn lemma_prints_first(
    characters: Seq<u8>,
    count: int,
    input: Option<Seq<u8>>,
    written: Seq<u8>,
) -> (steps: nat)
    requires
        0 <= count <= characters.len(),
    ensures
        State::fresh(synthesized(characters), input, Some(written)).run(steps) == Ok::<
            State,
            MachineError,
        >(printed(characters, count, input, written)),
        steps <= steps_for(count),
    decreases count,
{
    let program = synthesized(characters);
    let start = State::fresh(program, input, Some(written));
    if count == 0 {
        assert(characters.take(0) =~= Seq::<u8>::empty());
        assert(written + characters.take(0) =~= written);
        assert(printed(characters, 0, input, written).cells =~= start.cells);
        assert(printed(characters, 0, input, written) =~= start);
        0
    } else {
        let before = count - 1;
        let shorter = characters.take(before);
        let longer = characters.take(count);
        let previous = last_printed(shorter);
        let target = characters[before];
        let change = adjustment(previous, target);
        let write = seq![Command::Write];
        let steps_before = lemma_prints_first(characters, before, input, written);
        let rested = printed(characters, before, input, written);
        lemma_synthesized_grows(characters, before);
        lemma_synthesized_grows(characters, count);
        lemma_holds_both(program, rested.instruction_pointer, change, write);
        assert(longer.drop_last() =~= shorter);
        assert(longer.last() == target);
        assert(synthesized(longer) =~= synthesized(shorter) + change + write);
        // The adjustment.
        let change_steps = lemma_adjustment_runs(
            rested,
            rested.instruction_pointer,
            previous,
            target,
        );
        let changed = with_cell_at(rested, 0, target).at(
            rested.instruction_pointer + change.len(),
        );
        lemma_run_add(start, steps_before, rested, change_steps);
        // The write.
        lemma_holds_index(program, rested.instruction_pointer + change.len(), write, 0);
        let after = printed(characters, count, input, written);
        assert(changed.step() == Ok::<State, MachineError>(after)) by {
            match changed.step() {
                Ok(next) => {
                    assert(next.cells =~= after.cells);
                    assert(next.output->0 =~= after.output->0);
                    assert(next =~= after);
                },
                Err(_) => {},
            }
        }
        lemma_run_one_more(start, steps_before + change_steps, changed);
        steps_before + change_steps + 1
    }
}

/// The synthesized program prints its characters and halts.
///
/// Run on a fresh machine with an output bound, for as many steps as
/// `steps_for` allows its characters or more, the program synthesized for
/// `characters` halts; by then the output has taken `characters` after what
/// it had taken before, and the input, if one is bound, has been left alone.
pub proof fn lemma_synthesized_program_prints(
    characters: Seq<u8>,
    input: Option<Seq<u8>>,
    written: Seq<u8>,
    limit: nat,
)
    requires
        steps_for(characters.len() as int) <= limit,
    ensures
        State::fresh(synthesized(characters), input, Some(written)).run(limit) matches Ok(last)
            && last.halted() && last.output == Some(written + characters) && last.input
            == input,
        State::fresh(synthesized(characters), input, Some(written)).outcome(limit) == Ok::<
            (),
            MachineError,
        >(()),
{
    let start = State::fresh(synthesized(characters), input, Some(written));
    let steps = lemma_prints_first(characters, characters.len() as int, input, written);
    assert(characters.take(characters.len() as int) =~= characters);
    lemma_run_stays_halted(start, steps, limit);
}

/// Whether `block` holds no `Read`.
pub open spec fn reads_nothing(block: Seq<Command>) -> bool {
    forall|i: int| 0 <= i < block.len() ==> #[trigger] block[i] != Command::Read
}

/// Two blocks that read nothing read nothing when put together.
proof fn lemma_reads_nothing_both(first: Seq<Command>, second: Seq<Command>)
    requires
        reads_nothing(first),
        reads_nothing(second),
    ensures
        reads_nothing(first + second),
{
    assert forall|i: int| 0 <= i < (first + second).len() implies #[trigger] (first + second)[i]
        != Command::Read by {
        if i < first.len() {
            assert((first + second)[i] == first[i]);
        } else {
            assert((first + second)[i] == second[i - first.len()]);
        }
    }
}

/// A command that changes a cell, carried out some cells to the left, reads
/// nothing.
proof fn lemma_shifted_reads_nothing(n: nat, command: Command)
    requires
        changes_cell(command),
    ensures
        reads_nothing(shifted(n, command)),
    decreases n,
{
    if n > 0 {
        lemma_shifted_reads_nothing((n - 1) as nat, command);
        lemma_reads_nothing_both(seq![Command::DecrementPointer], shifted((n - 1) as nat, command));
        lemma_reads_nothing_both(
            seq![Command::DecrementPointer] + shifted((n - 1) as nat, command),
            seq![Command::IncrementPointer],
        );
    }
}

/// Nested loops around a command that changes a cell read nothing.
proof fn lemma_nested_reads_nothing(n: nat, factors: Seq<int>, command: Command)
    requires
        changes_cell(command),
    ensures
        reads_nothing(nested(n, factors, command)),
    decreases factors.len(),
{
    if factors.len() == 0 {
        lemma_shifted_reads_nothing(n, command);
    } else {
        let enter = seq![Command::IncrementPointer];
        let counted = repeated(Command::Increment, factors[0]);
        let open = seq![Command::JumpAhead];
        let body = nested(n, factors.skip(1), command);
        let close = seq![Command::Decrement, Command::JumpBack, Command::DecrementPointer];
        lemma_nested_reads_nothing(n, factors.skip(1), command);
        lemma_reads_nothing_both(enter, counted);
        lemma_reads_nothing_both(enter + counted, open);
        lemma_reads_nothing_both(enter + counted + open, body);
        lemma_reads_nothing_both(enter + counted + open + body, close);
    }
}

/// A synthesized program reads nothing.
pub proof fn lemma_synthesized_reads_nothing(characters: Seq<u8>)
    ensures
        reads_nothing(synthesized(characters)),
    decreases characters.len(),
{
    if characters.len() > 0 {
        let before = characters.drop_last();
        let previous = if before.len() == 0 {
            0u8
        } else {
            before.last()
        };
        let target = characters.last();
        let command = if target > previous {
            Command::Increment
        } else {
            Command::Decrement
        };
        let distance: int = if target > previous {
            target - previous
        } else {
            previous - target
        };
        lemma_synthesized_reads_nothing(before);
        lemma_nested_reads_nothing(prime_factors(distance).len(), prime_factors(distance), command);
        lemma_reads_nothing_both(synthesized(before), adjustment(previous, target));
        lemma_reads_nothing_both(
            synthesized(before) + adjustment(previous, target),
            seq![Command::Write],
        );
    }
}

/// Every run of a synthesized program is accounted for, whatever its
/// endpoints do.
///
/// Whatever number of steps a run of the program synthesized for
/// `characters` took from a fresh machine with an output bound: if it ended
/// with `Ok`, the output has taken `characters` after what it had taken
/// before, and the input has been left alone; if it ended with an error, it
/// ran out of steps, or the output took no byte or failed.
pub proof fn lemma_synthesized_run_explained(
    characters: Seq<u8>,
    input: Option<Seq<u8>>,
    written: Seq<u8>,
    steps: nat,
    limit: nat,
    last: State,
    result: Result<(), MachineError>,
)
    requires
        State::fresh(synthesized(characters), input, Some(written)).run(steps) == Ok::<
            State,
            MachineError,
        >(last),
        last.explains(steps, limit, result),
    ensures
        match result {
            Ok(_) => last.output == Some(written + characters) && last.input == input,
            Err(error) => {
                ||| error == MachineError::OutOfSteps && steps == limit
                ||| error == MachineError::NoByteWritten
                ||| error == MachineError::OutputError
            },
        },
{
    let start = State::fresh(synthesized(characters), input, Some(written));
    let enough = steps_for(characters.len() as int) as nat;
    lemma_synthesized_program_prints(characters, input, written, enough);
    lemma_halting_run_explains(start, enough, start.run(enough)->Ok_0, steps, limit, last, result);
    lemma_run_keeps_wf(start, steps);
    lemma_synthesized_reads_nothing(characters);
}

} // verus!
