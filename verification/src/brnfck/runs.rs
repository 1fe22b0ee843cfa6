//! What holds of every run of the machine, whatever the program.

use vstd::prelude::*;
use super::machine::MachineError;
use super::state::{lemma_run_one_more, lemma_step_keeps_wf, State};

verus! {

/// Steps add up: after `first` steps that ended in `middle`, `second` more
/// steps are the same as `first + second` steps from the start.
pub proof fn lemma_run_add(state: State, first: nat, middle: State, second: nat)
    requires
        state.run(first) == Ok::<State, MachineError>(middle),
    ensures
        state.run(first + second) == middle.run(second),
    decreases first,
{
    if first == 0 {
    } else if state.halted() {
        assert(middle.run(second) == Ok::<State, MachineError>(middle));
    } else {
        match state.step() {
            Ok(next) => {
                lemma_run_add(next, (first - 1) as nat, middle, second);
            },
            Err(_) => {},
        }
    }
}

/// A run keeps the state well formed and the program as it is.
pub proof fn lemma_run_keeps_wf(state: State, steps: nat)
    requires
        state.wf(),
    ensures
        state.run(steps) matches Ok(last) ==> last.wf() && last.program == state.program,
    decreases steps,
{
    if steps == 0 || state.halted() {
    } else {
        lemma_step_keeps_wf(state);
        match state.step() {
            Ok(next) => {
                lemma_run_keeps_wf(next, (steps - 1) as nat);
            },
            Err(_) => {},
        }
    }
}

/// A run that fails has failed for good: no larger number of steps succeeds.
pub proof fn lemma_run_stays_failed(state: State, fewer: nat, more: nat)
    requires
        fewer <= more,
        state.run(fewer) is Err,
    ensures
        state.run(more) == state.run(fewer),
    decreases fewer,
{
    if fewer == 0 || state.halted() {
    } else {
        match state.step() {
            Ok(next) => {
                lemma_run_stays_failed(next, (fewer - 1) as nat, (more - 1) as nat);
            },
            Err(_) => {},
        }
    }
}

/// A program halts in one state only: two runs from one state that both end
/// halted end in the same state.
pub proof fn lemma_halted_state_is_unique(
    state: State,
    first: nat,
    first_end: State,
    second: nat,
    second_end: State,
)
    requires
        state.run(first) == Ok::<State, MachineError>(first_end),
        first_end.halted(),
        state.run(second) == Ok::<State, MachineError>(second_end),
        second_end.halted(),
    ensures
        first_end == second_end,
{
    if first <= second {
        lemma_run_add(state, first, first_end, (second - first) as nat);
    } else {
        lemma_run_add(state, second, second_end, (first - second) as nat);
    }
}

/// A run that has halted stays where it is, however many steps it is allowed.
pub proof fn lemma_run_stays_halted(state: State, fewer: nat, more: nat)
    requires
        fewer <= more,
        state.run(fewer) matches Ok(last) && last.halted(),
    ensures
        state.run(more) == state.run(fewer),
{
    lemma_run_add(state, fewer, state.run(fewer)->Ok_0, (more - fewer) as nat);
}

/// A run that settles is the run that `outcome` speaks of: it ends as
/// `outcome` says, and where it ends without a failing step, it ends in the
/// state that `run` gives for the steps that it was allowed.
pub proof fn lemma_settled_run_is_outcome(
    state: State,
    steps: nat,
    limit: nat,
    last: State,
    result: Result<(), MachineError>,
)
    requires
        steps <= limit,
        state.run(steps) == Ok::<State, MachineError>(last),
        last.settles(steps, limit, result),
    ensures
        result == state.outcome(limit),
        state.run(limit) is Ok ==> state.run(limit) == Ok::<State, MachineError>(last),
{
    if last.halted() {
        lemma_run_stays_halted(state, steps, limit);
        assert(result->Ok_0 == ());
    } else if steps < limit {
        lemma_run_one_more(state, steps, last);
        lemma_run_stays_failed(state, steps + 1, limit);
    }
}

/// Where some number of steps takes a state to a halted one, every run from
/// that state on which no endpoint falters ends in that halted state, unless
/// it runs out of steps before.
pub proof fn lemma_halting_run_settles(
    state: State,
    enough: nat,
    halted: State,
    steps: nat,
    limit: nat,
    last: State,
    result: Result<(), MachineError>,
)
    requires
        state.run(enough) == Ok::<State, MachineError>(halted),
        halted.halted(),
        state.run(steps) == Ok::<State, MachineError>(last),
        last.settles(steps, limit, result),
    ensures
        match result {
            Ok(_) => last == halted,
            Err(error) => error == MachineError::OutOfSteps && limit == steps < enough,
        },
{
    match result {
        Ok(_) => {
            lemma_halted_state_is_unique(state, enough, halted, steps, last);
        },
        Err(error) => {
            assert(!last.halted());
            if steps >= enough {
                lemma_run_add(state, enough, halted, (steps - enough) as nat);
            } else if error != MachineError::OutOfSteps {
                lemma_run_one_more(state, steps, last);
                lemma_run_stays_failed(state, steps + 1, enough);
            }
        },
    }
}

/// Where some number of steps takes a state to a halted one, every run from
/// that state is accounted for: a run that ends with `Ok` ends in that
/// halted state, and a run that ends with an error has run out of steps or
/// was failed by an endpoint.
pub proof fn lemma_halting_run_explains(
    state: State,
    enough: nat,
    halted: State,
    steps: nat,
    limit: nat,
    last: State,
    result: Result<(), MachineError>,
)
    requires
        state.run(enough) == Ok::<State, MachineError>(halted),
        halted.halted(),
        state.run(steps) == Ok::<State, MachineError>(last),
        last.explains(steps, limit, result),
    ensures
        match result {
            Ok(_) => last == halted,
            Err(error) => error == MachineError::OutOfSteps || last.endpoint_may_answer(error),
        },
{
    if last.settles(steps, limit, result) {
        lemma_halting_run_settles(state, enough, halted, steps, limit, last, result);
    }
}

} // verus!
