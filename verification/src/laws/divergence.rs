//! What happens when the workflow's code no longer fits its history.

use vstd::prelude::*;

use crate::coroutine::{Coroutine, Workflow};
use crate::driver::RunOutcomeView;
use crate::engine::{
    agree, diverge_at, instead_of_issuing, ran, task, task_begun, task_ends, tasks_made, Engine,
};
use crate::history::{commands_of, final_result_of, Payload};
use crate::replay::{replays, PassView};
use crate::text::Text;

verus! {

/// Divergence is caught before it can do damage: the workflow task that finds it
/// writes nothing but its own start, and runs nothing. What it reports is the
/// first place where the replayed commands and the recorded ones part: the
/// recorded command there, and what the workflow did instead.
pub proof fn law_divergence_does_no_damage<
    T: Coroutine<T, ()>,
    R: Coroutine<T, Result<Payload, String>>,
    W: Workflow<T, R>,
    F: Fn(Payload) -> Result<Payload, String>,
>(
    wf: W,
    s: Engine<F>,
    attempt: u32,
    e: Engine<F>,
    index: usize,
    expected: Text,
    actual: Text,
) -> (pass: PassView)
    requires
        task::<T, R, W, F>(
            wf,
            s,
            attempt,
            e,
            Some(RunOutcomeView::NonDeterminism { index, expected, actual }),
        ),
        commands_of(e.history).len() <= usize::MAX,
    ensures
        e.history == task_begun(s, attempt).history,
        e.worker.registry == s.worker.registry,
        replays::<T, R, W>(wf, e.history, pass),
        ({
            let recorded = commands_of(e.history);
            &&& index < recorded.len()
            &&& expected == recorded[index as int].describe()
            &&& agree(pass.commands.take(index as int), recorded)
            &&& if index < pass.commands.len() {
                &&& !pass.commands[index as int].matches(recorded[index as int])
                &&& actual == pass.commands[index as int].describe()
            } else {
                &&& pass.commands.len() == index
                &&& actual == instead_of_issuing(pass.poll)
            }
        }),
{
    let out = Some(RunOutcomeView::NonDeterminism { index, expected, actual });
    let begun = task_begun(s, attempt);
    let pass = choose|pass: PassView|
        {
            &&& #[trigger] replays::<T, R, W>(wf, begun.history, pass)
            &&& task_ends(begun, attempt, pass, e, out)
        };
    let recorded = commands_of(begun.history);
    assert(recorded == commands_of(s.history)) by {
        assert(begun.history.drop_last() =~= s.history);
    }
    if agree(pass.commands, recorded) {
        assert(pass.commands.take(index as int) =~= pass.commands);
    } else {
        let i = choose|i: int|
            {
                &&& #[trigger] diverge_at(pass.commands, recorded, i)
                &&& out == Some(
                    RunOutcomeView::NonDeterminism {
                        index: i as usize,
                        expected: recorded[i].describe(),
                        actual: pass.commands[i].describe(),
                    },
                )
            };
        assert(i == index);
    }
    pass
}

/// A run that reports non-determinism points at the first difference: a recorded
/// command, and what the workflow did in its place. The log ends with the start of
/// the task that found it, and the run can be repeated with the right code.
pub proof fn law_non_determinism_names_the_first_difference<
    T: Coroutine<T, ()>,
    R: Coroutine<T, Result<Payload, String>>,
    W: Workflow<T, R>,
    F: Fn(Payload) -> Result<Payload, String>,
>(
    wf: W,
    s: Engine<F>,
    e: Engine<F>,
    index: usize,
    expected: Text,
    actual: Text,
) -> (pass: PassView)
    requires
        ran::<T, R, W, F>(
            wf,
            s,
            e,
            RunOutcomeView::NonDeterminism { index, expected, actual },
        ),
        commands_of(e.history).len() <= usize::MAX,
    ensures
        e.history.last().attrs is WorkflowTaskStarted,
        final_result_of(e.history) is None,
        replays::<T, R, W>(wf, e.history, pass),
        index < commands_of(e.history).len(),
        expected == commands_of(e.history)[index as int].describe(),
        agree(pass.commands.take(index as int), commands_of(e.history)),
        index < pass.commands.len() ==> !pass.commands[index as int].matches(
            commands_of(e.history)[index as int],
        ),
{
    let out = RunOutcomeView::NonDeterminism { index, expected, actual };
    let (attempt, mid) = choose|attempt: u32, mid: Engine<F>|
        {
            &&& attempt >= 1
            &&& #[trigger] tasks_made::<T, R, W, F>(wf, s.resumed(), attempt, mid)
            &&& #[trigger] task::<T, R, W, F>(wf, mid, attempt, e, Some(out))
        };
    law_divergence_does_no_damage::<T, R, W, F>(
        wf,
        mid,
        attempt,
        e,
        index,
        expected,
        actual,
    )
}

} // verus!
