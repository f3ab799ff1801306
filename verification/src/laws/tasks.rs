//! A run, task by task: what a task does with its pass, and how tasks follow each
//! other.

use vstd::prelude::*;
use vstd::string::*;

use crate::command::CommandView;
use crate::coroutine::{Coroutine, Poll, Workflow};
use crate::driver::{outcome_view, took_all, RunOutcome, RunOutcomeView, TraceSink, Worker};
use crate::engine::{
    advanced, after_advance, agree, diverge_at, engine, fresh_commands, pending_of, persisted, ran,
    reports_possible, task, task_begun, task_ends, task_lines, tasks_made, Engine, WorkerView,
};
use crate::history::{commands_of, EventView, HistoryEventView, Payload, SeqNo};
use crate::laws::identity::law_a_match_is_of_kind_number_and_name;
use crate::laws::log::is_open;
use crate::replay::{replays, PassView};
use crate::text::Text;

verus! {

/// Two commands are of different kinds, or have different numbers, or ask for
/// activities of different types, or record markers of different names.
pub open spec fn differ(a: CommandView, b: CommandView) -> bool {
    match (a, b) {
        (
            CommandView::ScheduleActivity { seq: p, activity_type: t, .. },
            CommandView::ScheduleActivity { seq: q, activity_type: u, .. },
        ) => p != q || t != u,
        (
            CommandView::RecordMarker { seq: p, marker_name: t, .. },
            CommandView::RecordMarker { seq: q, marker_name: u, .. },
        ) => p != q || t != u,
        (
            CommandView::StartTimer { seq: p, .. },
            CommandView::StartTimer { seq: q, .. },
        ) => p != q,
        _ => true,
    }
}

/// Commands match unless they differ.
pub proof fn law_commands_match_unless_they_differ(a: CommandView, b: CommandView)
    ensures
        a.matches(b) <==> !differ(a, b),
{
    law_a_match_is_of_kind_number_and_name(a, b);
}

/// Two lists of commands agree exactly if there is no place that both have and where
/// they differ; and they part at the first such place.
pub proof fn law_lists_agree_unless_they_differ(
    commands: Seq<CommandView>,
    recorded: Seq<CommandView>,
    i: int,
)
    ensures
        agree(commands, recorded) <==> forall|j: int|
            0 <= j < commands.len() && j < recorded.len() ==> !differ(
                #[trigger] commands[j],
                recorded[j],
            ),
        diverge_at(commands, recorded, i) <==> {
            &&& 0 <= i < commands.len()
            &&& i < recorded.len()
            &&& differ(commands[i], recorded[i])
            &&& forall|j: int| 0 <= j < i ==> !differ(#[trigger] commands[j], recorded[j])
        },
{
    assert forall|j: int| 0 <= j < commands.len() && j < recorded.len() implies (
    #[trigger] commands[j]).matches(recorded[j]) == !differ(commands[j], recorded[j]) by {
        law_commands_match_unless_they_differ(commands[j], recorded[j]);
    }
    if 0 <= i < commands.len() && i < recorded.len() {
        let before = commands.take(i);
        assert forall|j: int| 0 <= j < i implies #[trigger] before[j] == commands[j] by {}
        if agree(before, recorded) {
            assert forall|j: int| 0 <= j < i implies !differ(
                #[trigger] commands[j],
                recorded[j],
            ) by {
                assert(before[j].matches(recorded[j]));
            }
        }
        if forall|j: int| 0 <= j < i ==> !differ(#[trigger] commands[j], recorded[j]) {
            assert forall|j: int| 0 <= j < before.len() && j < recorded.len() implies (
            #[trigger] before[j]).matches(recorded[j]) by {
                assert(!differ(commands[j], recorded[j]));
            }
        }
    }
}

/// The new commands are those behind the recorded ones, all of them and in order.
pub proof fn law_new_commands_are_those_behind_the_recorded(
    commands: Seq<CommandView>,
    recorded: Seq<CommandView>,
)
    ensures
        commands.len() <= recorded.len() ==> fresh_commands(commands, recorded).len() == 0,
        commands.len() > recorded.len() ==> {
            &&& fresh_commands(commands, recorded).len() + recorded.len() == commands.len()
            &&& forall|i: int|
                recorded.len() <= i < commands.len() ==> #[trigger] commands[i]
                    == fresh_commands(commands, recorded)[i - recorded.len()]
        },
{
}

/// A task whose pass and log differ somewhere stops there. It names the first place,
/// what the log has and what the workflow did instead. A workflow that issues fewer
/// commands than are recorded differs at the first one that is missing. The log stays
/// as it was when the pass began, and nothing is executed. So it is with a workflow
/// that never comes to rest.
pub proof fn law_a_task_stops_where_pass_and_log_differ<
    F: Fn(Payload) -> Result<Payload, String>,
>(s: Engine<F>, attempt: u32, pass: PassView, e: Engine<F>, out: Option<RunOutcomeView>)
    requires
        task_ends(s, attempt, pass, e, out),
        pass.commands.len() <= SeqNo::MAX,
    ensures
        ({
            let recorded = commands_of(s.history);
            let n = pass.commands.len() as int;
            let fits = forall|i: int|
                0 <= i < n && i < recorded.len() ==> !differ(
                    #[trigger] pass.commands[i],
                    recorded[i],
                );
            &&& pass.deadlocked ==> out == Some(RunOutcomeView::Deadlocked)
            &&& !pass.deadlocked && !fits ==> (out matches Some(
                RunOutcomeView::NonDeterminism { index, expected, actual },
            ) && {
                &&& index < n
                &&& index < recorded.len()
                &&& differ(pass.commands[index as int], recorded[index as int])
                &&& forall|j: int|
                    0 <= j < index ==> !differ(#[trigger] pass.commands[j], recorded[j])
                &&& expected == recorded[index as int].describe()
                &&& actual == pass.commands[index as int].describe()
            })
            &&& !pass.deadlocked && fits && n < recorded.len() ==> (out matches Some(
                RunOutcomeView::NonDeterminism { index, expected, actual },
            ) && {
                &&& index == n
                &&& expected == recorded[n].describe()
                &&& pass.poll is Ready ==> actual == "<workflow finished without issuing it>"@
                &&& pass.poll is Pending ==> actual == "<workflow blocked without issuing it>"@
            })
            &&& pass.deadlocked || !fits || n < recorded.len() ==> {
                &&& e.history == s.history
                &&& e.worker.registry == s.worker.registry
                &&& e.worker.clock_ms == s.worker.clock_ms
                &&& e.worker.activities_run == s.worker.activities_run
            }
        }),
{
    let recorded = commands_of(s.history);
    law_lists_agree_unless_they_differ(pass.commands, recorded, 0);
    if !pass.deadlocked && !agree(pass.commands, recorded) {
        let i = choose|i: int|
            {
                &&& #[trigger] diverge_at(pass.commands, recorded, i)
                &&& e == s.traced(task_lines(attempt, recorded.len(), pass))
                &&& out == Some(
                    RunOutcomeView::NonDeterminism {
                        index: i as usize,
                        expected: recorded[i].describe(),
                        actual: pass.commands[i].describe(),
                    },
                )
            };
        law_lists_agree_unless_they_differ(pass.commands, recorded, i);
        assert(i as usize == i);
    }
}

/// A task whose pass fits the log first writes the new commands down. Then, if the
/// workflow returned and no activity waits, it closes the execution with exactly what
/// was returned. Else the world has its turn.
pub proof fn law_a_task_that_fits_goes_on<F: Fn(Payload) -> Result<Payload, String>>(
    s: Engine<F>,
    attempt: u32,
    pass: PassView,
    e: Engine<F>,
    out: Option<RunOutcomeView>,
) -> (r: (Engine<F>, Seq<Result<Text, Text>>))
    requires
        task_ends(s, attempt, pass, e, out),
        !pass.deadlocked,
        pass.commands.len() >= commands_of(s.history).len(),
        forall|i: int|
            0 <= i < commands_of(s.history).len() ==> !differ(
                #[trigger] pass.commands[i],
                commands_of(s.history)[i],
            ),
    ensures
        ({
            let recorded = commands_of(s.history);
            let p = r.0;
            let pending = pending_of(p.history, p.worker.completion_order);
            let owes = exists|i: int|
                0 <= i < pending.len() && (#[trigger] pending[i]) is ScheduleActivity;
            &&& p == persisted(
                s.traced(task_lines(attempt, recorded.len(), pass)),
                pass.commands.skip(recorded.len() as int),
            )
            &&& !owes ==> match pass.poll {
                Poll::Pending => true,
                Poll::Ready(result) => {
                    let n = p.history.len() as int;
                    &&& e.worker == p.worker
                    &&& e.history.len() == n + 1
                    &&& forall|i: int| 0 <= i < n ==> #[trigger] e.history[i] == p.history[i]
                    &&& e.history[n].time_ms == p.worker.clock_ms
                    &&& match result {
                        Ok(x) => {
                            &&& e.history[n].attrs == (EventView::WorkflowExecutionCompleted {
                                result: x,
                            })
                            &&& out == Some(RunOutcomeView::Completed(x))
                        },
                        Err(x) => {
                            &&& e.history[n].attrs == (EventView::WorkflowExecutionFailed {
                                failure: x,
                            })
                            &&& out == Some(RunOutcomeView::Failed(x))
                        },
                    }
                },
            }
            &&& pass.poll is Pending || owes ==> {
                &&& reports_possible(p, pending, r.1)
                &&& e == advanced(p, r.1).0
                &&& out == after_advance(advanced(p, r.1).1, attempt)
            }
        }),
{
    let recorded = commands_of(s.history);
    law_lists_agree_unless_they_differ(pass.commands, recorded, 0);
    let t = s.traced(task_lines(attempt, recorded.len(), pass));
    let fresh = pass.commands.skip(recorded.len() as int);
    assert(fresh_commands(pass.commands, recorded) =~= fresh);
    let p = persisted(t, fresh);
    let pending = pending_of(p.history, p.worker.completion_order);
    let reports = choose|reports: Seq<Result<Text, Text>>|
        {
            &&& #[trigger] reports_possible(p, pending, reports)
            &&& e == advanced(p, reports).0
            &&& out == after_advance(advanced(p, reports).1, attempt)
        };
    (p, reports)
}

/// A task without room on the clock does nothing, and ends the run. Any other one
/// begins, replays the workflow over the log with its start, and goes by that pass.
pub proof fn law_a_task_replays_over_its_log<
    T: Coroutine<T, ()>,
    R: Coroutine<T, Result<Payload, String>>,
    W: Workflow<T, R>,
    F: Fn(Payload) -> Result<Payload, String>,
>(wf: W, s: Engine<F>, attempt: u32, e: Engine<F>, out: Option<RunOutcomeView>) -> (pass:
    PassView)
    requires
        task::<T, R, W, F>(wf, s, attempt, e, out),
    ensures
        s.worker.clock_ms == u64::MAX ==> e == s && out == Some(RunOutcomeView::Exhausted),
        s.worker.clock_ms < u64::MAX ==> {
            &&& replays::<T, R, W>(wf, task_begun(s, attempt).history, pass)
            &&& task_ends(task_begun(s, attempt), attempt, pass, e, out)
        },
{
    let begun = task_begun(s, attempt);
    choose|pass: PassView|
        {
            &&& #[trigger] replays::<T, R, W>(wf, begun.history, pass)
            &&& task_ends(begun, attempt, pass, e, out)
        }
}

proof fn lemma_row_of_tasks<
    T: Coroutine<T, ()>,
    R: Coroutine<T, Result<Payload, String>>,
    W: Workflow<T, R>,
    F: Fn(Payload) -> Result<Payload, String>,
>(wf: W, s: Engine<F>, attempt: u32, e: Engine<F>) -> (states: Seq<Engine<F>>)
    requires
        attempt >= 1,
        tasks_made::<T, R, W, F>(wf, s, attempt, e),
    ensures
        states.len() == attempt,
        states[0] == s,
        states[attempt - 1] == e,
        forall|i: u32|
            1 <= i < attempt ==> #[trigger] task::<T, R, W, F>(
                wf,
                states[i - 1],
                i,
                states[i as int],
                None,
            ),
    decreases attempt,
{
    if attempt == 1 {
        seq![s]
    } else {
        let k = (attempt - 1) as u32;
        let mid = choose|mid: Engine<F>|
            {
                &&& tasks_made::<T, R, W, F>(wf, s, k, mid)
                &&& #[trigger] task::<T, R, W, F>(wf, mid, k, e, None)
            };
        let first = lemma_row_of_tasks::<T, R, W, F>(wf, s, k, mid);
        let states = first.push(e);
        assert forall|i: u32| 1 <= i < attempt implies #[trigger] task::<T, R, W, F>(
            wf,
            states[i - 1],
            i,
            states[i as int],
            None,
        ) by {
            if i < k {
                assert(task::<T, R, W, F>(wf, first[i - 1], i, first[i as int], None));
            }
        }
        states
    }
}

/// A run is a row of tasks, counted from one. It begins where the worker has picked
/// the log up. Every task but the last calls for another one, each begins where the
/// one before it ended, and the last one ends the run with its outcome.
pub proof fn law_a_run_is_a_row_of_tasks<
    T: Coroutine<T, ()>,
    R: Coroutine<T, Result<Payload, String>>,
    W: Workflow<T, R>,
    F: Fn(Payload) -> Result<Payload, String>,
>(wf: W, s: Engine<F>, e: Engine<F>, out: RunOutcomeView) -> (states: Seq<Engine<F>>)
    requires
        ran::<T, R, W, F>(wf, s, e, out),
        is_open(s.history),
    ensures
        1 <= states.len() <= u32::MAX,
        states[0] == s.resumed(),
        forall|i: u32|
            1 <= i < states.len() ==> #[trigger] task::<T, R, W, F>(
                wf,
                states[i - 1],
                i,
                states[i as int],
                None,
            ),
        task::<T, R, W, F>(wf, states.last(), states.len() as u32, e, Some(out)),
{
    let (attempt, mid) = choose|attempt: u32, mid: Engine<F>|
        {
            &&& attempt >= 1
            &&& #[trigger] tasks_made::<T, R, W, F>(wf, s.resumed(), attempt, mid)
            &&& #[trigger] task::<T, R, W, F>(wf, mid, attempt, e, Some(out))
        };
    lemma_row_of_tasks::<T, R, W, F>(wf, s.resumed(), attempt, mid)
}

/// Code that asks for something else is found out at once. Let an execution be open,
/// and let the code, in whatever way it is replayed over the log, issue at one place a
/// command that differs from the recorded one: of another kind, under another number,
/// an activity of another type, a marker of another name. Then the run ends in
/// non-determinism, at that place or before. The log grows by the start of one task,
/// and nothing is executed.
pub proof fn law_changed_code_is_found_out<
    T: Coroutine<T, ()>,
    R: Coroutine<T, Result<Payload, String>>,
    W: Workflow<T, R>,
    F: Fn(Payload) -> Result<Payload, String>,
>(wf: W, s: Engine<F>, e: Engine<F>, out: RunOutcomeView, i: int)
    requires
        ran::<T, R, W, F>(wf, s, e, out),
        is_open(s.history),
        s.resumed().worker.clock_ms < u64::MAX,
        forall|pass: PassView| #[trigger]
            replays::<T, R, W>(wf, task_begun(s.resumed(), 1).history, pass) ==> {
                let recorded = commands_of(task_begun(s.resumed(), 1).history);
                &&& !pass.deadlocked
                &&& 0 <= i < pass.commands.len()
                &&& i < recorded.len()
                &&& differ(pass.commands[i], recorded[i])
            },
    ensures
        out matches RunOutcomeView::NonDeterminism { index, .. } && index <= i,
        e.history == task_begun(s.resumed(), 1).history,
        e.worker.registry == s.worker.registry,
{
    let states = law_a_run_is_a_row_of_tasks::<T, R, W, F>(wf, s, e, out);
    let s0 = s.resumed();
    let begun = task_begun(s0, 1);
    if states.len() > 1 {
        assert(task::<T, R, W, F>(wf, states[1u32 - 1], 1, states[1u32 as int], None));
        let pass = law_a_task_replays_over_its_log::<T, R, W, F>(wf, s0, 1, states[1], None);
        law_a_task_stops_where_pass_and_log_differ(begun, 1, pass, states[1], None);
        assert(differ(pass.commands[i], commands_of(begun.history)[i]));
    } else {
        let pass = law_a_task_replays_over_its_log::<T, R, W, F>(wf, s0, 1, e, Some(out));
        law_a_task_stops_where_pass_and_log_differ(begun, 1, pass, e, Some(out));
        assert(differ(pass.commands[i], commands_of(begun.history)[i]));
    }
}

/// A sink takes lines one by one: from the state before the first of them to the state
/// after the last, each in the state that the one before it left. Returns these states.
pub proof fn law_a_sink_takes_every_line<S: TraceSink>(
    before: S::Obs,
    lines: Seq<Text>,
    after: S::Obs,
) -> (states: Seq<S::Obs>)
    requires
        took_all::<S>(before, lines, after),
    ensures
        states.len() == lines.len() + 1,
        states[0] == before,
        states[lines.len() as int] == after,
        forall|i: int|
            0 <= i < lines.len() ==> S::took(states[i], #[trigger] lines[i], states[i + 1]),
    decreases lines.len(),
{
    if lines.len() == 0 {
        seq![before]
    } else {
        let rest = lines.drop_last();
        let mid = choose|mid: S::Obs|
            {
                &&& took_all::<S>(before, rest, mid)
                &&& #[trigger] S::took(mid, lines.last(), after)
            };
        let first = law_a_sink_takes_every_line::<S>(before, rest, mid);
        let states = first.push(after);
        assert forall|i: int| 0 <= i < lines.len() implies S::took(
            states[i],
            #[trigger] lines[i],
            states[i + 1],
        ) by {
            if i < rest.len() {
                assert(rest[i] == lines[i]);
            } else {
                assert(lines[i] == lines.last());
            }
        }
        states
    }
}

/// A worker that spoke has added lines behind those of its trace, and its sink has taken
/// each of them, in order and once. Returns the states of the sink.
pub proof fn law_a_worker_speaks_to_its_sink<
    F: Fn(Payload) -> Result<Payload, String>,
    S: TraceSink,
>(before: Worker<F, S>, after: Worker<F, S>) -> (states: Seq<S::Obs>)
    requires
        after.spoke_since(before),
    ensures
        ({
            let n = before@.trace_lines.len() as int;
            let m = after@.trace_lines.len() as int;
            &&& n <= m
            &&& forall|i: int|
                0 <= i < n ==> #[trigger] after@.trace_lines[i] == before@.trace_lines[i]
            &&& states.len() == m - n + 1
            &&& states[0] == before.sink()
            &&& states[m - n] == after.sink()
            &&& forall|i: int|
                n <= i < m ==> S::took(
                    states[i - n],
                    #[trigger] after@.trace_lines[i],
                    states[i - n + 1],
                )
        }),
{
    let n = before@.trace_lines.len() as int;
    let added = after@.trace_lines.skip(n);
    let states = law_a_sink_takes_every_line::<S>(before.sink(), added, after.sink());
    assert forall|i: int| 0 <= i < n implies #[trigger] after@.trace_lines[i]
        == before@.trace_lines[i] by {
        assert(before@.trace_lines[i] == after@.trace_lines.subrange(0, n)[i]);
    }
    assert forall|i: int| n <= i < after@.trace_lines.len() implies S::took(
        states[i - n],
        #[trigger] after@.trace_lines[i],
        states[i - n + 1],
    ) by {
        assert(added[i - n] == after@.trace_lines[i]);
    }
    states
}

/// What a task returns is seen as it is, and so are a worker and its log together.
pub proof fn law_a_task_returns_an_outcome_or_none<F>(
    out: RunOutcome,
    w: WorkerView<F>,
    h: Seq<HistoryEventView>,
)
    ensures
        outcome_view(Some(out)) == Some(out@),
        outcome_view(None) is None,
        engine(w, h).worker == w,
        engine(w, h).history == h,
{
}

} // verus!
