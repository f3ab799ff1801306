//! What a run does to the log, whatever the workflow and the activities do.

use vstd::prelude::*;

use crate::command::CommandView;
use crate::coroutine::{Coroutine, Workflow};
use crate::driver::{RunOutcomeView, ACTIVITY_LATENCY_MS};
use crate::engine::{
    activities_done, activity_turn, advanced, after_advance, agree, earliest_timer, ending,
    fresh_commands, has_activity, pending_of, persisted, ran, reported, reports_possible, task,
    task_begun, task_continues, task_ends, task_lines, tasks_made, Engine,
};
use crate::history::{
    commands_of, final_result_of, ids_count_up, EventView, HistoryEventView, Payload,
};
use crate::replay::{replays, PassView};
use crate::text::{decimal, Text};

verus! {

/// Timestamps never decrease along the log.
pub open spec fn times_in_order(h: Seq<HistoryEventView>) -> bool {
    forall|i: int, j: int|
        0 <= i <= j < h.len() ==> (#[trigger] h[i]).time_ms <= (#[trigger] h[j]).time_ms
}

/// Timestamps never decrease along the log, and the clock is not behind it.
pub open spec fn keeps_time<F>(s: Engine<F>) -> bool {
    &&& times_in_order(s.history)
    &&& forall|i: int|
        0 <= i < s.history.len() ==> (#[trigger] s.history[i]).time_ms <= s.worker.clock_ms
}

/// From `s` to `e` the past is kept: log, executions and clock only grow, and
/// neither the activities nor the worker's settings change.
pub open spec fn extends<F>(s: Engine<F>, e: Engine<F>) -> bool {
    &&& s.history.is_prefix_of(e.history)
    &&& s.worker.registry.executions.is_prefix_of(e.worker.registry.executions)
    &&& s.worker.trace_lines.is_prefix_of(e.worker.trace_lines)
    &&& s.worker.clock_ms <= e.worker.clock_ms
    &&& s.worker.registry.fns == e.worker.registry.fns
    &&& s.worker.crash == e.worker.crash
    &&& s.worker.completion_order == e.worker.completion_order
    &&& s.worker.trace == e.worker.trace
    &&& keeps_time(s) ==> keeps_time(e)
    &&& ids_count_up(s.history) && e.history.len() <= u64::MAX ==> ids_count_up(e.history)
}

pub(crate) proof fn lemma_prefix_trans<A>(a: Seq<A>, b: Seq<A>, c: Seq<A>)
    requires
        a.is_prefix_of(b),
        b.is_prefix_of(c),
    ensures
        a.is_prefix_of(c),
        c.skip(a.len() as int) == b.skip(a.len() as int) + c.skip(b.len() as int),
{
    assert forall|i: int| 0 <= i < b.len() implies b[i] == c[i] by {
        assert(b[i] == c.subrange(0, b.len() as int)[i]);
    }
    assert forall|i: int| 0 <= i < a.len() implies a[i] == c[i] by {
        assert(a[i] == b.subrange(0, a.len() as int)[i]);
    }
    assert(a =~= c.subrange(0, a.len() as int));
    assert(c.skip(a.len() as int) =~= b.skip(a.len() as int) + c.skip(b.len() as int));
}

pub(crate) proof fn lemma_extends_trans<F>(a: Engine<F>, b: Engine<F>, c: Engine<F>)
    requires
        extends(a, b),
        extends(b, c),
    ensures
        extends(a, c),
{
    lemma_prefix_trans(a.history, b.history, c.history);
    lemma_prefix_trans(
        a.worker.registry.executions,
        b.worker.registry.executions,
        c.worker.registry.executions,
    );
    lemma_prefix_trans(a.worker.trace_lines, b.worker.trace_lines, c.worker.trace_lines);
}

proof fn lemma_extends_refl<F>(s: Engine<F>)
    ensures
        extends(s, s),
{
    assert(s.history.subrange(0, s.history.len() as int) =~= s.history);
    let x = s.worker.registry.executions;
    assert(x.subrange(0, x.len() as int) =~= x);
    let l = s.worker.trace_lines;
    assert(l.subrange(0, l.len() as int) =~= l);
}

proof fn lemma_wrote_extends<F>(s: Engine<F>, attrs: EventView)
    ensures
        extends(s, s.wrote(attrs)),
{
    lemma_extends_refl(s);
    let e = s.wrote(attrs);
    assert(e.history.subrange(0, s.history.len() as int) =~= s.history);
    if keeps_time(s) {
        assert(keeps_time(e));
    }
}

proof fn lemma_traced_extends<F>(s: Engine<F>, lines: Seq<Text>)
    ensures
        extends(s, s.traced(lines)),
{
    lemma_extends_refl(s);
    let e = s.traced(lines);
    assert(e.worker.trace_lines.subrange(0, s.worker.trace_lines.len() as int)
        =~= s.worker.trace_lines);
}

proof fn lemma_ticked_extends<F>(s: Engine<F>, ms: u64)
    requires
        s.can_tick(ms),
    ensures
        extends(s, s.ticked(ms)),
{
    lemma_extends_refl(s);
}

proof fn lemma_executed_extends<F>(s: Engine<F>, activity_type: Text, input: Text)
    ensures
        extends(s, s.executed(activity_type, input)),
{
    lemma_extends_refl(s);
    let e = s.executed(activity_type, input);
    let x = s.worker.registry.executions;
    assert(e.worker.registry.executions.subrange(0, x.len() as int) =~= x);
}

pub(crate) proof fn lemma_persisted_extends<F>(s: Engine<F>, fresh: Seq<CommandView>)
    ensures
        extends(s, persisted(s, fresh)),
    decreases fresh.len(),
{
    if fresh.len() == 0 {
        lemma_extends_refl(s);
    } else {
        let c = fresh.last();
        let a = persisted(s, fresh.drop_last());
        let b = a.wrote(c.to_event());
        lemma_persisted_extends(s, fresh.drop_last());
        lemma_wrote_extends(a, c.to_event());
        lemma_traced_extends(b, seq!["      + "@ + c.describe()]);
        lemma_extends_trans(s, a, b);
        lemma_extends_trans(s, b, persisted(s, fresh));
    }
}

proof fn lemma_reported_extends<F>(s: Engine<F>, seq: u32, report: Result<Text, Text>)
    requires
        s.can_tick(ACTIVITY_LATENCY_MS),
    ensures
        extends(s, reported(s, seq, report)),
{
    let a = s.ticked(ACTIVITY_LATENCY_MS);
    lemma_ticked_extends(s, ACTIVITY_LATENCY_MS);
    let (line, attrs) = match report {
        Ok(result) => (
            "   << ActivityTaskCompleted ["@ + decimal(seq as nat) + "] -> "@
                + result,
            EventView::ActivityTaskCompleted { seq, result },
        ),
        Err(failure) => (
            "   << ActivityTaskFailed ["@ + decimal(seq as nat) + "] !! "@ + failure,
            EventView::ActivityTaskFailed { seq, failure },
        ),
    };
    let b = a.said(line);
    lemma_traced_extends(a, seq![line]);
    lemma_wrote_extends(b, attrs);
    lemma_extends_trans(s, a, b);
    lemma_extends_trans(s, b, b.wrote(attrs));
}

pub(crate) proof fn lemma_activity_turn_extends<F>(
    s: Engine<F>,
    seq: u32,
    activity_type: Text,
    input: Text,
    report: Result<Text, Text>,
)
    ensures
        extends(s, activity_turn(s, seq, activity_type, input, report).0),
{
    lemma_extends_refl(s);
    if s.can_run_activity() {
        let line = "   >> RUN "@ + activity_type + "("@ + input
            + ")   *** REAL SIDE EFFECT ***"@;
        let a = s.said(line);
        let ran = a.executed(activity_type, input);
        lemma_traced_extends(s, seq![line]);
        lemma_executed_extends(a, activity_type, input);
        lemma_extends_trans(s, a, ran);
        let n = ran.worker.activities_run;
        let before = "   !! WORKER DIED after side effect #"@ + decimal(n as nat)
            + ", before recording its result"@;
        lemma_traced_extends(ran, seq![before]);
        lemma_extends_trans(s, ran, ran.said(before));
        if !s.will_lose_result() {
            let rep = reported(ran, seq, report);
            lemma_reported_extends(ran, seq, report);
            lemma_extends_trans(s, ran, rep);
            let after = "   !! WORKER DIED after side effect #"@ + decimal(n as nat)
                + ", result already durable"@;
            lemma_traced_extends(rep, seq![after]);
            lemma_extends_trans(s, rep, rep.said(after));
        }
    }
}

pub(crate) proof fn lemma_activities_done_extends<F>(
    s: Engine<F>,
    pending: Seq<CommandView>,
    reports: Seq<Result<Text, Text>>,
)
    ensures
        extends(s, activities_done(s, pending, reports).engine),
    decreases pending.len(),
{
    if pending.len() == 0 {
        lemma_extends_refl(s);
    } else {
        let before = activities_done(s, pending.drop_last(), reports.drop_last());
        lemma_activities_done_extends(s, pending.drop_last(), reports.drop_last());
        match pending.last() {
            CommandView::ScheduleActivity { seq, activity_type, input } => {
                lemma_activity_turn_extends(
                    before.engine,
                    seq,
                    activity_type,
                    input,
                    reports.last(),
                );
                if before.stop is None {
                    lemma_extends_trans(
                        s,
                        before.engine,
                        activities_done(s, pending, reports).engine,
                    );
                }
            },
            _ => {},
        }
    }
}

pub(crate) proof fn lemma_advanced_extends<F>(s: Engine<F>, reports: Seq<Result<Text, Text>>)
    ensures
        extends(s, advanced(s, reports).0),
{
    let pending = pending_of(s.history, s.worker.completion_order);
    let a = activities_done(s, pending, reports);
    lemma_activities_done_extends(s, pending, reports);
    if a.stop is None && !a.made {
        if let Some((ms, seq)) = earliest_timer(pending) {
            if a.engine.can_tick(ms) {
                let due = a.engine.ticked(ms);
                lemma_ticked_extends(a.engine, ms);
                let line = "   ~~ clock -> "@ + decimal(due.worker.clock_ms as nat)
                    + "ms, TimerFired ["@ + decimal(seq as nat) + "]"@;
                lemma_traced_extends(due, seq![line]);
                lemma_wrote_extends(
                    due.said(line),
                    EventView::TimerFired { seq },
                );
                lemma_extends_trans(s, a.engine, due);
                lemma_extends_trans(s, due, due.said(line));
                lemma_extends_trans(s, due.said(line), advanced(s, reports).0);
            }
        }
    }
}

/// The log has no terminal event at its end.
pub open spec fn is_open(h: Seq<HistoryEventView>) -> bool {
    final_result_of(h) is None
}

/// The log says how a run that ended with `out` left the execution.
pub open spec fn log_tells(h: Seq<HistoryEventView>, out: Option<RunOutcomeView>) -> bool {
    match out {
        Some(RunOutcomeView::Completed(result)) => final_result_of(h) == Some(
            Ok::<Text, Text>(result),
        ),
        Some(RunOutcomeView::Failed(failure)) => final_result_of(h) == Some(
            Err::<Text, Text>(failure),
        ),
        _ => is_open(h),
    }
}

proof fn lemma_persisted_open<F>(s: Engine<F>, fresh: Seq<CommandView>)
    requires
        is_open(s.history),
    ensures
        is_open(persisted(s, fresh).history),
    decreases fresh.len(),
{
    if fresh.len() > 0 {
        lemma_persisted_open(s, fresh.drop_last());
    }
}

proof fn lemma_activities_done_open<F>(
    s: Engine<F>,
    pending: Seq<CommandView>,
    reports: Seq<Result<Text, Text>>,
)
    requires
        is_open(s.history),
    ensures
        is_open(activities_done(s, pending, reports).engine.history),
    decreases pending.len(),
{
    if pending.len() > 0 {
        lemma_activities_done_open(s, pending.drop_last(), reports.drop_last());
    }
}

/// What one workflow task does to the log.
pub(crate) proof fn lemma_task_log<
    T: Coroutine<T, ()>,
    R: Coroutine<T, Result<Payload, String>>,
    W: Workflow<T, R>,
    F: Fn(Payload) -> Result<Payload, String>,
>(wf: W, s: Engine<F>, attempt: u32, e: Engine<F>, out: Option<RunOutcomeView>)
    requires
        task::<T, R, W, F>(wf, s, attempt, e, out),
    ensures
        extends(s, e),
        is_open(s.history) ==> log_tells(e.history, out),
{
    lemma_extends_refl(s);
    if s.can_tick(1) {
        let begun = task_begun(s, attempt);
        let started = EventView::WorkflowTaskStarted { attempt };
        lemma_ticked_extends(s, 1);
        lemma_wrote_extends(s.ticked(1), started);
        lemma_extends_trans(s, s.ticked(1), begun);
        let pass = choose|pass: PassView|
            {
                &&& #[trigger] replays::<T, R, W>(wf, begun.history, pass)
                &&& task_ends(begun, attempt, pass, e, out)
            };
        lemma_task_ends_log(begun, attempt, pass, e, out);
        lemma_extends_trans(s, begun, e);
    }
}

pub(crate) proof fn lemma_task_ends_log<F: Fn(Payload) -> Result<Payload, String>>(
    s: Engine<F>,
    attempt: u32,
    pass: PassView,
    e: Engine<F>,
    out: Option<RunOutcomeView>,
)
    requires
        task_ends(s, attempt, pass, e, out),
        is_open(s.history),
    ensures
        extends(s, e),
        log_tells(e.history, out),
{
    let recorded = commands_of(s.history);
    let lines = task_lines(attempt, recorded.len(), pass);
    let t = s.traced(lines);
    lemma_traced_extends(s, lines);
    if !pass.deadlocked && agree(pass.commands, recorded) {
        let fresh = fresh_commands(pass.commands, recorded);
        let p = persisted(t, fresh);
        lemma_persisted_extends(t, fresh);
        lemma_persisted_open(t, fresh);
        lemma_extends_trans(s, t, p);
        if pass.commands.len() >= recorded.len() {
            let pending = pending_of(p.history, p.worker.completion_order);
            if pass.poll is Ready && !has_activity(pending) {
                lemma_wrote_extends(p, ending(pass.poll->0));
            } else {
                let reports = lemma_worlds_turn(t, recorded, attempt, pass, e, out);
                lemma_advanced_extends(p, reports);
                lemma_activities_done_open(p, pending, reports);
            }
            lemma_extends_trans(s, p, e);
        }
    }
}

/// What the activities report in the world's turn of a task.
pub(crate) proof fn lemma_worlds_turn<F: Fn(Payload) -> Result<Payload, String>>(
    s: Engine<F>,
    recorded: Seq<CommandView>,
    attempt: u32,
    pass: PassView,
    e: Engine<F>,
    out: Option<RunOutcomeView>,
) -> (reports: Seq<Result<Text, Text>>)
    requires
        task_continues(s, recorded, attempt, pass, e, out),
        pass.commands.len() >= recorded.len(),
        ({
            let p = persisted(s, fresh_commands(pass.commands, recorded));
            pass.poll is Pending || has_activity(
                pending_of(p.history, p.worker.completion_order),
            )
        }),
    ensures
        ({
            let p = persisted(s, fresh_commands(pass.commands, recorded));
            let pending = pending_of(p.history, p.worker.completion_order);
            &&& reports_possible(p, pending, reports)
            &&& e == advanced(p, reports).0
            &&& out == after_advance(advanced(p, reports).1, attempt)
        }),
{
    let p = persisted(s, fresh_commands(pass.commands, recorded));
    let pending = pending_of(p.history, p.worker.completion_order);
    choose|reports: Seq<Result<Text, Text>>|
        {
            &&& #[trigger] reports_possible(p, pending, reports)
            &&& e == advanced(p, reports).0
            &&& out == after_advance(advanced(p, reports).1, attempt)
        }
}

pub(crate) proof fn lemma_tasks_made_log<
    T: Coroutine<T, ()>,
    R: Coroutine<T, Result<Payload, String>>,
    W: Workflow<T, R>,
    F: Fn(Payload) -> Result<Payload, String>,
>(wf: W, s: Engine<F>, attempt: u32, e: Engine<F>)
    requires
        tasks_made::<T, R, W, F>(wf, s, attempt, e),
        is_open(s.history),
    ensures
        extends(s, e),
        is_open(e.history),
    decreases attempt,
{
    if attempt <= 1 {
        lemma_extends_refl(s);
    } else {
        let before = (attempt - 1) as u32;
        let mid = choose|mid: Engine<F>|
            {
                &&& tasks_made::<T, R, W, F>(wf, s, before, mid)
                &&& #[trigger] task::<T, R, W, F>(wf, mid, before, e, None)
            };
        lemma_tasks_made_log::<T, R, W, F>(wf, s, before, mid);
        lemma_task_log::<T, R, W, F>(wf, mid, before, e, None);
        lemma_extends_trans(s, mid, e);
    }
}

/// A run only ever adds: the log it was given is a prefix of the log it leaves,
/// and so is the execution log. Ids go on counting, and timestamps that never
/// decreased before still do not, even if another worker wrote them.
pub proof fn law_a_run_only_adds<
    T: Coroutine<T, ()>,
    R: Coroutine<T, Result<Payload, String>>,
    W: Workflow<T, R>,
    F: Fn(Payload) -> Result<Payload, String>,
>(wf: W, s: Engine<F>, e: Engine<F>, out: RunOutcomeView)
    requires
        ran::<T, R, W, F>(wf, s, e, out),
    ensures
        s.history.is_prefix_of(e.history),
        s.worker.registry.executions.is_prefix_of(e.worker.registry.executions),
        s.worker.registry.fns == e.worker.registry.fns,
        s.worker.clock_ms <= e.worker.clock_ms,
        times_in_order(s.history) ==> times_in_order(e.history),
        ids_count_up(s.history) && e.history.len() <= u64::MAX ==> ids_count_up(e.history),
{
    lemma_extends_refl(s);
    if is_open(s.history) {
        let s0 = s.resumed();
        let (attempt, mid) = choose|attempt: u32, mid: Engine<F>|
            {
                &&& attempt >= 1
                &&& #[trigger] tasks_made::<T, R, W, F>(wf, s0, attempt, mid)
                &&& #[trigger] task::<T, R, W, F>(wf, mid, attempt, e, Some(out))
            };
        lemma_tasks_made_log::<T, R, W, F>(wf, s0, attempt, mid);
        lemma_task_log::<T, R, W, F>(wf, mid, attempt, e, Some(out));
        lemma_extends_trans(s0, mid, e);
        if times_in_order(s.history) {
            assert forall|i: int| 0 <= i < s0.history.len() implies (
            #[trigger] s0.history[i]).time_ms <= s0.worker.clock_ms by {
                assert(s.history[i].time_ms <= s.history[s.history.len() - 1].time_ms);
            }
        }
    }
}

/// The log and the outcome agree: a run reports completion or failure exactly
/// when the log it leaves is closed with that result. After any other outcome
/// the log is open, and another run can go on.
pub proof fn law_the_log_tells_the_outcome<
    T: Coroutine<T, ()>,
    R: Coroutine<T, Result<Payload, String>>,
    W: Workflow<T, R>,
    F: Fn(Payload) -> Result<Payload, String>,
>(wf: W, s: Engine<F>, e: Engine<F>, out: RunOutcomeView)
    requires
        ran::<T, R, W, F>(wf, s, e, out),
    ensures
        final_result_of(e.history) == match out {
            RunOutcomeView::Completed(result) => Some(Ok::<Text, Text>(result)),
            RunOutcomeView::Failed(failure) => Some(Err::<Text, Text>(failure)),
            _ => None,
        },
{
    if is_open(s.history) {
        let s0 = s.resumed();
        let (attempt, mid) = choose|attempt: u32, mid: Engine<F>|
            {
                &&& attempt >= 1
                &&& #[trigger] tasks_made::<T, R, W, F>(wf, s0, attempt, mid)
                &&& #[trigger] task::<T, R, W, F>(wf, mid, attempt, e, Some(out))
            };
        lemma_tasks_made_log::<T, R, W, F>(wf, s0, attempt, mid);
        lemma_task_log::<T, R, W, F>(wf, mid, attempt, e, Some(out));
    }
}

/// A closed log is immutable: a run on it changes nothing, runs nothing, and
/// gives the recorded result.
pub proof fn law_a_closed_log_is_final<
    T: Coroutine<T, ()>,
    R: Coroutine<T, Result<Payload, String>>,
    W: Workflow<T, R>,
    F: Fn(Payload) -> Result<Payload, String>,
>(wf: W, s: Engine<F>, e: Engine<F>, out: RunOutcomeView, result: Result<Text, Text>)
    requires
        ran::<T, R, W, F>(wf, s, e, out),
        final_result_of(s.history) == Some(result),
    ensures
        e == s,
        out == match result {
            Ok(r) => RunOutcomeView::Completed(r),
            Err(f) => RunOutcomeView::Failed(f),
        },
{
}

} // verus!
