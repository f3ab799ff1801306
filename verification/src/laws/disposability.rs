//! The log is the durable state. Everything else is disposable.

use vstd::prelude::*;

use crate::command::CommandView;
use crate::coroutine::{Coroutine, Workflow};
use crate::driver::{CrashPolicy, Progress, RunOutcomeView, ACTIVITY_LATENCY_MS};
use crate::engine::{
    activities_done, advanced, agree, diverge_at, earliest_timer, ending, fresh_commands,
    has_activity, pending_of, persisted, ran, reports_possible, task, task_begun, task_continues,
    task_ends, task_lines, tasks_made, will_run, Engine,
};
use crate::history::{
    before_last_task, commands_of, final_result_of, follows_idle_task, input_of, is_resolved,
    last_time_of, markers_of, results_of, seed_of, without_idle_tasks, EventView, HistoryEventView,
    Payload,
};
use crate::laws::determinism::{deterministic_workflow, law_replay_is_a_function_of_the_history};
use crate::laws::identity::law_divergence_has_one_place;
use crate::laws::log::{is_open, lemma_tasks_made_log, lemma_worlds_turn};
use crate::laws::repeatability::{
    deterministic_activities, lemma_first_tasks, lemma_last_task, lemma_one_report,
    lemma_run_ends_once, lemma_tasks_repeat,
};
use crate::replay::{owes_activity, owes_timer, repeats_idle_task, replays, PassView};
use crate::text::Text;
use crate::workflow::{fresh_ctx, muted_at};

verus! {

/// Two events say the same. Only the number of the attempt may differ.
pub open spec fn same_event(a: HistoryEventView, b: HistoryEventView) -> bool {
    &&& a.event_id == b.event_id
    &&& a.time_ms == b.time_ms
    &&& a.attrs == b.attrs || (a.attrs is WorkflowTaskStarted && b.attrs is WorkflowTaskStarted)
}

/// Two logs say the same.
pub open spec fn same_log(a: Seq<HistoryEventView>, b: Seq<HistoryEventView>) -> bool {
    &&& a.len() == b.len()
    &&& forall|i: int| 0 <= i < a.len() ==> same_event(#[trigger] a[i], b[i])
}

/// Two workers that do not crash face the same situation: logs that say the same,
/// the same time, the same activities and the same completion order. What they
/// remember of earlier runs may differ.
pub open spec fn same_situation<F>(a: Engine<F>, b: Engine<F>) -> bool {
    &&& same_log(a.history, b.history)
    &&& a.worker.clock_ms == b.worker.clock_ms
    &&& a.worker.registry.fns == b.worker.registry.fns
    &&& a.worker.completion_order == b.worker.completion_order
    &&& a.worker.crash == CrashPolicy::Never
    &&& b.worker.crash == CrashPolicy::Never
}

/// Two workers have executed the same activities.
pub open spec fn same_work<F>(a: Engine<F>, b: Engine<F>) -> bool {
    a.worker.registry.executions == b.worker.registry.executions
}

pub(crate) proof fn lemma_same_log(a: Seq<HistoryEventView>, b: Seq<HistoryEventView>)
    requires
        same_log(a, b),
    ensures
        commands_of(a) == commands_of(b),
        results_of(a) == results_of(b),
        markers_of(a) == markers_of(b),
        input_of(a) == input_of(b),
        seed_of(a) == seed_of(b),
        last_time_of(a) == last_time_of(b),
        final_result_of(a) == final_result_of(b),
        muted_at(a) == muted_at(b),
        follows_idle_task(a) == follows_idle_task(b),
    decreases a.len(), 1int,
{
    lemma_same_tasks(a, b);
    if a.len() == 0 {
        assert(a =~= b);
    } else {
        assert(same_event(a[0], b[0]));
        assert(same_event(a[a.len() - 1], b[b.len() - 1]));
        let x = a.drop_last();
        let y = b.drop_last();
        assert forall|i: int| 0 <= i < x.len() implies same_event(#[trigger] x[i], y[i]) by {
            assert(same_event(a[i], b[i]));
        }
        lemma_same_log(x, y);
    }
}

/// The logs before the last task say the same.
proof fn lemma_same_last_task(a: Seq<HistoryEventView>, b: Seq<HistoryEventView>)
    requires
        same_log(a, b),
    ensures
        match (before_last_task(a), before_last_task(b)) {
            (Some(x), Some(y)) => same_log(x, y) && x.len() < a.len(),
            (None, None) => true,
            _ => false,
        },
    decreases a.len(),
{
    if a.len() > 0 {
        assert(same_event(a[a.len() - 1], b[b.len() - 1]));
        let x = a.drop_last();
        let y = b.drop_last();
        assert forall|i: int| 0 <= i < x.len() implies same_event(#[trigger] x[i], y[i]) by {
            assert(same_event(a[i], b[i]));
        }
        lemma_same_last_task(x, y);
    }
}

/// The logs without the task starts at their ends say the same.
proof fn lemma_same_busy_log(a: Seq<HistoryEventView>, b: Seq<HistoryEventView>)
    requires
        same_log(a, b),
    ensures
        same_log(without_idle_tasks(a), without_idle_tasks(b)),
        without_idle_tasks(a).len() <= a.len(),
    decreases a.len(),
{
    if a.len() > 0 {
        assert(same_event(a[a.len() - 1], b[b.len() - 1]));
        let x = a.drop_last();
        let y = b.drop_last();
        assert forall|i: int| 0 <= i < x.len() implies same_event(#[trigger] x[i], y[i]) by {
            assert(same_event(a[i], b[i]));
        }
        lemma_same_busy_log(x, y);
    }
}

proof fn lemma_same_tasks(a: Seq<HistoryEventView>, b: Seq<HistoryEventView>)
    requires
        same_log(a, b),
    ensures
        muted_at(a) == muted_at(b),
        follows_idle_task(a) == follows_idle_task(b),
    decreases a.len(), 0int,
{
    lemma_same_last_task(a, b);
    if let Some(g) = before_last_task(a) {
        let k = before_last_task(b)->0;
        if g.len() > 0 {
            assert(same_event(g[g.len() - 1], k[k.len() - 1]));
        }
        lemma_same_busy_log(g, k);
        let x = without_idle_tasks(g);
        let y = without_idle_tasks(k);
        lemma_same_last_task(x, y);
        if let Some(f) = before_last_task(x) {
            lemma_same_log(f, before_last_task(y)->0);
        }
    }
}

proof fn lemma_wrote<F>(a: Engine<F>, b: Engine<F>, x: EventView, y: EventView)
    requires
        same_situation(a, b),
        x == y || (x is WorkflowTaskStarted && y is WorkflowTaskStarted),
    ensures
        same_situation(a.wrote(x), b.wrote(y)),
{
    let h = a.wrote(x).history;
    let g = b.wrote(y).history;
    assert forall|i: int| 0 <= i < h.len() implies same_event(#[trigger] h[i], g[i]) by {
        if i < a.history.len() {
            assert(same_event(a.history[i], b.history[i]));
        }
    }
}

proof fn lemma_persisted<F>(a: Engine<F>, b: Engine<F>, fresh: Seq<CommandView>)
    requires
        same_situation(a, b),
    ensures
        same_situation(persisted(a, fresh), persisted(b, fresh)),
    decreases fresh.len(),
{
    if fresh.len() > 0 {
        let rest = fresh.drop_last();
        lemma_persisted(a, b, rest);
        let e = fresh.last().to_event();
        lemma_wrote(persisted(a, rest), persisted(b, rest), e, e);
    }
}

/// The turns of the pending commands lead to the same situation, unless one of
/// the two workers runs out of room.
proof fn lemma_activities_done<F: Fn(Payload) -> Result<Payload, String>>(
    a: Engine<F>,
    b: Engine<F>,
    pending: Seq<CommandView>,
    r1: Seq<Result<Text, Text>>,
    r2: Seq<Result<Text, Text>>,
)
    requires
        deterministic_activities(a.worker.registry.fns),
        same_situation(a, b),
        reports_possible(a, pending, r1),
        reports_possible(b, pending, r2),
    ensures
        ({
            let x = activities_done(a, pending, r1);
            let y = activities_done(b, pending, r2);
            ||| x.stop == Some(Progress::Exhausted)
            ||| y.stop == Some(Progress::Exhausted)
            ||| {
                &&& x.stop is None
                &&& y.stop is None
                &&& x.made == y.made
                &&& same_situation(x.engine, y.engine)
                &&& same_work(a, b) ==> same_work(x.engine, y.engine)
            }
        }),
    decreases pending.len(),
{
    if pending.len() > 0 {
        let rest = pending.drop_last();
        let p1 = r1.drop_last();
        let p2 = r2.drop_last();
        lemma_activities_done(a, b, rest, p1, p2);
        let x = activities_done(a, rest, p1);
        let y = activities_done(b, rest, p2);
        if x.stop is None && y.stop is None {
            if let CommandView::ScheduleActivity { seq, activity_type, input } = pending.last() {
                if x.engine.can_run_activity() && y.engine.can_run_activity() {
                    assert(will_run(x, pending.last()) && will_run(y, pending.last()));
                    lemma_one_report(
                        a.worker.registry.fns,
                        activity_type,
                        input,
                        r1.last(),
                        r2.last(),
                    );
                    let e = match r1.last() {
                        Ok(result) => EventView::ActivityTaskCompleted { seq, result },
                        Err(failure) => EventView::ActivityTaskFailed { seq, failure },
                    };
                    let x1 = activities_done(a, pending, r1).engine;
                    let y1 = activities_done(b, pending, r2).engine;
                    let before = x.engine.ticked(ACTIVITY_LATENCY_MS);
                    let other = y.engine.ticked(ACTIVITY_LATENCY_MS);
                    lemma_wrote(before, other, e, e);
                    assert(x1.history == before.wrote(e).history);
                    assert(y1.history == other.wrote(e).history);
                }
            }
        }
    }
}

proof fn lemma_same_pending<F>(a: Engine<F>, b: Engine<F>)
    requires
        same_log(a.history, b.history),
        a.worker.completion_order == b.worker.completion_order,
    ensures
        pending_of(a.history, a.worker.completion_order) == pending_of(
            b.history,
            b.worker.completion_order,
        ),
{
    lemma_same_log(a.history, b.history);
    let p = |c: CommandView| c.is_blocking() && !is_resolved(a.history, c.seq());
    let q = |c: CommandView| c.is_blocking() && !is_resolved(b.history, c.seq());
    assert(p =~= q);
}

proof fn lemma_advanced<F: Fn(Payload) -> Result<Payload, String>>(
    a: Engine<F>,
    b: Engine<F>,
    r1: Seq<Result<Text, Text>>,
    r2: Seq<Result<Text, Text>>,
)
    requires
        deterministic_activities(a.worker.registry.fns),
        same_situation(a, b),
        reports_possible(a, pending_of(a.history, a.worker.completion_order), r1),
        reports_possible(b, pending_of(b.history, b.worker.completion_order), r2),
    ensures
        ({
            let (e1, p1) = advanced(a, r1);
            let (e2, p2) = advanced(b, r2);
            ||| p1 is Exhausted
            ||| p2 is Exhausted
            ||| p1 == p2 && same_situation(e1, e2) && (same_work(a, b) ==> same_work(e1, e2))
        }),
{
    lemma_same_pending(a, b);
    let pending = pending_of(a.history, a.worker.completion_order);
    lemma_activities_done(a, b, pending, r1, r2);
    let x = activities_done(a, pending, r1);
    let y = activities_done(b, pending, r2);
    if x.stop is None && y.stop is None && !x.made {
        if let Some((ms, seq)) = earliest_timer(pending) {
            if x.engine.can_tick(ms) {
                let e = EventView::TimerFired { seq };
                lemma_wrote(x.engine.ticked(ms), y.engine.ticked(ms), e, e);
            }
        }
    }
}

proof fn lemma_task_continues<F: Fn(Payload) -> Result<Payload, String>>(
    a: Engine<F>,
    b: Engine<F>,
    recorded: Seq<CommandView>,
    n1: u32,
    n2: u32,
    pass: PassView,
    e1: Engine<F>,
    o1: Option<RunOutcomeView>,
    e2: Engine<F>,
    o2: Option<RunOutcomeView>,
)
    requires
        deterministic_activities(a.worker.registry.fns),
        same_situation(a, b),
        task_continues(a, recorded, n1, pass, e1, o1),
        task_continues(b, recorded, n2, pass, e2, o2),
        !(o1 matches Some(RunOutcomeView::Exhausted)),
        !(o2 matches Some(RunOutcomeView::Exhausted)),
    ensures
        o1 == o2,
        same_situation(e1, e2),
        same_work(a, b) ==> same_work(e1, e2),
{
    let fresh = fresh_commands(pass.commands, recorded);
    let p1 = persisted(a, fresh);
    let p2 = persisted(b, fresh);
    lemma_persisted(a, b, fresh);
    lemma_persisted_fns(a, fresh);
    lemma_persisted_fns(b, fresh);
    if pass.commands.len() >= recorded.len() {
        lemma_same_pending(p1, p2);
        let pending = pending_of(p1.history, p1.worker.completion_order);
        if pass.poll is Ready && !has_activity(pending) {
            let e = ending(pass.poll->0);
            lemma_wrote(p1, p2, e, e);
        } else {
            let r1 = lemma_worlds_turn(a, recorded, n1, pass, e1, o1);
            let r2 = lemma_worlds_turn(b, recorded, n2, pass, e2, o2);
            lemma_advanced(p1, p2, r1, r2);
        }
    }
}

proof fn lemma_task_ends<F: Fn(Payload) -> Result<Payload, String>>(
    a: Engine<F>,
    b: Engine<F>,
    n1: u32,
    n2: u32,
    pass: PassView,
    e1: Engine<F>,
    o1: Option<RunOutcomeView>,
    e2: Engine<F>,
    o2: Option<RunOutcomeView>,
)
    requires
        deterministic_activities(a.worker.registry.fns),
        same_situation(a, b),
        task_ends(a, n1, pass, e1, o1),
        task_ends(b, n2, pass, e2, o2),
        !(o1 matches Some(RunOutcomeView::Exhausted)),
        !(o2 matches Some(RunOutcomeView::Exhausted)),
    ensures
        o1 == o2,
        same_situation(e1, e2),
        same_work(a, b) ==> same_work(e1, e2),
{
    lemma_same_log(a.history, b.history);
    let recorded = commands_of(a.history);
    let t1 = a.traced(task_lines(n1, recorded.len(), pass));
    let t2 = b.traced(task_lines(n2, recorded.len(), pass));
    if !pass.deadlocked {
        if agree(pass.commands, recorded) {
            lemma_task_continues(t1, t2, recorded, n1, n2, pass, e1, o1, e2, o2);
        } else {
            let i = choose|i: int|
                {
                    &&& #[trigger] diverge_at(pass.commands, recorded, i)
                    &&& e1 == t1
                    &&& o1 == Some(
                        RunOutcomeView::NonDeterminism {
                            index: i as usize,
                            expected: recorded[i].describe(),
                            actual: pass.commands[i].describe(),
                        },
                    )
                };
            let j = choose|j: int|
                {
                    &&& #[trigger] diverge_at(pass.commands, recorded, j)
                    &&& e2 == t2
                    &&& o2 == Some(
                        RunOutcomeView::NonDeterminism {
                            index: j as usize,
                            expected: recorded[j].describe(),
                            actual: pass.commands[j].describe(),
                        },
                    )
                };
            law_divergence_has_one_place(pass.commands, recorded, i, j);
        }
    }
}

proof fn lemma_persisted_fns<F>(s: Engine<F>, fresh: Seq<CommandView>)
    ensures
        persisted(s, fresh).worker.registry == s.worker.registry,
    decreases fresh.len(),
{
    if fresh.len() > 0 {
        lemma_persisted_fns(s, fresh.drop_last());
    }
}

/// Logs that say the same yield the same pass.
proof fn lemma_same_pass<
    T: Coroutine<T, ()>,
    R: Coroutine<T, Result<Payload, String>>,
    W: Workflow<T, R>,
>(
    wf: W,
    g: Seq<HistoryEventView>,
    h: Seq<HistoryEventView>,
    p1: PassView,
    p2: PassView,
)
    requires
        deterministic_workflow::<T, R, W>(wf),
        same_log(g, h),
        replays::<T, R, W>(wf, g, p1),
        replays::<T, R, W>(wf, h, p2),
    ensures
        p1 == p2,
{
    lemma_same_log(g, h);
    assert(fresh_ctx::<T::Obs>(g) == fresh_ctx::<T::Obs>(h));
    assert(repeats_idle_task(g, p2) == repeats_idle_task(h, p2)) by {
        assert(owes_activity(g) == owes_activity(h));
        assert(owes_timer(g) == owes_timer(h));
    }
    assert(replays::<T, R, W>(wf, g, p2));
    law_replay_is_a_function_of_the_history::<T, R, W>(wf, g, p1, p2);
}

proof fn lemma_task<
    T: Coroutine<T, ()>,
    R: Coroutine<T, Result<Payload, String>>,
    W: Workflow<T, R>,
    F: Fn(Payload) -> Result<Payload, String>,
>(
    wf: W,
    a: Engine<F>,
    b: Engine<F>,
    n1: u32,
    n2: u32,
    e1: Engine<F>,
    o1: Option<RunOutcomeView>,
    e2: Engine<F>,
    o2: Option<RunOutcomeView>,
)
    requires
        deterministic_workflow::<T, R, W>(wf),
        deterministic_activities(a.worker.registry.fns),
        same_situation(a, b),
        task::<T, R, W, F>(wf, a, n1, e1, o1),
        task::<T, R, W, F>(wf, b, n2, e2, o2),
        !(o1 matches Some(RunOutcomeView::Exhausted)),
        !(o2 matches Some(RunOutcomeView::Exhausted)),
    ensures
        o1 == o2,
        same_situation(e1, e2),
        same_work(a, b) ==> same_work(e1, e2),
{
    let x = task_begun(a, n1);
    let y = task_begun(b, n2);
    lemma_wrote(
        a.ticked(1),
        b.ticked(1),
        EventView::WorkflowTaskStarted { attempt: n1 },
        EventView::WorkflowTaskStarted { attempt: n2 },
    );
    let p1 = choose|pass: PassView|
        {
            &&& #[trigger] replays::<T, R, W>(wf, x.history, pass)
            &&& task_ends(x, n1, pass, e1, o1)
        };
    let p2 = choose|pass: PassView|
        {
            &&& #[trigger] replays::<T, R, W>(wf, y.history, pass)
            &&& task_ends(y, n2, pass, e2, o2)
        };
    lemma_same_pass::<T, R, W>(wf, x.history, y.history, p1, p2);
    lemma_task_ends(x, y, n1, n2, p1, e1, o1, e2, o2);
}

proof fn lemma_tasks<
    T: Coroutine<T, ()>,
    R: Coroutine<T, Result<Payload, String>>,
    W: Workflow<T, R>,
    F: Fn(Payload) -> Result<Payload, String>,
>(wf: W, a: Engine<F>, b: Engine<F>, n: u32, e1: Engine<F>, e2: Engine<F>)
    requires
        deterministic_workflow::<T, R, W>(wf),
        deterministic_activities(a.worker.registry.fns),
        same_situation(a, b),
        tasks_made::<T, R, W, F>(wf, a, n, e1),
        tasks_made::<T, R, W, F>(wf, b, n, e2),
        is_open(a.history),
        is_open(b.history),
    ensures
        same_situation(e1, e2),
        same_work(a, b) ==> same_work(e1, e2),
        e1.worker.registry.fns == a.worker.registry.fns,
    decreases n,
{
    if n > 1 {
        let k = (n - 1) as u32;
        let m1 = lemma_last_task::<T, R, W, F>(wf, a, n, e1);
        let m2 = lemma_last_task::<T, R, W, F>(wf, b, n, e2);
        lemma_tasks::<T, R, W, F>(wf, a, b, k, m1, m2);
        lemma_task::<T, R, W, F>(wf, m1, m2, k, k, e1, None, e2, None);
        lemma_tasks_made_log::<T, R, W, F>(wf, a, n, e1);
    }
}

/// A run that ended cannot have gone on elsewhere.
proof fn lemma_ends_once<
    T: Coroutine<T, ()>,
    R: Coroutine<T, Result<Payload, String>>,
    W: Workflow<T, R>,
    F: Fn(Payload) -> Result<Payload, String>,
>(
    wf: W,
    a: Engine<F>,
    b: Engine<F>,
    n: u32,
    mid: Engine<F>,
    e: Engine<F>,
    out: RunOutcomeView,
    more: u32,
    later: Engine<F>,
)
    requires
        deterministic_workflow::<T, R, W>(wf),
        deterministic_activities(a.worker.registry.fns),
        same_situation(a, b),
        is_open(a.history),
        is_open(b.history),
        n >= 1,
        tasks_made::<T, R, W, F>(wf, a, n, mid),
        task::<T, R, W, F>(wf, mid, n, e, Some(out)),
        !(out is Exhausted),
        tasks_made::<T, R, W, F>(wf, b, more, later),
    ensures
        more <= n,
{
    if more > n {
        let next = (n + 1) as u32;
        let upto = lemma_first_tasks::<T, R, W, F>(wf, b, next, more, later);
        let before = lemma_last_task::<T, R, W, F>(wf, b, next, upto);
        assert((next - 1) as u32 == n);
        lemma_tasks::<T, R, W, F>(wf, a, b, n, mid, before);
        lemma_task::<T, R, W, F>(wf, mid, before, n, n, e, Some(out), upto, None);
    }
}

/// The log is the durable state, and everything else is disposable: two workers
/// that do not crash, with the same activities and completion order, on logs that
/// say the same, drive a deterministic workflow to the same end and leave logs
/// that say the same. What they executed, traced or counted before does not
/// matter, as long as neither runs out of room.
pub proof fn law_everything_but_the_log_is_disposable<
    T: Coroutine<T, ()>,
    R: Coroutine<T, Result<Payload, String>>,
    W: Workflow<T, R>,
    F: Fn(Payload) -> Result<Payload, String>,
>(
    wf: W,
    a: Engine<F>,
    e1: Engine<F>,
    o1: RunOutcomeView,
    b: Engine<F>,
    e2: Engine<F>,
    o2: RunOutcomeView,
)
    requires
        deterministic_workflow::<T, R, W>(wf),
        deterministic_activities(a.worker.registry.fns),
        same_situation(a.resumed(), b.resumed()),
        ran::<T, R, W, F>(wf, a, e1, o1),
        ran::<T, R, W, F>(wf, b, e2, o2),
        !(o1 is Exhausted),
        !(o2 is Exhausted),
    ensures
        o1 == o2,
        same_log(e1.history, e2.history),
        same_work(a, b) ==> same_work(e1, e2),
{
    let s = a.resumed();
    let t = b.resumed();
    lemma_same_log(s.history, t.history);
    if is_open(a.history) {
        let (n1, m1) = choose|attempt: u32, mid: Engine<F>|
            {
                &&& attempt >= 1
                &&& #[trigger] tasks_made::<T, R, W, F>(wf, s, attempt, mid)
                &&& #[trigger] task::<T, R, W, F>(wf, mid, attempt, e1, Some(o1))
            };
        let (n2, m2) = choose|attempt: u32, mid: Engine<F>|
            {
                &&& attempt >= 1
                &&& #[trigger] tasks_made::<T, R, W, F>(wf, t, attempt, mid)
                &&& #[trigger] task::<T, R, W, F>(wf, mid, attempt, e2, Some(o2))
            };
        lemma_ends_once::<T, R, W, F>(wf, s, t, n1, m1, e1, o1, n2, m2);
        lemma_ends_once::<T, R, W, F>(wf, t, s, n2, m2, e2, o2, n1, m1);
        lemma_tasks::<T, R, W, F>(wf, s, t, n1, m1, m2);
        lemma_task::<T, R, W, F>(wf, m1, m2, n1, n2, e1, Some(o1), e2, Some(o2));
    }
}

/// `j` tasks after the worker was replaced, the situation is the one that the
/// first worker would be in.
proof fn lemma_replaced<
    T: Coroutine<T, ()>,
    R: Coroutine<T, Result<Payload, String>>,
    W: Workflow<T, R>,
    F: Fn(Payload) -> Result<Payload, String>,
>(
    wf: W,
    a: Engine<F>,
    k: u32,
    mid: Engine<F>,
    b: Engine<F>,
    j: nat,
    x: Engine<F>,
    y: Engine<F>,
)
    requires
        deterministic_workflow::<T, R, W>(wf),
        deterministic_activities(a.worker.registry.fns),
        is_open(a.history),
        k >= 1,
        k + j <= u32::MAX,
        tasks_made::<T, R, W, F>(wf, a, k, mid),
        same_situation(mid, b),
        tasks_made::<T, R, W, F>(wf, a, (k + j) as u32, x),
        tasks_made::<T, R, W, F>(wf, b, (1 + j) as u32, y),
    ensures
        same_situation(x, y),
        same_work(mid, b) ==> same_work(x, y),
        x.worker.registry.fns == a.worker.registry.fns,
    decreases j,
{
    lemma_tasks_made_log::<T, R, W, F>(wf, a, (k + j) as u32, x);
    if j == 0 {
        lemma_tasks_repeat::<T, R, W, F>(wf, a, k, mid, x);
    } else {
        let i = (j - 1) as nat;
        let x0 = lemma_last_task::<T, R, W, F>(wf, a, (k + j) as u32, x);
        let y0 = lemma_last_task::<T, R, W, F>(wf, b, (1 + j) as u32, y);
        assert((k + i) as u32 == ((k + j) as u32 - 1) as u32);
        assert((1 + i) as u32 == ((1 + j) as u32 - 1) as u32);
        lemma_replaced::<T, R, W, F>(wf, a, k, mid, b, i, x0, y0);
        lemma_task::<T, R, W, F>(
            wf,
            x0,
            y0,
            (k + i) as u32,
            (1 + i) as u32,
            x,
            None,
            y,
            None,
        );
    }
}

/// The last task of a run.
proof fn lemma_last_of_run<
    T: Coroutine<T, ()>,
    R: Coroutine<T, Result<Payload, String>>,
    W: Workflow<T, R>,
    F: Fn(Payload) -> Result<Payload, String>,
>(wf: W, s: Engine<F>, e: Engine<F>, out: RunOutcomeView) -> (r: (u32, Engine<F>))
    requires
        ran::<T, R, W, F>(wf, s, e, out),
        is_open(s.history),
    ensures
        r.0 >= 1,
        tasks_made::<T, R, W, F>(wf, s.resumed(), r.0, r.1),
        task::<T, R, W, F>(wf, r.1, r.0, e, Some(out)),
{
    choose|attempt: u32, mid: Engine<F>|
        {
            &&& attempt >= 1
            &&& #[trigger] tasks_made::<T, R, W, F>(wf, s.resumed(), attempt, mid)
            &&& #[trigger] task::<T, R, W, F>(wf, mid, attempt, e, Some(out))
        }
}

/// Two rows of tasks that end runs, one from `s` through `mid` and one from `t`, end
/// alike.
proof fn lemma_ends_meet<
    T: Coroutine<T, ()>,
    R: Coroutine<T, Result<Payload, String>>,
    W: Workflow<T, R>,
    F: Fn(Payload) -> Result<Payload, String>,
>(
    wf: W,
    s: Engine<F>,
    k: u32,
    mid: Engine<F>,
    n1: u32,
    m1: Engine<F>,
    e1: Engine<F>,
    o1: RunOutcomeView,
    t: Engine<F>,
    n2: u32,
    m2: Engine<F>,
    e2: Engine<F>,
    o2: RunOutcomeView,
)
    requires
        deterministic_workflow::<T, R, W>(wf),
        deterministic_activities(s.worker.registry.fns),
        is_open(s.history),
        is_open(mid.history),
        is_open(t.history),
        mid.worker.registry.fns == s.worker.registry.fns,
        k >= 1,
        n1 >= 1,
        n2 >= 1,
        tasks_made::<T, R, W, F>(wf, s, k, mid),
        same_situation(mid, t),
        tasks_made::<T, R, W, F>(wf, s, n1, m1),
        task::<T, R, W, F>(wf, m1, n1, e1, Some(o1)),
        tasks_made::<T, R, W, F>(wf, t, n2, m2),
        task::<T, R, W, F>(wf, m2, n2, e2, Some(o2)),
        !(o1 is Exhausted),
        !(o2 is Exhausted),
    ensures
        o1 == o2,
        same_log(e1.history, e2.history),
        same_work(mid, t) ==> same_work(e1, e2),
{
    lemma_run_ends_once::<T, R, W, F>(wf, s, n1, m1, e1, o1, k, mid);
    let i = (n1 - k) as nat;
    let j = (n2 - 1) as nat;
    if j < i {
        let next = (k + j + 1) as u32;
        let upto = lemma_first_tasks::<T, R, W, F>(wf, s, next, n1, m1);
        let x = lemma_last_task::<T, R, W, F>(wf, s, next, upto);
        assert((next - 1) as u32 == (k + j) as u32);
        lemma_replaced::<T, R, W, F>(wf, s, k, mid, t, j, x, m2);
        lemma_task::<T, R, W, F>(wf, x, m2, (k + j) as u32, n2, upto, None, e2, Some(o2));
    } else if j > i {
        let next = (i + 2) as u32;
        let upto = lemma_first_tasks::<T, R, W, F>(wf, t, next, n2, m2);
        let y = lemma_last_task::<T, R, W, F>(wf, t, next, upto);
        assert((next - 1) as u32 == (1 + i) as u32);
        lemma_replaced::<T, R, W, F>(wf, s, k, mid, t, i, m1, y);
        lemma_task::<T, R, W, F>(wf, m1, y, n1, (1 + i) as u32, e1, Some(o1), upto, None);
    } else {
        lemma_replaced::<T, R, W, F>(wf, s, k, mid, t, i, m1, m2);
        lemma_task::<T, R, W, F>(wf, m1, m2, n1, n2, e1, Some(o1), e2, Some(o2));
    }
}

/// Death and recovery between two workflow tasks change nothing. Let a run of a
/// deterministic workflow, with deterministic activities and without crashes, end
/// with `o1`; let `mid` be the engine between two of its tasks. Had another
/// worker taken the log over right there, with the same activities and completion
/// order, it would have come to the same outcome and left a log that says the
/// same, as long as neither runs out of room.
pub proof fn law_a_worker_can_be_replaced_between_tasks<
    T: Coroutine<T, ()>,
    R: Coroutine<T, Result<Payload, String>>,
    W: Workflow<T, R>,
    F: Fn(Payload) -> Result<Payload, String>,
>(
    wf: W,
    a: Engine<F>,
    e1: Engine<F>,
    o1: RunOutcomeView,
    k: u32,
    mid: Engine<F>,
    b: Engine<F>,
    e2: Engine<F>,
    o2: RunOutcomeView,
)
    requires
        deterministic_workflow::<T, R, W>(wf),
        deterministic_activities(a.worker.registry.fns),
        ran::<T, R, W, F>(wf, a, e1, o1),
        is_open(a.history),
        k >= 1,
        tasks_made::<T, R, W, F>(wf, a.resumed(), k, mid),
        same_situation(mid, b.resumed()),
        ran::<T, R, W, F>(wf, b, e2, o2),
        !(o1 is Exhausted),
        !(o2 is Exhausted),
    ensures
        o1 == o2,
        same_log(e1.history, e2.history),
        same_work(mid, b) ==> same_work(e1, e2),
{
    let s = a.resumed();
    let t = b.resumed();
    lemma_tasks_made_log::<T, R, W, F>(wf, s, k, mid);
    lemma_same_log(mid.history, t.history);
    let (n1, m1) = lemma_last_of_run::<T, R, W, F>(wf, a, e1, o1);
    let (n2, m2) = lemma_last_of_run::<T, R, W, F>(wf, b, e2, o2);
    lemma_ends_meet::<T, R, W, F>(wf, s, k, mid, n1, m1, e1, o1, t, n2, m2, e2, o2);
}

} // verus!
