//! A crash after recording, and the recovery from it.

use vstd::prelude::*;

use crate::command::CommandView;
use crate::coroutine::{Coroutine, Workflow};
use crate::driver::{CrashPolicy, Progress, RunOutcomeView};
use crate::engine::{
    activities_done, advanced, after_advance, agree, ending, fresh_commands, has_activity,
    pending_of, persisted, ran, reports_possible, task, task_begun, task_continues, task_ends,
    task_lines, tasks_made, Engine, WorkerView,
};
use crate::history::{
    commands_of, is_resolved, last_time_of, results_of, HistoryEventView, Payload, SeqNo,
};
use crate::laws::determinism::deterministic_workflow;
use crate::laws::disposability::{
    law_a_worker_can_be_replaced_between_tasks, lemma_same_log, same_event, same_log, same_work,
};
use crate::laws::effects::{
    are_pending, lemma_activity_turn, lemma_command_event, lemma_is_pending, lemma_pending_of,
    lemma_result_event,
};
use crate::laws::log::{is_open, lemma_task_log, lemma_tasks_made_log, lemma_worlds_turn};
use crate::laws::repeatability::{
    deterministic_activities, law_a_run_is_repeatable, lemma_last_task,
};
use crate::replay::{replays, PassView};
use crate::text::Text;
use crate::workflow::in_sequence;

verus! {

/// The same engine, with a worker that does not crash.
pub open spec fn calm<F>(s: Engine<F>) -> Engine<F> {
    Engine { worker: WorkerView { crash: CrashPolicy::Never, ..s.worker }, ..s }
}

/// What a worker that died just after recording left behind, in the hands of one
/// that does not crash. Only the trace may differ.
spec fn survived<F>(dead: Engine<F>, s: Engine<F>) -> bool {
    &&& s.history == dead.history
    &&& s.worker.registry == dead.worker.registry
    &&& s.worker.completion_order == dead.worker.completion_order
    &&& s.worker.clock_ms == dead.worker.clock_ms
    &&& s.worker.crash == CrashPolicy::Never
    &&& last_time_of(dead.history) == dead.worker.clock_ms
}

proof fn lemma_persisted_calm<F>(s: Engine<F>, fresh: Seq<CommandView>)
    ensures
        persisted(calm(s), fresh) == calm(persisted(s, fresh)),
        persisted(s, fresh).worker.crash == s.worker.crash,
        persisted(s, fresh).worker.registry == s.worker.registry,
        persisted(s, fresh).worker.completion_order == s.worker.completion_order,
        commands_of(persisted(s, fresh).history) == commands_of(s.history) + fresh,
    decreases fresh.len(),
{
    if fresh.len() == 0 {
        assert(commands_of(s.history) + fresh =~= commands_of(s.history));
    } else {
        let rest = fresh.drop_last();
        lemma_persisted_calm(s, rest);
        let p = persisted(s, rest);
        lemma_command_event(p.history, p.worker.clock_ms, fresh.last());
        assert(commands_of(s.history) + fresh =~= (commands_of(s.history) + rest).push(
            fresh.last(),
        ));
    }
}

/// The turns of the pending commands leave the commands alone, and resolve no
/// command but those.
proof fn lemma_turns_resolve<F>(
    s: Engine<F>,
    pending: Seq<CommandView>,
    reports: Seq<Result<Text, Text>>,
)
    ensures
        ({
            let h = activities_done(s, pending, reports).engine.history;
            &&& commands_of(h) == commands_of(s.history)
            &&& forall|q: SeqNo| #[trigger]
                is_resolved(h, q) ==> is_resolved(s.history, q) || exists|j: int|
                    0 <= j < pending.len() && (#[trigger] pending[j]).seq() == q
        }),
    decreases pending.len(),
{
    if pending.len() > 0 {
        let rest = pending.drop_last();
        let before = activities_done(s, rest, reports.drop_last());
        let a = activities_done(s, pending, reports);
        lemma_turns_resolve(s, rest, reports.drop_last());
        let b = before.engine;
        if let CommandView::ScheduleActivity { seq, activity_type, input } = pending.last() {
            if before.stop is None {
                lemma_activity_turn(b, seq, activity_type, input, reports.last());
                if a.engine.history != b.history {
                    lemma_result_event(
                        b.history,
                        a.engine.worker.clock_ms,
                        a.engine.history.last().attrs,
                        seq,
                    );
                }
            }
        }
        let n = rest.len() as int;
        assert forall|q: SeqNo| #[trigger] is_resolved(a.engine.history, q) implies is_resolved(
            s.history,
            q,
        ) || exists|j: int| 0 <= j < pending.len() && (#[trigger] pending[j]).seq() == q by {
            if is_resolved(b.history, q) {
                if !is_resolved(s.history, q) {
                    let j = choose|j: int| 0 <= j < n && (#[trigger] rest[j]).seq() == q;
                    assert(pending[j].seq() == q);
                }
            } else {
                assert(pending[n].seq() == q);
            }
        }
    }
}

/// Every activity among the pending commands has a result in the log `h`.
spec fn answered(h: Seq<HistoryEventView>, pending: Seq<CommandView>) -> bool {
    forall|i: int|
        0 <= i < pending.len() && (#[trigger] pending[i]) is ScheduleActivity ==> is_resolved(
            h,
            pending[i].seq(),
        )
}

/// Without its crash policy, the worker has the same turns. Where it died after
/// recording the last result, it now goes on.
proof fn lemma_turns_calm<F: Fn(Payload) -> Result<Payload, String>>(
    s: Engine<F>,
    n: usize,
    pending: Seq<CommandView>,
    reports: Seq<Result<Text, Text>>,
)
    requires
        s.worker.crash == CrashPolicy::AfterRecording(n),
        are_pending(s.history, pending),
        reports_possible(s, pending, reports),
    ensures
        ({
            let x = activities_done(s, pending, reports);
            let y = activities_done(calm(s), pending, reports);
            &&& x.engine.worker.crash == s.worker.crash
            &&& match x.stop {
                Some(Progress::Crashed { result_recorded, .. }) => {
                    &&& result_recorded
                    &&& answered(x.engine.history, pending) ==> {
                        &&& y.stop is None
                        &&& y.made
                        &&& survived(x.engine, y.engine)
                        &&& reports_possible(calm(s), pending, reports)
                    }
                },
                _ => {
                    &&& y.stop == x.stop
                    &&& y.made == x.made
                    &&& y.engine == calm(x.engine)
                    &&& reports_possible(calm(s), pending, reports)
                },
            }
        }),
    decreases pending.len(),
{
    if pending.len() > 0 {
        let rest = pending.drop_last();
        let before = reports.drop_last();
        let k = rest.len() as int;
        assert(pending[k] == pending.last());
        assert(forall|j: int| 0 <= j < k ==> #[trigger] rest[j] == pending[j]);
        assert(are_pending(s.history, rest));
        lemma_turns_calm(s, n, rest, before);
        let x = activities_done(s, rest, before);
        let x1 = activities_done(s, pending, reports);
        if x.stop matches Some(Progress::Crashed { .. }) {
            assert(x1 == x);
            if answered(x1.engine.history, pending) {
                assert(answered(x.engine.history, rest)) by {
                    assert forall|i: int|
                        0 <= i < rest.len()
                            && (#[trigger] rest[i]) is ScheduleActivity implies is_resolved(
                        x.engine.history,
                        rest[i].seq(),
                    ) by {
                        assert(pending[i] is ScheduleActivity);
                    }
                }
                if pending.last() is ScheduleActivity {
                    let q = pending[k].seq();
                    lemma_turns_resolve(s, rest, before);
                    assert(is_resolved(x.engine.history, q));
                    assert(!is_resolved(s.history, q));
                    let j = choose|j: int| 0 <= j < k && (#[trigger] rest[j]).seq() == q;
                    assert(pending[j].seq() != pending[k].seq());
                }
            }
        }
    }
}

/// What the world's turn comes to without the crash policy.
proof fn lemma_turn_calm<F: Fn(Payload) -> Result<Payload, String>>(
    p: Engine<F>,
    n: usize,
    reports: Seq<Result<Text, Text>>,
)
    requires
        p.worker.crash == CrashPolicy::AfterRecording(n),
        in_sequence(commands_of(p.history)),
        reports_possible(p, pending_of(p.history, p.worker.completion_order), reports),
    ensures
        ({
            let order = p.worker.completion_order;
            let (e, did) = advanced(p, reports);
            let (f, does) = advanced(calm(p), reports);
            let pending = pending_of(p.history, order);
            &&& e.worker.crash == p.worker.crash
            &&& match did {
                Progress::Crashed { .. } => !has_activity(pending_of(e.history, order)) ==> {
                    &&& does is Made
                    &&& survived(e, f)
                    &&& reports_possible(calm(p), pending, reports)
                },
                _ => {
                    &&& does == did
                    &&& f == calm(e)
                    &&& reports_possible(calm(p), pending, reports)
                },
            }
        }),
{
    let order = p.worker.completion_order;
    let pending = pending_of(p.history, order);
    lemma_pending_of(p.history, order);
    lemma_turns_calm(p, n, pending, reports);
    let x = activities_done(p, pending, reports);
    lemma_turns_resolve(p, pending, reports);
    if x.stop matches Some(Progress::Crashed { .. }) {
        let h = x.engine.history;
        if !has_activity(pending_of(h, order)) {
            assert(answered(h, pending)) by {
                assert forall|i: int|
                    0 <= i < pending.len()
                        && (#[trigger] pending[i]) is ScheduleActivity implies is_resolved(
                    h,
                    pending[i].seq(),
                ) by {
                    let q = pending[i].seq() as int;
                    assert(commands_of(h)[q] == pending[i]);
                    if !is_resolved(h, pending[i].seq()) {
                        lemma_is_pending(h, order, q);
                    }
                }
            }
        }
    }
}

/// A task of a worker with the crash policy, done without it.
proof fn lemma_task_calm<
    T: Coroutine<T, ()>,
    R: Coroutine<T, Result<Payload, String>>,
    W: Workflow<T, R>,
    F: Fn(Payload) -> Result<Payload, String>,
>(wf: W, s: Engine<F>, n: usize, attempt: u32, e: Engine<F>, out: Option<RunOutcomeView>) -> (f:
    Engine<F>)
    requires
        s.worker.crash == CrashPolicy::AfterRecording(n),
        task::<T, R, W, F>(wf, s, attempt, e, out),
        out matches Some(RunOutcomeView::Crashed { .. }) ==> !has_activity(
            pending_of(e.history, s.worker.completion_order),
        ),
    ensures
        e.worker.crash == s.worker.crash,
        match out {
            Some(RunOutcomeView::Crashed { .. }) => {
                &&& task::<T, R, W, F>(
                    wf,
                    calm(s),
                    attempt,
                    f,
                    after_advance(Progress::Made, attempt),
                )
                &&& survived(e, f)
            },
            _ => task::<T, R, W, F>(wf, calm(s), attempt, calm(e), out),
        },
{
    if s.can_tick(1) {
        let begun = task_begun(s, attempt);
        let pass = choose|pass: PassView|
            {
                &&& #[trigger] replays::<T, R, W>(wf, begun.history, pass)
                &&& task_ends(begun, attempt, pass, e, out)
            };
        assert(task_begun(calm(s), attempt) == calm(begun));
        lemma_task_ends_calm(begun, n, attempt, pass, e, out)
    } else {
        calm(e)
    }
}

/// The world's turn of a task, without the crash policy.
proof fn lemma_worlds_turn_calm<F: Fn(Payload) -> Result<Payload, String>>(
    t: Engine<F>,
    n: usize,
    recorded: Seq<CommandView>,
    attempt: u32,
    pass: PassView,
    e: Engine<F>,
    out: Option<RunOutcomeView>,
) -> (f: Engine<F>)
    requires
        t.worker.crash == CrashPolicy::AfterRecording(n),
        recorded == commands_of(t.history),
        in_sequence(pass.commands),
        agree(pass.commands, recorded),
        pass.commands.len() >= recorded.len(),
        task_continues(t, recorded, attempt, pass, e, out),
        ({
            let p = persisted(t, fresh_commands(pass.commands, recorded));
            pass.poll is Pending || has_activity(
                pending_of(p.history, p.worker.completion_order),
            )
        }),
        out matches Some(RunOutcomeView::Crashed { .. }) ==> !has_activity(
            pending_of(e.history, t.worker.completion_order),
        ),
    ensures
        e.worker.crash == t.worker.crash,
        match out {
            Some(RunOutcomeView::Crashed { .. }) => {
                &&& task_continues(
                    calm(t),
                    recorded,
                    attempt,
                    pass,
                    f,
                    after_advance(Progress::Made, attempt),
                )
                &&& survived(e, f)
            },
            _ => task_continues(calm(t), recorded, attempt, pass, calm(e), out),
        },
{
    let fresh = fresh_commands(pass.commands, recorded);
    let p = persisted(t, fresh);
    let pending = pending_of(p.history, p.worker.completion_order);
    lemma_persisted_calm(t, fresh);
    let reports = lemma_worlds_turn(t, recorded, attempt, pass, e, out);
    assert(in_sequence(commands_of(p.history))) by {
        assert forall|i: int| 0 <= i < commands_of(p.history).len() implies (
        #[trigger] commands_of(p.history)[i]).seq() == i by {
            assert(pass.commands[i].seq() == i);
            if i < recorded.len() {
                assert(pass.commands[i].matches(recorded[i]));
            }
        }
    }
    lemma_turn_calm(p, n, reports);
    assert(reports_possible(calm(p), pending, reports));
    advanced(calm(p), reports).0
}

proof fn lemma_task_ends_calm<F: Fn(Payload) -> Result<Payload, String>>(
    s: Engine<F>,
    n: usize,
    attempt: u32,
    pass: PassView,
    e: Engine<F>,
    out: Option<RunOutcomeView>,
) -> (f: Engine<F>)
    requires
        s.worker.crash == CrashPolicy::AfterRecording(n),
        in_sequence(pass.commands),
        task_ends(s, attempt, pass, e, out),
        out matches Some(RunOutcomeView::Crashed { .. }) ==> !has_activity(
            pending_of(e.history, s.worker.completion_order),
        ),
    ensures
        e.worker.crash == s.worker.crash,
        match out {
            Some(RunOutcomeView::Crashed { .. }) => {
                &&& task_ends(calm(s), attempt, pass, f, after_advance(Progress::Made, attempt))
                &&& survived(e, f)
            },
            _ => task_ends(calm(s), attempt, pass, calm(e), out),
        },
{
    let recorded = commands_of(s.history);
    let lines = task_lines(attempt, recorded.len(), pass);
    let t = s.traced(lines);
    assert(calm(s).traced(lines) == calm(t));
    if !pass.deadlocked && agree(pass.commands, recorded) && pass.commands.len()
        >= recorded.len() {
        let fresh = fresh_commands(pass.commands, recorded);
        let p = persisted(t, fresh);
        let pending = pending_of(p.history, p.worker.completion_order);
        lemma_persisted_calm(t, fresh);
        if pass.poll is Ready && !has_activity(pending) {
            assert(calm(p).wrote(ending(pass.poll->0)) == calm(e));
            calm(e)
        } else {
            lemma_worlds_turn_calm(t, n, recorded, attempt, pass, e, out)
        }
    } else {
        calm(e)
    }
}

proof fn lemma_tasks_calm<
    T: Coroutine<T, ()>,
    R: Coroutine<T, Result<Payload, String>>,
    W: Workflow<T, R>,
    F: Fn(Payload) -> Result<Payload, String>,
>(wf: W, s: Engine<F>, n: usize, attempt: u32, e: Engine<F>)
    requires
        s.worker.crash == CrashPolicy::AfterRecording(n),
        tasks_made::<T, R, W, F>(wf, s, attempt, e),
    ensures
        e.worker.crash == s.worker.crash,
        tasks_made::<T, R, W, F>(wf, calm(s), attempt, calm(e)),
    decreases attempt,
{
    if attempt > 1 {
        let before = (attempt - 1) as u32;
        let mid = lemma_last_task::<T, R, W, F>(wf, s, attempt, e);
        lemma_tasks_calm::<T, R, W, F>(wf, s, n, before, mid);
        lemma_task_calm::<T, R, W, F>(wf, mid, n, before, e, None);
    }
}

/// A clean run goes on where the crashed one died. Gives the number of its next
/// task, and the engine then.
proof fn lemma_clean_run_goes_on<
    T: Coroutine<T, ()>,
    R: Coroutine<T, Result<Payload, String>>,
    W: Workflow<T, R>,
    F: Fn(Payload) -> Result<Payload, String>,
>(wf: W, s: Engine<F>, n: usize, e1: Engine<F>, e3: Engine<F>, o3: RunOutcomeView) -> (r: (
    u32,
    Engine<F>,
))
    requires
        deterministic_workflow::<T, R, W>(wf),
        deterministic_activities(s.worker.registry.fns),
        s.worker.crash == CrashPolicy::AfterRecording(n),
        is_open(s.history),
        ran::<T, R, W, F>(
            wf,
            s,
            e1,
            RunOutcomeView::Crashed { after_activity: n, result_recorded: true },
        ),
        !has_activity(pending_of(e1.history, s.worker.completion_order)),
        ran::<T, R, W, F>(wf, calm(s), e3, o3),
        !(o3 is Exhausted),
    ensures
        r.0 >= 1,
        tasks_made::<T, R, W, F>(wf, calm(s).resumed(), r.0, r.1),
        survived(e1, r.1),
        e1.worker.registry.fns == s.worker.registry.fns,
        e1.worker.completion_order == s.worker.completion_order,
{
    let out = RunOutcomeView::Crashed { after_activity: n, result_recorded: true };
    let c = calm(s);
    let s0 = s.resumed();
    let (attempt, mid) = choose|attempt: u32, mid: Engine<F>|
        {
            &&& attempt >= 1
            &&& #[trigger] tasks_made::<T, R, W, F>(wf, s0, attempt, mid)
            &&& #[trigger] task::<T, R, W, F>(wf, mid, attempt, e1, Some(out))
        };
    assert(c.resumed() == calm(s0));
    lemma_tasks_calm::<T, R, W, F>(wf, s0, n, attempt, mid);
    lemma_tasks_made_log::<T, R, W, F>(wf, s0, attempt, mid);
    lemma_task_log::<T, R, W, F>(wf, mid, attempt, e1, Some(out));
    let f = lemma_task_calm::<T, R, W, F>(wf, mid, n, attempt, e1, Some(out));
    if attempt == u32::MAX {
        let end = RunOutcomeView::Exhausted;
        assert(task::<T, R, W, F>(wf, calm(mid), attempt, f, Some(end)));
        assert(ran::<T, R, W, F>(wf, c, f, end));
        law_a_run_is_repeatable::<T, R, W, F>(wf, c, e3, o3, f, end);
        (attempt, f)
    } else {
        let next = (attempt + 1) as u32;
        assert((next - 1) as u32 == attempt);
        assert(task::<T, R, W, F>(wf, calm(mid), (next - 1) as u32, f, None));
        (next, f)
    }
}

/// Recovery ends as a clean run does. Let the first worker die right after it
/// recorded the `n`th activity's result, with no other activity outstanding. Let a
/// fresh worker with the same activities and completion order take the log over.
/// Then it comes to the outcome that the first worker would have come to without
/// the crash, leaves a log that says the same, command by command and result by
/// result, and all in all the same activities were executed, as long as neither
/// runs out of room.
pub proof fn law_recovery_ends_as_a_clean_run<
    T: Coroutine<T, ()>,
    R: Coroutine<T, Result<Payload, String>>,
    W: Workflow<T, R>,
    F: Fn(Payload) -> Result<Payload, String>,
>(
    wf: W,
    s: Engine<F>,
    n: usize,
    e1: Engine<F>,
    b: Engine<F>,
    e2: Engine<F>,
    o2: RunOutcomeView,
    e3: Engine<F>,
    o3: RunOutcomeView,
)
    requires
        deterministic_workflow::<T, R, W>(wf),
        deterministic_activities(s.worker.registry.fns),
        s.worker.crash == CrashPolicy::AfterRecording(n),
        ran::<T, R, W, F>(
            wf,
            s,
            e1,
            RunOutcomeView::Crashed { after_activity: n, result_recorded: true },
        ),
        !has_activity(pending_of(e1.history, s.worker.completion_order)),
        b.history == e1.history,
        b.worker.registry == e1.worker.registry,
        b.worker.completion_order == s.worker.completion_order,
        b.worker.crash == CrashPolicy::Never,
        b.worker.clock_ms <= last_time_of(e1.history),
        ran::<T, R, W, F>(wf, b, e2, o2),
        ran::<T, R, W, F>(wf, calm(s), e3, o3),
        !(o2 is Exhausted),
        !(o3 is Exhausted),
    ensures
        o2 == o3,
        same_log(e2.history, e3.history),
        commands_of(e2.history) == commands_of(e3.history),
        results_of(e2.history) == results_of(e3.history),
        same_work(e2, e3),
{
    let (next, f) = lemma_clean_run_goes_on::<T, R, W, F>(wf, s, n, e1, e3, o3);
    law_a_worker_can_be_replaced_between_tasks::<T, R, W, F>(
        wf,
        calm(s),
        e3,
        o3,
        next,
        f,
        b,
        e2,
        o2,
    );
    lemma_same_log_sym(e3.history, e2.history);
    lemma_same_log(e2.history, e3.history);
}

proof fn lemma_same_log_sym(a: Seq<HistoryEventView>, b: Seq<HistoryEventView>)
    requires
        same_log(a, b),
    ensures
        same_log(b, a),
{
    assert forall|i: int| 0 <= i < b.len() implies same_event(#[trigger] b[i], a[i]) by {
        assert(same_event(a[i], b[i]));
    }
}

} // verus!
