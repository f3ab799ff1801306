//! What activities report is what their functions returned.

use vstd::prelude::*;
use vstd::string::*;

use crate::activity::{may_report, RegistryView};
use crate::command::CommandView;
use crate::coroutine::{Coroutine, Observe, Workflow};
use crate::driver::RunOutcomeView;
use crate::engine::{
    activities_done, activity_turn, advanced, agree, fresh_commands, has_activity, pending_of,
    persisted, ran, reports_possible, task, task_begun, task_continues, task_ends, task_lines,
    tasks_made, Engine,
};
use crate::history::{commands_of, EventView, HistoryEventView, Payload, SeqNo};
use crate::laws::log::{
    is_open, lemma_activities_done_extends, lemma_persisted_extends, lemma_tasks_made_log,
    lemma_worlds_turn,
};
use crate::laws::records::law_an_event_records_its_command;
use crate::laws::turns::law_a_command_waits_until_it_is_answered;
use crate::replay::{replays, PassView};
use crate::text::Text;

verus! {

/// The function `f` may return a payload for an input with the given text.
pub open spec fn returns_payload<F: Fn(Payload) -> Result<Payload, String>>(
    f: F,
    input: Text,
    payload: Text,
) -> bool {
    exists|i: Payload, p: Payload| #[trigger]
        call_ensures(f, (i,), Ok::<Payload, String>(p)) && i@ == input && p@ == payload
}

/// The function `f` may fail for an input with the given text, for the given reason.
pub open spec fn returns_failure<F: Fn(Payload) -> Result<Payload, String>>(
    f: F,
    input: Text,
    reason: Text,
) -> bool {
    exists|i: Payload, r: String| #[trigger]
        call_ensures(f, (i,), Err::<Payload, String>(r)) && i@ == input && r@ == reason
}

/// The log records, before its event `k`, that an activity of the given type was asked
/// for with the given input, under the number `seq`.
pub open spec fn asked_for(
    h: Seq<HistoryEventView>,
    k: int,
    seq: SeqNo,
    activity_type: Text,
    input: Text,
) -> bool {
    exists|j: int|
        0 <= j < k && (#[trigger] h[j]).attrs == (EventView::ActivityTaskScheduled {
            seq,
            activity_type,
            input,
        })
}

/// The event `k` of the log is no activity's report, or it reports what the function
/// registered for an activity that was asked for may return for exactly the input that
/// it was asked for with. Where no function is registered, it reports that.
pub open spec fn is_vouched_for<F: Fn(Payload) -> Result<Payload, String>>(
    h: Seq<HistoryEventView>,
    fns: Map<Text, F>,
    k: int,
) -> bool {
    match h[k].attrs {
        EventView::ActivityTaskCompleted { seq, result } => exists|t: Text, x: Text|
            {
                &&& #[trigger] asked_for(h, k, seq, t, x)
                &&& fns.contains_key(t)
                &&& returns_payload(fns[t], x, result)
            },
        EventView::ActivityTaskFailed { seq, failure } => exists|t: Text, x: Text|
            {
                &&& #[trigger] asked_for(h, k, seq, t, x)
                &&& if fns.contains_key(t) {
                    returns_failure(fns[t], x, failure)
                } else {
                    failure == "no activity registered for type `"@ + t + "`"@
                }
            },
        _ => true,
    }
}

/// Every event from the `n`th on is vouched for.
pub open spec fn vouched_from<F: Fn(Payload) -> Result<Payload, String>>(
    h: Seq<HistoryEventView>,
    fns: Map<Text, F>,
    n: int,
) -> bool {
    forall|k: int| n <= k < h.len() ==> #[trigger] is_vouched_for(h, fns, k)
}

/// What an invocation may report, in terms of the registered function alone.
pub proof fn law_a_report_is_what_the_function_returned<
    F: Fn(Payload) -> Result<Payload, String>,
>(fns: Map<Text, F>, activity_type: Text, input: Text, out: Result<Text, Text>)
    requires
        may_report(fns, activity_type, input, out),
    ensures
        match out {
            Ok(p) => fns.contains_key(activity_type) && returns_payload(
                fns[activity_type],
                input,
                p,
            ),
            Err(r) => if fns.contains_key(activity_type) {
                returns_failure(fns[activity_type], input, r)
            } else {
                r == "no activity registered for type `"@ + activity_type + "`"@
            },
        },
{
    if fns.contains_key(activity_type) {
        let (i, o) = choose|i: Payload, o: Result<Payload, String>|
            {
                &&& #[trigger] call_ensures(fns[activity_type], (i,), o)
                &&& i@ == input
                &&& o.observed() == out
            };
        match o {
            Ok(p) => {
                assert(call_ensures(fns[activity_type], (i,), Ok::<Payload, String>(p)));
            },
            Err(r) => {
                assert(call_ensures(fns[activity_type], (i,), Err::<Payload, String>(r)));
            },
        }
    }
}

/// And whatever the function returns may be reported.
pub proof fn law_what_the_function_returned_is_a_report<
    F: Fn(Payload) -> Result<Payload, String>,
>(fns: Map<Text, F>, activity_type: Text, i: Payload, o: Result<Payload, String>)
    requires
        fns.contains_key(activity_type),
        call_ensures(fns[activity_type], (i,), o),
    ensures
        may_report(
            fns,
            activity_type,
            i@,
            match o {
                Ok(p) => Ok::<Text, Text>(p@),
                Err(r) => Err::<Text, Text>(r@),
            },
        ),
{
}

/// An execution is logged with its type and input in full, behind those before it.
pub proof fn law_an_execution_is_logged_in_full<F>(
    r: RegistryView<F>,
    activity_type: Text,
    input: Text,
)
    ensures
        ({
            let n = r.executions.len() as int;
            let after = r.executed(activity_type, input);
            &&& after.fns == r.fns
            &&& after.executions.len() == n + 1
            &&& forall|i: int| 0 <= i < n ==> #[trigger] after.executions[i] == r.executions[i]
            &&& after.executions[n].activity_type == activity_type
            &&& after.executions[n].input == input
        }),
{
}

proof fn lemma_still_vouched_for<F: Fn(Payload) -> Result<Payload, String>>(
    h: Seq<HistoryEventView>,
    g: Seq<HistoryEventView>,
    fns: Map<Text, F>,
    n: int,
)
    requires
        0 <= n,
        h.is_prefix_of(g),
        vouched_from(h, fns, n),
    ensures
        forall|k: int| n <= k < h.len() ==> #[trigger] is_vouched_for(g, fns, k),
{
    assert forall|i: int| 0 <= i < h.len() implies h[i] == g[i] by {
        assert(h[i] == g.subrange(0, h.len() as int)[i]);
    }
    assert forall|k: int, seq: SeqNo, t: Text, x: Text|
        n <= k < h.len() && #[trigger] asked_for(h, k, seq, t, x) implies asked_for(
        g,
        k,
        seq,
        t,
        x,
    ) by {
        let j = choose|j: int|
            0 <= j < k && (#[trigger] h[j]).attrs == (EventView::ActivityTaskScheduled {
                seq,
                activity_type: t,
                input: x,
            });
        assert(g[j] == h[j]);
    }
    assert forall|k: int| n <= k < h.len() implies #[trigger] is_vouched_for(g, fns, k) by {
        assert(is_vouched_for(h, fns, k));
        assert(g[k] == h[k]);
        match h[k].attrs {
            EventView::ActivityTaskCompleted { seq, result } => {
                let (t, x) = choose|t: Text, x: Text|
                    {
                        &&& #[trigger] asked_for(h, k, seq, t, x)
                        &&& fns.contains_key(t)
                        &&& returns_payload(fns[t], x, result)
                    };
                assert(asked_for(g, k, seq, t, x));
            },
            EventView::ActivityTaskFailed { seq, failure } => {
                let (t, x) = choose|t: Text, x: Text|
                    {
                        &&& #[trigger] asked_for(h, k, seq, t, x)
                        &&& if fns.contains_key(t) {
                            returns_failure(fns[t], x, failure)
                        } else {
                            failure == "no activity registered for type `"@ + t + "`"@
                        }
                    };
                assert(asked_for(g, k, seq, t, x));
            },
            _ => {},
        }
    }
}

/// A recorded command has its event in the log.
proof fn lemma_recorded_command_was_asked_for(
    h: Seq<HistoryEventView>,
    seq: SeqNo,
    activity_type: Text,
    input: Text,
)
    requires
        commands_of(h).contains(CommandView::ScheduleActivity { seq, activity_type, input }),
    ensures
        asked_for(h, h.len() as int, seq, activity_type, input),
    decreases h.len(),
{
    let c = CommandView::ScheduleActivity { seq, activity_type, input };
    let i = choose|i: int| 0 <= i < commands_of(h).len() && commands_of(h)[i] == c;
    if h.len() == 0 {
        law_an_event_records_its_command(h, arbitrary());
        assert(h =~= Seq::empty());
    } else {
        let before = h.drop_last();
        assert(h =~= before.push(h.last()));
        law_an_event_records_its_command(before, h.last());
        if i < commands_of(before).len() {
            assert(commands_of(before)[i] == c);
            lemma_recorded_command_was_asked_for(before, seq, activity_type, input);
            let j = choose|j: int|
                0 <= j < before.len() && (#[trigger] before[j]).attrs == (
                EventView::ActivityTaskScheduled { seq, activity_type, input });
            assert(h[j] == before[j]);
        } else {
            assert(h[h.len() - 1].attrs == (EventView::ActivityTaskScheduled {
                seq,
                activity_type,
                input,
            }));
        }
    }
}

proof fn lemma_completion_is_vouched_for<F: Fn(Payload) -> Result<Payload, String>>(
    h: Seq<HistoryEventView>,
    fns: Map<Text, F>,
    k: int,
    activity_type: Text,
    input: Text,
)
    requires
        h[k].attrs matches EventView::ActivityTaskCompleted { seq, result } && asked_for(
            h,
            k,
            seq,
            activity_type,
            input,
        ) && fns.contains_key(activity_type) && returns_payload(
            fns[activity_type],
            input,
            result,
        ),
    ensures
        is_vouched_for(h, fns, k),
{
}

proof fn lemma_failure_is_vouched_for<F: Fn(Payload) -> Result<Payload, String>>(
    h: Seq<HistoryEventView>,
    fns: Map<Text, F>,
    k: int,
    activity_type: Text,
    input: Text,
)
    requires
        h[k].attrs matches EventView::ActivityTaskFailed { seq, failure } && asked_for(
            h,
            k,
            seq,
            activity_type,
            input,
        ) && if fns.contains_key(activity_type) {
            returns_failure(fns[activity_type], input, failure)
        } else {
            failure == "no activity registered for type `"@ + activity_type + "`"@
        },
    ensures
        is_vouched_for(h, fns, k),
{
}

proof fn lemma_turns_are_vouched_for<F: Fn(Payload) -> Result<Payload, String>>(
    s: Engine<F>,
    pending: Seq<CommandView>,
    reports: Seq<Result<Text, Text>>,
)
    requires
        reports_possible(s, pending, reports),
        forall|i: int|
            0 <= i < pending.len() ==> commands_of(s.history).contains(#[trigger] pending[i]),
    ensures
        vouched_from(
            activities_done(s, pending, reports).engine.history,
            s.worker.registry.fns,
            s.history.len() as int,
        ),
    decreases pending.len(),
{
    if pending.len() > 0 {
        let rest = pending.drop_last();
        let fns = s.worker.registry.fns;
        let n = s.history.len() as int;
        assert forall|i: int| 0 <= i < rest.len() implies commands_of(s.history).contains(
            #[trigger] rest[i],
        ) by {
            assert(rest[i] == pending[i]);
        }
        lemma_turns_are_vouched_for(s, rest, reports.drop_last());
        lemma_activities_done_extends(s, rest, reports.drop_last());
        let b = activities_done(s, rest, reports.drop_last());
        let a = activities_done(s, pending, reports);
        let c = pending.last();
        assert(pending[pending.len() - 1] == c);
        if let CommandView::ScheduleActivity { seq, activity_type, input } = c {
            if b.stop is None && a.engine.history != b.engine.history {
                let report = reports.last();
                let h = b.engine.history;
                let g = a.engine.history;
                let k = h.len() as int;
                assert(b.engine.can_run_activity());
                law_a_report_is_what_the_function_returned(fns, activity_type, input, report);
                assert(g.drop_last() =~= h);
                assert(g.subrange(0, k) =~= h);
                lemma_still_vouched_for(h, g, fns, n);
                lemma_recorded_command_was_asked_for(s.history, seq, activity_type, input);
                let j = choose|j: int|
                    0 <= j < n && (#[trigger] s.history[j]).attrs == (
                    EventView::ActivityTaskScheduled { seq, activity_type, input });
                assert(s.history[j] == h.subrange(0, n)[j]);
                assert(g[j] == h[j]);
                assert(asked_for(g, k, seq, activity_type, input));
                assert(a.engine == activity_turn(
                    b.engine,
                    seq,
                    activity_type,
                    input,
                    report,
                ).0);
                match report {
                    Ok(result) => {
                        assert(g[k].attrs == (EventView::ActivityTaskCompleted { seq, result }));
                        lemma_completion_is_vouched_for(g, fns, k, activity_type, input);
                    },
                    Err(failure) => {
                        assert(g[k].attrs == (EventView::ActivityTaskFailed { seq, failure }));
                        lemma_failure_is_vouched_for(g, fns, k, activity_type, input);
                    },
                }
            }
        }
    }
}

proof fn lemma_writing_is_vouched_for<F: Fn(Payload) -> Result<Payload, String>>(
    s: Engine<F>,
    fresh: Seq<CommandView>,
    fns: Map<Text, F>,
    n: int,
)
    requires
        0 <= n,
        vouched_from(s.history, fns, n),
    ensures
        vouched_from(persisted(s, fresh).history, fns, n),
    decreases fresh.len(),
{
    if fresh.len() > 0 {
        let b = persisted(s, fresh.drop_last());
        lemma_writing_is_vouched_for(s, fresh.drop_last(), fns, n);
        let g = persisted(s, fresh).history;
        assert(g == b.wrote(fresh.last().to_event()).history);
        assert(g.subrange(0, b.history.len() as int) =~= b.history);
        lemma_still_vouched_for(b.history, g, fns, n);
        assert(is_vouched_for(g, fns, b.history.len() as int));
    }
}

proof fn lemma_world_is_vouched_for<F: Fn(Payload) -> Result<Payload, String>>(
    s: Engine<F>,
    reports: Seq<Result<Text, Text>>,
    n: int,
)
    requires
        0 <= n <= s.history.len(),
        vouched_from(s.history, s.worker.registry.fns, n),
        reports_possible(s, pending_of(s.history, s.worker.completion_order), reports),
    ensures
        vouched_from(advanced(s, reports).0.history, s.worker.registry.fns, n),
{
    let fns = s.worker.registry.fns;
    let pending = pending_of(s.history, s.worker.completion_order);
    assert forall|i: int| 0 <= i < pending.len() implies commands_of(s.history).contains(
        #[trigger] pending[i],
    ) by {
        assert(pending.contains(pending[i]));
        law_a_command_waits_until_it_is_answered(
            s.history,
            s.worker.completion_order,
            pending[i],
        );
    }
    lemma_turns_are_vouched_for(s, pending, reports);
    lemma_activities_done_extends(s, pending, reports);
    let a = activities_done(s, pending, reports).engine;
    lemma_still_vouched_for(s.history, a.history, fns, n);
    assert(vouched_from(a.history, fns, n));
    let g = advanced(s, reports).0.history;
    if g != a.history {
        assert(g.drop_last() =~= a.history);
        assert(g.subrange(0, a.history.len() as int) =~= a.history);
        lemma_still_vouched_for(a.history, g, fns, n);
        assert(is_vouched_for(g, fns, a.history.len() as int));
    }
}

proof fn lemma_task_is_vouched_for<
    T: Coroutine<T, ()>,
    R: Coroutine<T, Result<Payload, String>>,
    W: Workflow<T, R>,
    F: Fn(Payload) -> Result<Payload, String>,
>(wf: W, s: Engine<F>, attempt: u32, e: Engine<F>, out: Option<RunOutcomeView>, n: int)
    requires
        task::<T, R, W, F>(wf, s, attempt, e, out),
        0 <= n <= s.history.len(),
        vouched_from(s.history, s.worker.registry.fns, n),
    ensures
        vouched_from(e.history, s.worker.registry.fns, n),
{
    let fns = s.worker.registry.fns;
    if s.can_tick(1) {
        let begun = task_begun(s, attempt);
        let pass = choose|pass: PassView|
            {
                &&& #[trigger] replays::<T, R, W>(wf, begun.history, pass)
                &&& task_ends(begun, attempt, pass, e, out)
            };
        let h = begun.history;
        assert(h.subrange(0, s.history.len() as int) =~= s.history);
        lemma_still_vouched_for(s.history, h, fns, n);
        assert(is_vouched_for(h, fns, s.history.len() as int));
        assert(vouched_from(h, fns, n));
        let recorded = commands_of(h);
        let t = begun.traced(task_lines(attempt, recorded.len(), pass));
        if !pass.deadlocked && agree(pass.commands, recorded) && pass.commands.len()
            >= recorded.len() {
            lemma_rest_is_vouched_for(t, recorded, attempt, pass, e, out, n);
        }
    }
}

proof fn lemma_rest_is_vouched_for<F: Fn(Payload) -> Result<Payload, String>>(
    t: Engine<F>,
    recorded: Seq<CommandView>,
    attempt: u32,
    pass: PassView,
    e: Engine<F>,
    out: Option<RunOutcomeView>,
    n: int,
)
    requires
        task_continues(t, recorded, attempt, pass, e, out),
        pass.commands.len() >= recorded.len(),
        0 <= n <= t.history.len(),
        vouched_from(t.history, t.worker.registry.fns, n),
    ensures
        vouched_from(e.history, t.worker.registry.fns, n),
{
    let fns = t.worker.registry.fns;
    let fresh = fresh_commands(pass.commands, recorded);
    let p = persisted(t, fresh);
    lemma_writing_is_vouched_for(t, fresh, fns, n);
    lemma_persisted_extends(t, fresh);
    if pass.poll is Ready && !has_activity(pending_of(p.history, p.worker.completion_order)) {
        let g = e.history;
        assert(g.subrange(0, p.history.len() as int) =~= p.history);
        lemma_still_vouched_for(p.history, g, fns, n);
        assert(is_vouched_for(g, fns, p.history.len() as int));
    } else {
        let reports = lemma_worlds_turn(t, recorded, attempt, pass, e, out);
        lemma_world_is_vouched_for(p, reports, n);
    }
}

proof fn lemma_tasks_are_vouched_for<
    T: Coroutine<T, ()>,
    R: Coroutine<T, Result<Payload, String>>,
    W: Workflow<T, R>,
    F: Fn(Payload) -> Result<Payload, String>,
>(wf: W, s: Engine<F>, attempt: u32, e: Engine<F>)
    requires
        tasks_made::<T, R, W, F>(wf, s, attempt, e),
        is_open(s.history),
    ensures
        vouched_from(e.history, s.worker.registry.fns, s.history.len() as int),
    decreases attempt,
{
    if attempt > 1 {
        let k = (attempt - 1) as u32;
        let mid = choose|mid: Engine<F>|
            {
                &&& tasks_made::<T, R, W, F>(wf, s, k, mid)
                &&& #[trigger] task::<T, R, W, F>(wf, mid, k, e, None)
            };
        lemma_tasks_are_vouched_for::<T, R, W, F>(wf, s, k, mid);
        lemma_tasks_made_log::<T, R, W, F>(wf, s, k, mid);
        lemma_task_is_vouched_for::<T, R, W, F>(
            wf,
            mid,
            k,
            e,
            None,
            s.history.len() as int,
        );
    }
}

/// Every report that a run records is one that the registered function gave for the
/// input it was asked with. For each completion that the run adds to the log there is
/// an earlier event that asked for an activity under that number, with a type that a
/// function is registered for, and the function may return that very payload for that
/// very input. So it is with failures; or the failure says that no function is
/// registered for the type.
pub proof fn law_every_report_is_a_return_value<
    T: Coroutine<T, ()>,
    R: Coroutine<T, Result<Payload, String>>,
    W: Workflow<T, R>,
    F: Fn(Payload) -> Result<Payload, String>,
>(wf: W, s: Engine<F>, e: Engine<F>, out: RunOutcomeView)
    requires
        ran::<T, R, W, F>(wf, s, e, out),
    ensures
        forall|k: int|
            s.history.len() <= k < e.history.len() ==> #[trigger] is_vouched_for(
                e.history,
                s.worker.registry.fns,
                k,
            ),
{
    if is_open(s.history) {
        let s0 = s.resumed();
        let (attempt, mid) = choose|attempt: u32, mid: Engine<F>|
            {
                &&& attempt >= 1
                &&& #[trigger] tasks_made::<T, R, W, F>(wf, s0, attempt, mid)
                &&& #[trigger] task::<T, R, W, F>(wf, mid, attempt, e, Some(out))
            };
        lemma_tasks_are_vouched_for::<T, R, W, F>(wf, s0, attempt, mid);
        lemma_tasks_made_log::<T, R, W, F>(wf, s0, attempt, mid);
        lemma_task_is_vouched_for::<T, R, W, F>(
            wf,
            mid,
            attempt,
            e,
            Some(out),
            s.history.len() as int,
        );
    }
}

} // verus!
