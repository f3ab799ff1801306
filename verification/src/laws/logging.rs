//! What a workflow logs, over the tasks and the runs of an execution: every line
//! once, however often it is replayed.

use vstd::prelude::*;

use crate::command::CommandView;
use crate::coroutine::{Coroutine, Poll, Workflow};
use crate::driver::RunOutcomeView;
use crate::engine::{
    activities_done, agree, earliest_timer, fresh_commands, has_activity, pending_of, persisted,
    task, task_begun, task_ends, task_lines, tasks_made, Advance, Engine,
};
use crate::history::{
    before_last_task, commands_of, input_of, is_resolved, markers_of, results_of, seed_of,
    shown_results_of, without_idle_tasks, EventView, HistoryEventView, Payload, RecordedResultView,
    SeqNo,
};
use crate::laws::effects::{
    is_sound, lemma_activity_turn, lemma_is_pending, lemma_pending_of, lemma_quiet_event,
    lemma_task_ends,
};
use crate::laws::faithfulness::{
    alike, faithful, faithful_workflow, frozen, is_frozen, lemma_frozen_before, lemma_grows_refl,
    orderly, orderly_workflow,
};
use crate::laws::log::{is_open, lemma_task_ends_log, lemma_worlds_turn};
use crate::laws::passes::{lemma_ends_of_pass, lemma_first_delivery, lemma_first_rest};
use crate::laws::records::law_a_recorded_marker_is_frozen;
use crate::laws::recovery::{
    in_step, law_replay_picks_up_where_it_stopped, lemma_deliveries_follow, lemma_deliveries_grow,
    lemma_rest_follows, lemma_rest_grows,
};
use crate::replay::{
    deliveries, leaves_a_mark, lines_handed_out, owes_activity, owes_timer, pass_runs,
    repeats_idle_task, replays, PassState, PassView,
};
use crate::text::Text;
use crate::workflow::{fresh_ctx, in_sequence, CtxView};

verus! {

/// The second pass at the point where the first one stopped.
proof fn lemma_reaches<T: Coroutine<T, ()>, R: Coroutine<T, Result<Payload, String>>>(
    r1: Seq<RecordedResultView>,
    s1: PassState<R::Obs, T::Obs>,
    e1: PassState<R::Obs, T::Obs>,
    r2: Seq<RecordedResultView>,
    s2: PassState<R::Obs, T::Obs>,
    e2: PassState<R::Obs, T::Obs>,
    ok2: bool,
) -> (m2: PassState<R::Obs, T::Obs>)
    requires
        faithful::<T, (), T>(),
        faithful::<T, Result<Payload, String>, R>(),
        deliveries::<T, R>(r1, s1, e1, true),
        deliveries::<T, R>(r2, s2, e2, ok2),
        r1.is_prefix_of(r2),
        in_step(s1, s2),
        frozen(e1.ctx.commands, s2.ctx.markers),
        s2.ctx.muted > r1.len(),
        s2.ctx.old_lines == s2.ctx.lines.len(),
    ensures
        in_step(e1, m2),
        m2.ctx.old_lines == m2.ctx.lines.len(),
        e1.poll is Ready ==> m2 == e2 && m2.ctx.muted >= s2.ctx.muted - r1.len(),
        e1.poll is Pending ==> {
            &&& deliveries::<T, R>(r2.skip(r1.len() as int), m2, e2, ok2)
            &&& m2.ctx.muted == s2.ctx.muted - r1.len()
        },
    decreases r1.len(),
{
    if r1.len() == 0 || s1.poll is Ready {
        assert(r2.skip(0) =~= r2);
        s2
    } else {
        let (m1, b1) = lemma_first_delivery::<T, R>(r1, s1, e1, true);
        let (m2, b2) = lemma_first_delivery::<T, R>(r2, s2, e2, ok2);
        let x1 = s1.delivered(r1.first());
        let x2 = s2.delivered(r2.first());
        assert(r1.first() == r2.subrange(0, r1.len() as int)[0]);
        lemma_rest_grows::<T, R>(x2, m2, b2);
        let t1 = r1.drop_first();
        let t2 = r2.drop_first();
        lemma_deliveries_grow::<T, R>(t1, m1, e1, true);
        lemma_frozen_before(m1.ctx.commands, e1.ctx.commands, s2.ctx.markers);
        lemma_rest_follows::<T, R>(x1, m1, b1, x2, m2, b2);
        assert(t1 =~= t2.subrange(0, t1.len() as int)) by {
            assert forall|i: int| 0 <= i < t1.len() implies t1[i] == t2[i] by {
                assert(r1[i + 1] == r2.subrange(0, r1.len() as int)[i + 1]);
            }
        }
        let k = lemma_reaches::<T, R>(t1, m1, e1, t2, m2, e2, ok2);
        assert(t2.skip(t1.len() as int) =~= r2.skip(r1.len() as int));
        k
    }
}

/// Once the workflow is no longer behind, which lines are old is settled.
proof fn lemma_lines_settled<T: Coroutine<T, ()>, R: Coroutine<T, Result<Payload, String>>>(
    results: Seq<RecordedResultView>,
    s: PassState<R::Obs, T::Obs>,
    e: PassState<R::Obs, T::Obs>,
    ok: bool,
)
    requires
        orderly::<T, (), T>(),
        orderly::<T, Result<Payload, String>, R>(),
        deliveries::<T, R>(results, s, e, ok),
        !s.ctx.is_behind(),
    ensures
        !e.ctx.is_behind(),
        e.ctx.old_lines == s.ctx.old_lines,
    decreases results.len(),
{
    if results.len() > 0 && s.poll is Pending {
        let (mid, blocked) = lemma_first_delivery::<T, R>(results, s, e, ok);
        lemma_rest_grows::<T, R>(s.delivered(results.first()), mid, blocked);
        if blocked {
            lemma_lines_settled::<T, R>(results.drop_first(), mid, e, ok);
        }
    }
}

/// `pass` is what replaying the workflow `wf` over the log `h` may yield, and
/// `lines` is all that the workflow logged in it, the old lines included.
pub open spec fn replays_with_lines<
    T: Coroutine<T, ()>,
    R: Coroutine<T, Result<Payload, String>>,
    W: Workflow<T, R>,
>(wf: W, h: Seq<HistoryEventView>, pass: PassView, lines: Seq<Text>) -> bool {
    &&& in_sequence(pass.commands)
    &&& pass.commands.len() <= SeqNo::MAX
    &&& exists|root: R::Obs, ctx: CtxView<T::Obs>, e: PassState<R::Obs, T::Obs>|
        {
            &&& #[trigger] wf.started(fresh_ctx::<T::Obs>(h), root, ctx)
            &&& #[trigger] pass_runs::<T, R>(
                results_of(h),
                PassState { root, poll: Poll::Pending, ctx },
                e,
                pass.deadlocked,
            )
            &&& pass.poll == e.poll
            &&& pass.commands == e.ctx.commands
            &&& pass.logs == lines_handed_out(h, pass, e.ctx)
            &&& lines == e.ctx.lines
        }
}

/// The first and the last state of a pass with the given lines.
proof fn lemma_ends_with_lines<
    T: Coroutine<T, ()>,
    R: Coroutine<T, Result<Payload, String>>,
    W: Workflow<T, R>,
>(wf: W, h: Seq<HistoryEventView>, pass: PassView, lines: Seq<Text>) -> (r: (
    PassState<R::Obs, T::Obs>,
    PassState<R::Obs, T::Obs>,
))
    requires
        replays_with_lines::<T, R, W>(wf, h, pass, lines),
    ensures
        wf.started(fresh_ctx::<T::Obs>(h), r.0.root, r.0.ctx),
        r.0.poll is Pending,
        pass_runs::<T, R>(results_of(h), r.0, r.1, pass.deadlocked),
        pass.poll == r.1.poll,
        pass.commands == r.1.ctx.commands,
        pass.logs == lines_handed_out(h, pass, r.1.ctx),
        lines == r.1.ctx.lines,
{
    let (root, ctx, e) = choose|
        root: R::Obs,
        ctx: CtxView<T::Obs>,
        e: PassState<R::Obs, T::Obs>,
    |
        {
            &&& #[trigger] wf.started(fresh_ctx::<T::Obs>(h), root, ctx)
            &&& #[trigger] pass_runs::<T, R>(
                results_of(h),
                PassState { root, poll: Poll::Pending, ctx },
                e,
                pass.deadlocked,
            )
            &&& pass.poll == e.poll
            &&& pass.commands == e.ctx.commands
            &&& pass.logs == lines_handed_out(h, pass, e.ctx)
            &&& lines == e.ctx.lines
        };
    (PassState { root, poll: Poll::Pending, ctx }, e)
}

proof fn lemma_has_lines<
    T: Coroutine<T, ()>,
    R: Coroutine<T, Result<Payload, String>>,
    W: Workflow<T, R>,
>(
    wf: W,
    h: Seq<HistoryEventView>,
    pass: PassView,
    s: PassState<R::Obs, T::Obs>,
    e: PassState<R::Obs, T::Obs>,
)
    requires
        replays::<T, R, W>(wf, h, pass),
        wf.started(fresh_ctx::<T::Obs>(h), s.root, s.ctx),
        s.poll is Pending,
        pass_runs::<T, R>(results_of(h), s, e, pass.deadlocked),
        pass.poll == e.poll,
        pass.commands == e.ctx.commands,
        pass.logs == lines_handed_out(h, pass, e.ctx),
    ensures
        replays_with_lines::<T, R, W>(wf, h, pass, e.ctx.lines),
{
    assert(s == PassState::<R::Obs, T::Obs> { root: s.root, poll: Poll::Pending, ctx: s.ctx });
    assert(pass_runs::<T, R>(
        results_of(h),
        PassState { root: s.root, poll: Poll::Pending, ctx: s.ctx },
        e,
        pass.deadlocked,
    ));
}

/// The first task of an execution logs every line of its pass.
pub proof fn law_the_first_task_logs_every_line<
    T: Coroutine<T, ()>,
    R: Coroutine<T, Result<Payload, String>>,
    W: Workflow<T, R>,
>(wf: W, h: Seq<HistoryEventView>, pass: PassView)
    requires
        orderly_workflow::<T, R, W>(wf),
        replays::<T, R, W>(wf, h, pass),
        shown_results_of(h) is None,
        commands_of(h).len() == 0,
        !repeats_idle_task(h, pass),
    ensures
        replays_with_lines::<T, R, W>(wf, h, pass, pass.logs),
{
    let (s, e) = lemma_ends_of_pass::<T, R, W>(wf, h, pass);
    let (m, rests) = lemma_first_rest::<T, R>(results_of(h), s, e, pass.deadlocked);
    lemma_rest_grows::<T, R>(s, m, rests);
    if rests {
        lemma_lines_settled::<T, R>(results_of(h), m, e, !pass.deadlocked);
    }
    assert(pass.logs =~= e.ctx.lines);
    lemma_has_lines::<T, R, W>(wf, h, pass, s, e);
}

/// A line is logged once per execution, not once per replay. Let `first` be the
/// pass of one task, which came to rest, and `lines` all that the workflow logged
/// in it, old and new. Let `second` be the pass of a later task, over a log of the
/// same execution that counts `first` as the last to have shown anything. Then the
/// workflow logs `lines` again in it, and goes on with what `second` hands out: that
/// is new, and nothing new is missing.
pub proof fn law_a_line_is_logged_once<
    T: Coroutine<T, ()>,
    R: Coroutine<T, Result<Payload, String>>,
    W: Workflow<T, R>,
>(
    wf: W,
    h1: Seq<HistoryEventView>,
    first: PassView,
    lines: Seq<Text>,
    h2: Seq<HistoryEventView>,
    second: PassView,
)
    requires
        faithful_workflow::<T, R, W>(wf),
        replays_with_lines::<T, R, W>(wf, h1, first, lines),
        !first.deadlocked,
        replays::<T, R, W>(wf, h2, second),
        shown_results_of(h2) == Some(results_of(h1).len()),
        !repeats_idle_task(h2, second),
        commands_of(h2).len() <= first.commands.len(),
        input_of(h1) == input_of(h2),
        seed_of(h1) == seed_of(h2),
        results_of(h1).is_prefix_of(results_of(h2)),
        frozen(first.commands, markers_of(h2)),
    ensures
        replays_with_lines::<T, R, W>(wf, h2, second, lines + second.logs),
        results_of(h1) == results_of(h2) ==> second.logs == Seq::<Text>::empty(),
{
    let r1 = results_of(h1);
    let r2 = results_of(h2);
    let n = r1.len() as int;
    let ok2 = !second.deadlocked;
    let (s1, e1) = lemma_ends_with_lines::<T, R, W>(wf, h1, first, lines);
    let (s2, e2) = lemma_ends_of_pass::<T, R, W>(wf, h2, second);
    let (m1, b1) = lemma_first_rest::<T, R>(r1, s1, e1, first.deadlocked);
    let (m2, b2) = lemma_first_rest::<T, R>(r2, s2, e2, second.deadlocked);
    lemma_rest_grows::<T, R>(s1, m1, b1);
    lemma_rest_grows::<T, R>(s2, m2, b2);
    lemma_deliveries_grow::<T, R>(r1, m1, e1, true);
    lemma_frozen_before(m1.ctx.commands, e1.ctx.commands, markers_of(h2));
    lemma_frozen_before(s1.ctx.commands, m1.ctx.commands, markers_of(h2));
    assert(alike(fresh_ctx::<T::Obs>(h1), fresh_ctx::<T::Obs>(h2)));
    assert(in_step(s1, s2));
    lemma_rest_follows::<T, R>(s1, m1, b1, s2, m2, b2);
    if b2 {
        lemma_deliveries_grow::<T, R>(r2, m2, e2, ok2);
    }
    let k = lemma_reaches::<T, R>(r1, m1, e1, r2, m2, e2, ok2);
    let rest = r2.skip(n);
    if e1.poll is Ready || rest.len() == 0 {
        assert(e2 == k);
        assert(second.logs =~= Seq::<Text>::empty());
        assert(lines + second.logs =~= lines);
    } else {
        lemma_deliveries_grow::<T, R>(rest, k, e2, ok2);
        let (mid, blocked) = lemma_first_delivery::<T, R>(rest, k, e2, ok2);
        lemma_rest_grows::<T, R>(k.delivered(rest.first()), mid, blocked);
        if blocked {
            lemma_lines_settled::<T, R>(rest.drop_first(), mid, e2, ok2);
        }
        assert(lines =~= e2.ctx.lines.subrange(0, lines.len() as int));
        assert(lines + second.logs =~= e2.ctx.lines);
    }
    assert(e2.ctx.lines == lines + second.logs);
    lemma_has_lines::<T, R, W>(wf, h2, second, s2, e2);
}

/// A task that only does the work of an idle one again logs nothing again. Let
/// `first` be the pass of the idle task, and `lines` all that the workflow logged in
/// it. Then the workflow logs `lines` again in `second`, and no line is handed out.
pub proof fn law_a_repeated_task_logs_nothing<
    T: Coroutine<T, ()>,
    R: Coroutine<T, Result<Payload, String>>,
    W: Workflow<T, R>,
>(
    wf: W,
    h1: Seq<HistoryEventView>,
    first: PassView,
    lines: Seq<Text>,
    h2: Seq<HistoryEventView>,
    second: PassView,
)
    requires
        faithful_workflow::<T, R, W>(wf),
        replays_with_lines::<T, R, W>(wf, h1, first, lines),
        replays::<T, R, W>(wf, h2, second),
        repeats_idle_task(h2, second),
        input_of(h1) == input_of(h2),
        seed_of(h1) == seed_of(h2),
        results_of(h1) == results_of(h2),
        frozen(first.commands, markers_of(h2)),
    ensures
        replays_with_lines::<T, R, W>(wf, h2, second, lines),
        second.logs == Seq::<Text>::empty(),
{
    let r = results_of(h1);
    assert(r.subrange(0, r.len() as int) =~= r);
    let (s1, e1) = lemma_ends_with_lines::<T, R, W>(wf, h1, first, lines);
    let (s2, e2) = lemma_ends_of_pass::<T, R, W>(wf, h2, second);
    let (m1, b1) = lemma_first_rest::<T, R>(r, s1, e1, first.deadlocked);
    let (m2, b2) = lemma_first_rest::<T, R>(r, s2, e2, second.deadlocked);
    lemma_rest_grows::<T, R>(s1, m1, b1);
    lemma_rest_grows::<T, R>(s2, m2, b2);
    lemma_grows_refl(m1.ctx);
    if b1 {
        lemma_deliveries_grow::<T, R>(r, m1, e1, !first.deadlocked);
    }
    lemma_frozen_before(m1.ctx.commands, e1.ctx.commands, markers_of(h2));
    lemma_frozen_before(s1.ctx.commands, m1.ctx.commands, markers_of(h2));
    assert(alike(fresh_ctx::<T::Obs>(h1), fresh_ctx::<T::Obs>(h2)));
    assert(in_step(s1, s2));
    lemma_rest_follows::<T, R>(s1, m1, b1, s2, m2, b2);
    if b1 {
        lemma_deliveries_follow::<T, R>(
            r,
            m1,
            e1,
            !first.deadlocked,
            r,
            m2,
            e2,
            !second.deadlocked,
        );
    }
    assert(in_step(e1, e2));
    lemma_has_lines::<T, R, W>(wf, h2, second, s2, e2);
}

/// The last task of the log has left nothing behind.
pub open spec fn ends_idle(h: Seq<HistoryEventView>) -> bool {
    h.len() > 0 && h.last().attrs is WorkflowTaskStarted
}

/// Over the log `h` a task got `pass`, and the workflow logged `lines` in it, old
/// and new. `after` is the log that the task left behind for the next one.
pub open spec fn handed_over<
    T: Coroutine<T, ()>,
    R: Coroutine<T, Result<Payload, String>>,
    W: Workflow<T, R>,
>(
    wf: W,
    h: Seq<HistoryEventView>,
    pass: PassView,
    lines: Seq<Text>,
    after: Seq<HistoryEventView>,
) -> bool {
    &&& replays_with_lines::<T, R, W>(wf, h, pass, lines)
    &&& !pass.deadlocked
    &&& pass.commands == commands_of(after)
    &&& results_of(h).is_prefix_of(results_of(after))
    &&& input_of(h) == input_of(after)
    &&& seed_of(h) == seed_of(after)
    &&& if ends_idle(after) {
        &&& results_of(after) == results_of(h)
        &&& commands_of(after) == commands_of(h)
        &&& !leaves_a_mark(h, pass)
    } else {
        before_last_task(after) matches Some(f) && results_of(f).len() == results_of(h).len()
    }
}

/// `lines` is what the execution with the log `h` has logged so far: nothing, where
/// no task has run yet, and else all that the workflow logged in the last pass.
pub open spec fn logged_so_far<
    T: Coroutine<T, ()>,
    R: Coroutine<T, Result<Payload, String>>,
    W: Workflow<T, R>,
>(wf: W, h: Seq<HistoryEventView>, lines: Seq<Text>) -> bool {
    &&& h.len() > 0
    &&& is_open(h)
    &&& is_sound(h)
    &&& if before_last_task(h) is None {
        commands_of(h).len() == 0 && results_of(h).len() == 0 && lines.len() == 0
    } else {
        exists|g: Seq<HistoryEventView>, pass: PassView| #[trigger]
            handed_over::<T, R, W>(wf, g, pass, lines, h)
    }
}

proof fn lemma_no_task_in_between<F>(s: Engine<F>, attrs: EventView)
    requires
        !(attrs is WorkflowTaskStarted),
    ensures
        before_last_task(s.wrote(attrs).history) == before_last_task(s.history),
{
    assert(s.wrote(attrs).history.drop_last() =~= s.history);
}

proof fn lemma_no_task_in_persist<F>(s: Engine<F>, fresh: Seq<CommandView>)
    ensures
        before_last_task(persisted(s, fresh).history) == before_last_task(s.history),
    decreases fresh.len(),
{
    if fresh.len() > 0 {
        let rest = fresh.drop_last();
        lemma_no_task_in_persist(s, rest);
        lemma_no_task_in_between(persisted(s, rest), fresh.last().to_event());
    }
}

proof fn lemma_no_task_in_turns<F>(
    s: Engine<F>,
    pending: Seq<CommandView>,
    reports: Seq<Result<Text, Text>>,
)
    ensures
        before_last_task(activities_done(s, pending, reports).engine.history)
            == before_last_task(s.history),
    decreases pending.len(),
{
    if pending.len() > 0 {
        let before = activities_done(s, pending.drop_last(), reports.drop_last());
        let a = activities_done(s, pending, reports);
        lemma_no_task_in_turns(s, pending.drop_last(), reports.drop_last());
        if let CommandView::ScheduleActivity { seq, activity_type, input } = pending.last() {
            lemma_activity_turn(before.engine, seq, activity_type, input, reports.last());
            if a.engine.history != before.engine.history {
                assert(a.engine.history.drop_last() =~= before.engine.history);
            }
        }
    }
}

/// The task has left the execution for another one to go on with: the next of its
/// run, or that of another worker.
pub open spec fn leaves_open(out: Option<RunOutcomeView>) -> bool {
    match out {
        None => true,
        Some(RunOutcomeView::Crashed { .. }) => true,
        Some(RunOutcomeView::Deadlocked) => true,
        _ => false,
    }
}

/// A task starts once.
proof fn lemma_one_task_started<F: Fn(Payload) -> Result<Payload, String>>(
    s: Engine<F>,
    attempt: u32,
    pass: PassView,
    e: Engine<F>,
    out: Option<RunOutcomeView>,
)
    requires
        task_ends(s, attempt, pass, e, out),
        leaves_open(out),
        !pass.deadlocked,
        commands_of(s.history).is_prefix_of(pass.commands),
    ensures
        before_last_task(e.history) == before_last_task(s.history),
{
    let recorded = commands_of(s.history);
    assert(agree(pass.commands, recorded)) by {
        assert(recorded =~= pass.commands.subrange(0, recorded.len() as int));
    }
    let t = s.traced(task_lines(attempt, recorded.len(), pass));
    let fresh = fresh_commands(pass.commands, recorded);
    let p = persisted(t, fresh);
    let pending = pending_of(p.history, p.worker.completion_order);
    let reports = lemma_worlds_turn(t, recorded, attempt, pass, e, out);
    lemma_no_task_in_persist(t, fresh);
    lemma_no_task_in_turns(p, pending, reports);
    let a = activities_done(p, pending, reports).engine;
    if e.history != a.history {
        assert(e.history.drop_last() =~= a.history);
    }
}

/// Without an activity among them, the pending commands wait for a timer alone.
pub(crate) proof fn lemma_nothing_to_attempt<F>(
    s: Engine<F>,
    pending: Seq<CommandView>,
    reports: Seq<Result<Text, Text>>,
)
    requires
        !has_activity(pending),
    ensures
        activities_done(s, pending, reports) == (Advance { engine: s, made: false, stop: None }),
    decreases pending.len(),
{
    if pending.len() > 0 {
        let rest = pending.drop_last();
        assert(!(pending[pending.len() - 1] is ScheduleActivity));
        assert forall|i: int| 0 <= i < rest.len() implies !((
        #[trigger] rest[i]) is ScheduleActivity) by {
            assert(!(pending[i] is ScheduleActivity));
        }
        lemma_nothing_to_attempt(s, rest, reports.drop_last());
    }
}

proof fn lemma_a_timer_is_due(pending: Seq<CommandView>, i: int)
    requires
        0 <= i < pending.len(),
        pending[i] is StartTimer,
    ensures
        earliest_timer(pending) is Some,
    decreases pending.len(),
{
    if i < pending.len() - 1 {
        lemma_a_timer_is_due(pending.drop_last(), i);
    }
}

/// A task that left nothing behind had nothing that it was sure to leave.
proof fn lemma_idle_leaves_no_mark<F: Fn(Payload) -> Result<Payload, String>>(
    s: Engine<F>,
    attempt: u32,
    pass: PassView,
    e: Engine<F>,
    out: Option<RunOutcomeView>,
)
    requires
        task_ends(s, attempt, pass, e, out),
        leaves_open(out),
        in_sequence(commands_of(s.history)),
        pass.commands == commands_of(s.history),
        e.history == s.history,
    ensures
        !leaves_a_mark(s.history, pass),
{
    let h = s.history;
    let recorded = commands_of(h);
    let t = s.traced(task_lines(attempt, recorded.len(), pass));
    let order = t.worker.completion_order;
    let pending = pending_of(h, order);
    assert(fresh_commands(pass.commands, recorded) =~= Seq::empty());
    assert(persisted(t, fresh_commands(pass.commands, recorded)) == t);
    if leaves_a_mark(h, pass) {
        assert(!has_activity(pending)) by {
            lemma_pending_of(h, order);
            if has_activity(pending) {
                let i = choose|i: int|
                    0 <= i < pending.len() && (#[trigger] pending[i]) is ScheduleActivity;
                assert(recorded[pending[i].seq() as int] == pending[i]);
            }
        }
        assert(agree(pass.commands, recorded));
        assert(pass.poll is Pending);
        let reports = lemma_worlds_turn(t, recorded, attempt, pass, e, out);
        lemma_nothing_to_attempt(t, pending, reports);
        let i = choose|i: int|
            {
                &&& 0 <= i < recorded.len()
                &&& (#[trigger] recorded[i]) is StartTimer
                &&& !is_resolved(h, recorded[i].seq())
            };
        lemma_is_pending(h, order, i);
        let j = choose|j: int| 0 <= j < pending.len() && pending[j] == recorded[i];
        lemma_a_timer_is_due(pending, j);
        assert(e.history.len() > h.len());
    }
}

/// A task that leaves the execution open hands over its pass.
proof fn lemma_hands_over<
    T: Coroutine<T, ()>,
    R: Coroutine<T, Result<Payload, String>>,
    W: Workflow<T, R>,
    F: Fn(Payload) -> Result<Payload, String>,
>(
    wf: W,
    s: Engine<F>,
    attempt: u32,
    pass: PassView,
    lines: Seq<Text>,
    e: Engine<F>,
    out: Option<RunOutcomeView>,
)
    requires
        s.history.len() > 0,
        is_open(task_begun(s, attempt).history),
        is_sound(task_begun(s, attempt).history),
        replays_with_lines::<T, R, W>(wf, task_begun(s, attempt).history, pass, lines),
        !pass.deadlocked,
        commands_of(task_begun(s, attempt).history).is_prefix_of(pass.commands),
        task_ends(task_begun(s, attempt), attempt, pass, e, out),
        leaves_open(out),
    ensures
        logged_so_far::<T, R, W>(wf, e.history, lines),
{
    let begun = task_begun(s, attempt);
    let h = begun.history;
    let recorded = commands_of(h);
    lemma_one_task_started(begun, attempt, pass, e, out);
    let lost = lemma_task_ends(begun, attempt, pass, e, out);
    lemma_task_ends_log(begun, attempt, pass, e, out);
    assert(recorded =~= pass.commands.subrange(0, recorded.len() as int));
    assert(agree(pass.commands, recorded));
    assert(recorded + fresh_commands(pass.commands, recorded) =~= pass.commands);
    assert(e.history[0] == h[0]) by {
        assert(h[0] == e.history.subrange(0, h.len() as int)[0]);
    }
    assert(h.drop_last() =~= s.history);
    lemma_quiet_event(
        s.history,
        begun.worker.clock_ms,
        EventView::WorkflowTaskStarted { attempt },
    );
    if ends_idle(e.history) {
        assert(e.history.drop_last() == s.history);
        assert(e.history =~= h) by {
            assert(h =~= e.history.subrange(0, h.len() as int));
        }
        lemma_idle_leaves_no_mark(begun, attempt, pass, e, out);
    }
    assert(handed_over::<T, R, W>(wf, h, pass, lines, e.history));
}

/// What a log records of side effects is frozen.
proof fn lemma_recorded_is_frozen(h: Seq<HistoryEventView>)
    requires
        in_sequence(commands_of(h)),
    ensures
        frozen(commands_of(h), markers_of(h)),
{
    let commands = commands_of(h);
    assert forall|i: int| 0 <= i < commands.len() implies is_frozen(
        #[trigger] commands[i],
        markers_of(h),
    ) by {
        if commands[i] is RecordMarker {
            law_a_recorded_marker_is_frozen(h, i);
        }
    }
}

/// A pass with the given lines is one that replay may yield.
proof fn lemma_is_a_pass<
    T: Coroutine<T, ()>,
    R: Coroutine<T, Result<Payload, String>>,
    W: Workflow<T, R>,
>(wf: W, h: Seq<HistoryEventView>, pass: PassView, lines: Seq<Text>)
    requires
        replays_with_lines::<T, R, W>(wf, h, pass, lines),
    ensures
        replays::<T, R, W>(wf, h, pass),
{
    let (s, e) = lemma_ends_with_lines::<T, R, W>(wf, h, pass, lines);
    assert(s == PassState::<R::Obs, T::Obs> { root: s.root, poll: Poll::Pending, ctx: s.ctx });
    assert(pass_runs::<T, R>(
        results_of(h),
        PassState { root: s.root, poll: Poll::Pending, ctx: s.ctx },
        e,
        pass.deadlocked,
    ));
}

/// The next task's pass, after a task that handed over.
proof fn lemma_takes_over<
    T: Coroutine<T, ()>,
    R: Coroutine<T, Result<Payload, String>>,
    W: Workflow<T, R>,
    F: Fn(Payload) -> Result<Payload, String>,
>(
    wf: W,
    h: Seq<HistoryEventView>,
    first: PassView,
    lines: Seq<Text>,
    s: Engine<F>,
    attempt: u32,
    second: PassView,
)
    requires
        faithful_workflow::<T, R, W>(wf),
        handed_over::<T, R, W>(wf, h, first, lines, s.history),
        replays::<T, R, W>(wf, task_begun(s, attempt).history, second),
        s.history.len() > 0,
    ensures
        replays_with_lines::<T, R, W>(
            wf,
            task_begun(s, attempt).history,
            second,
            lines + second.logs,
        ),
        commands_of(task_begun(s, attempt).history).is_prefix_of(second.commands),
{
    let begun = task_begun(s, attempt);
    let g = begun.history;
    lemma_quiet_event(
        s.history,
        begun.worker.clock_ms,
        EventView::WorkflowTaskStarted { attempt },
    );
    assert(g.drop_last() =~= s.history);
    lemma_recorded_is_frozen(g);
    lemma_is_a_pass::<T, R, W>(wf, h, first, lines);
    law_replay_picks_up_where_it_stopped::<T, R, W>(wf, h, first, g, second);
    if ends_idle(s.history) {
        assert(leaves_a_mark(g, second) == leaves_a_mark(h, first)) by {
            assert(owes_activity(g) == owes_activity(h));
            assert(owes_timer(g) == owes_timer(h));
        }
        law_a_repeated_task_logs_nothing::<T, R, W>(wf, h, first, lines, g, second);
        assert(lines + second.logs =~= lines);
    } else {
        law_a_line_is_logged_once::<T, R, W>(wf, h, first, lines, g, second);
    }
}

/// A task of other code that left nothing behind loses no line: a task that goes on
/// where the execution was hands out what is new, as if that one had not been.
pub proof fn law_a_task_of_other_code_loses_no_line<
    T: Coroutine<T, ()>,
    R: Coroutine<T, Result<Payload, String>>,
    W: Workflow<T, R>,
    F: Fn(Payload) -> Result<Payload, String>,
>(
    wf: W,
    s: Engine<F>,
    lines: Seq<Text>,
    other: u32,
    t: Engine<F>,
    attempt: u32,
    pass: PassView,
)
    requires
        faithful_workflow::<T, R, W>(wf),
        logged_so_far::<T, R, W>(wf, s.history, lines),
        before_last_task(s.history) is Some,
        !ends_idle(s.history),
        t.history == task_begun(s, other).history,
        replays::<T, R, W>(wf, task_begun(t, attempt).history, pass),
        leaves_a_mark(task_begun(t, attempt).history, pass),
    ensures
        replays_with_lines::<T, R, W>(
            wf,
            task_begun(t, attempt).history,
            pass,
            lines + pass.logs,
        ),
{
    let (h, first) = choose|h: Seq<HistoryEventView>, first: PassView| #[trigger]
        handed_over::<T, R, W>(wf, h, first, lines, s.history);
    let g = task_begun(t, attempt).history;
    lemma_quiet_event(
        s.history,
        task_begun(s, other).worker.clock_ms,
        EventView::WorkflowTaskStarted { attempt: other },
    );
    lemma_quiet_event(
        t.history,
        task_begun(t, attempt).worker.clock_ms,
        EventView::WorkflowTaskStarted { attempt },
    );
    assert(t.history.drop_last() =~= s.history);
    assert(g.drop_last() =~= t.history);
    reveal_with_fuel(without_idle_tasks, 2);
    lemma_recorded_is_frozen(g);
    law_a_line_is_logged_once::<T, R, W>(wf, h, first, lines, g, pass);
}

/// A task hands out the lines that the execution has not logged yet, whether it
/// follows another task of its run or a crash. With what was logged before they are
/// all that the workflow logs in the task's pass, and, where the task leaves the
/// execution open, all that the execution has logged then.
pub proof fn law_a_task_logs_what_is_new<
    T: Coroutine<T, ()>,
    R: Coroutine<T, Result<Payload, String>>,
    W: Workflow<T, R>,
    F: Fn(Payload) -> Result<Payload, String>,
>(
    wf: W,
    s: Engine<F>,
    lines: Seq<Text>,
    attempt: u32,
    pass: PassView,
    e: Engine<F>,
    out: Option<RunOutcomeView>,
)
    requires
        faithful_workflow::<T, R, W>(wf),
        logged_so_far::<T, R, W>(wf, s.history, lines),
        replays::<T, R, W>(wf, task_begun(s, attempt).history, pass),
        task_ends(task_begun(s, attempt), attempt, pass, e, out),
    ensures
        replays_with_lines::<T, R, W>(
            wf,
            task_begun(s, attempt).history,
            pass,
            lines + pass.logs,
        ),
        !pass.deadlocked && leaves_open(out) ==> logged_so_far::<T, R, W>(
            wf,
            e.history,
            lines + pass.logs,
        ),
{
    let h = task_begun(s, attempt).history;
    assert(h.drop_last() =~= s.history);
    lemma_quiet_event(
        s.history,
        task_begun(s, attempt).worker.clock_ms,
        EventView::WorkflowTaskStarted { attempt },
    );
    if before_last_task(s.history) is None {
        law_the_first_task_logs_every_line::<T, R, W>(wf, h, pass);
        assert(lines + pass.logs =~= pass.logs);
        assert(commands_of(h) =~= pass.commands.subrange(0, 0));
    } else {
        let (g, first) = choose|g: Seq<HistoryEventView>, first: PassView| #[trigger]
            handed_over::<T, R, W>(wf, g, first, lines, s.history);
        lemma_takes_over::<T, R, W, F>(wf, g, first, lines, s, attempt, pass);
    }
    if !pass.deadlocked && leaves_open(out) {
        lemma_hands_over::<T, R, W, F>(wf, s, attempt, pass, lines + pass.logs, e, out);
    }
}

/// `lines` goes on from `before` with `logs`.
pub open spec fn goes_on(before: Seq<Text>, logs: Seq<Text>, lines: Seq<Text>) -> bool {
    lines == before + logs
}

/// The attempts before `attempt` take the engine from `s` to `e`, as
/// [`tasks_made`] says, and `lines` is what they logged, one after the other.
pub open spec fn tasks_logged<
    T: Coroutine<T, ()>,
    R: Coroutine<T, Result<Payload, String>>,
    W: Workflow<T, R>,
    F: Fn(Payload) -> Result<Payload, String>,
>(wf: W, s: Engine<F>, attempt: u32, e: Engine<F>, lines: Seq<Text>) -> bool
    decreases attempt,
{
    if attempt <= 1 {
        e == s && lines.len() == 0
    } else {
        let k = (attempt - 1) as u32;
        exists|mid: Engine<F>, before: Seq<Text>, pass: PassView|
            {
                &&& tasks_logged::<T, R, W, F>(wf, s, k, mid, before)
                &&& mid.can_tick(1)
                &&& #[trigger] replays::<T, R, W>(wf, task_begun(mid, k).history, pass)
                &&& task_ends(task_begun(mid, k), k, pass, e, None)
                &&& #[trigger] goes_on(before, pass.logs, lines)
            }
    }
}

/// One more task, and what it logged.
proof fn lemma_one_more_logged<
    T: Coroutine<T, ()>,
    R: Coroutine<T, Result<Payload, String>>,
    W: Workflow<T, R>,
    F: Fn(Payload) -> Result<Payload, String>,
>(wf: W, s: Engine<F>, k: u32, mid: Engine<F>, before: Seq<Text>, e: Engine<F>) -> (lines: Seq<
    Text,
>)
    requires
        1 <= k < u32::MAX,
        tasks_logged::<T, R, W, F>(wf, s, k, mid, before),
        task::<T, R, W, F>(wf, mid, k, e, None),
    ensures
        tasks_logged::<T, R, W, F>(wf, s, (k + 1) as u32, e, lines),
{
    let begun = task_begun(mid, k);
    let pass = choose|pass: PassView|
        {
            &&& #[trigger] replays::<T, R, W>(wf, begun.history, pass)
            &&& task_ends(begun, k, pass, e, None)
        };
    let lines = before + pass.logs;
    assert(goes_on(before, pass.logs, lines));
    assert(((k + 1) as u32 - 1) as u32 == k);
    lines
}

/// What the tasks of a run have logged.
pub proof fn law_the_tasks_of_a_run_log<
    T: Coroutine<T, ()>,
    R: Coroutine<T, Result<Payload, String>>,
    W: Workflow<T, R>,
    F: Fn(Payload) -> Result<Payload, String>,
>(wf: W, s: Engine<F>, attempt: u32, e: Engine<F>) -> (lines: Seq<Text>)
    requires
        tasks_made::<T, R, W, F>(wf, s, attempt, e),
    ensures
        tasks_logged::<T, R, W, F>(wf, s, attempt, e, lines),
    decreases attempt,
{
    if attempt <= 1 {
        Seq::<Text>::empty()
    } else {
        let k = (attempt - 1) as u32;
        let mid = choose|mid: Engine<F>|
            {
                &&& tasks_made::<T, R, W, F>(wf, s, k, mid)
                &&& #[trigger] task::<T, R, W, F>(wf, mid, k, e, None)
            };
        let before = law_the_tasks_of_a_run_log::<T, R, W, F>(wf, s, k, mid);
        lemma_one_more_logged::<T, R, W, F>(wf, s, k, mid, before, e)
    }
}

/// The last of the tasks: the engine before it, what had been logged until then,
/// and what it logs itself.
proof fn lemma_last_logged<
    T: Coroutine<T, ()>,
    R: Coroutine<T, Result<Payload, String>>,
    W: Workflow<T, R>,
    F: Fn(Payload) -> Result<Payload, String>,
>(
    wf: W,
    s: Engine<F>,
    before: Seq<Text>,
    attempt: u32,
    e: Engine<F>,
    lines: Seq<Text>,
) -> (r: (Engine<F>, Seq<Text>, Seq<Text>))
    requires
        faithful_workflow::<T, R, W>(wf),
        attempt > 1,
        tasks_logged::<T, R, W, F>(wf, s, attempt, e, lines),
    ensures
        tasks_logged::<T, R, W, F>(wf, s, (attempt - 1) as u32, r.0, r.1),
        lines == r.1 + r.2,
        logged_so_far::<T, R, W>(wf, r.0.history, before + r.1) ==> logged_so_far::<T, R, W>(
            wf,
            e.history,
            before + r.1 + r.2,
        ),
{
    let k = (attempt - 1) as u32;
    let (mid, earlier, pass) = choose|mid: Engine<F>, earlier: Seq<Text>, pass: PassView|
        {
            &&& tasks_logged::<T, R, W, F>(wf, s, k, mid, earlier)
            &&& mid.can_tick(1)
            &&& #[trigger] replays::<T, R, W>(wf, task_begun(mid, k).history, pass)
            &&& task_ends(task_begun(mid, k), k, pass, e, None)
            &&& #[trigger] goes_on(earlier, pass.logs, lines)
        };
    if logged_so_far::<T, R, W>(wf, mid.history, before + earlier) {
        law_a_task_logs_what_is_new::<T, R, W, F>(
            wf,
            mid,
            before + earlier,
            k,
            pass,
            e,
            None,
        );
    }
    (mid, earlier, pass.logs)
}

proof fn lemma_in_a_row(a: Seq<Text>, b: Seq<Text>, c: Seq<Text>)
    ensures
        a + b + c == a + (b + c),
        a + Seq::<Text>::empty() == a,
{
    assert(a + b + c =~= a + (b + c));
    assert(a + Seq::<Text>::empty() =~= a);
}

/// Every line of an execution is logged once: what the tasks of a run hand out, one
/// after the other, goes on from what had been logged when the run began.
pub proof fn law_a_run_logs_every_line_once<
    T: Coroutine<T, ()>,
    R: Coroutine<T, Result<Payload, String>>,
    W: Workflow<T, R>,
    F: Fn(Payload) -> Result<Payload, String>,
>(
    wf: W,
    s: Engine<F>,
    before: Seq<Text>,
    attempt: u32,
    e: Engine<F>,
    lines: Seq<Text>,
)
    requires
        faithful_workflow::<T, R, W>(wf),
        logged_so_far::<T, R, W>(wf, s.history, before),
        tasks_logged::<T, R, W, F>(wf, s, attempt, e, lines),
    ensures
        logged_so_far::<T, R, W>(wf, e.history, before + lines),
    decreases attempt,
{
    if attempt <= 1 {
        assert(lines =~= Seq::<Text>::empty());
        lemma_in_a_row(before, lines, lines);
    } else {
        let k = (attempt - 1) as u32;
        let (mid, earlier, logs) = lemma_last_logged::<T, R, W, F>(
            wf,
            s,
            before,
            attempt,
            e,
            lines,
        );
        law_a_run_logs_every_line_once::<T, R, W, F>(wf, s, before, k, mid, earlier);
        lemma_in_a_row(before, earlier, logs);
    }
}

} // verus!
