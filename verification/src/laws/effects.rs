//! How real executions and recorded results belong together.

use vstd::prelude::*;

use crate::activity::ExecutionView;
use crate::command::CommandView;
use crate::coroutine::{Coroutine, Workflow};
use crate::driver::{CompletionOrder, CrashPolicy, Progress, RunOutcomeView};
use crate::engine::{
    activities_done, activity_turn, advanced, agree, all_attempted, earliest_timer, ending,
    fresh_commands, has_activity, pending_of, persisted, ran, sooner, task, task_begun, task_ends,
    task_lines, tasks_made, Engine,
};
use crate::history::{
    appended, command_of, commands_of, is_resolved, result_of, results_of, started, EventView,
    HistoryEventView, Payload, SeqNo,
};
use crate::laws::log::{
    is_open, lemma_persisted_extends, lemma_prefix_trans, lemma_tasks_made_log, lemma_worlds_turn,
};
use crate::replay::{replays, PassView};
use crate::text::Text;
use crate::workflow::in_sequence;

verus! {

/// The command that an activity's report answers, if the event is one.
pub open spec fn report_of(e: EventView) -> Option<SeqNo> {
    match e {
        EventView::ActivityTaskCompleted { seq, .. } => Some(seq),
        EventView::ActivityTaskFailed { seq, .. } => Some(seq),
        _ => None,
    }
}

/// The commands that the activities' reports in a log answer, in log order.
pub open spec fn reports_of(h: Seq<HistoryEventView>) -> Seq<SeqNo> {
    h.filter_map(|e: HistoryEventView| report_of(e.attrs))
}

/// The execution that a command asks for.
pub open spec fn execution_of(c: CommandView) -> ExecutionView {
    ExecutionView { activity_type: c->activity_type, input: c->ScheduleActivity_input }
}

/// The executions that the commands numbered `seqs` ask for.
pub open spec fn executions_for(
    seqs: Seq<SeqNo>,
    commands: Seq<CommandView>,
) -> Seq<ExecutionView> {
    seqs.map_values(|q: SeqNo| execution_of(commands[q as int]))
}

/// A log as the engine writes it: commands are numbered in order, every result
/// belongs to one of them, and none has two results.
pub open spec fn is_sound(h: Seq<HistoryEventView>) -> bool {
    &&& in_sequence(commands_of(h))
    &&& forall|i: int|
        0 <= i < results_of(h).len() ==> (#[trigger] results_of(h)[i]).seq < commands_of(h).len()
    &&& forall|i: int, j: int|
        0 <= i < j < results_of(h).len() ==> (#[trigger] results_of(h)[i]).seq != (
        #[trigger] results_of(h)[j]).seq
}

/// Every element of the filtered list is a command in its own place, and the
/// places go up.
pub(crate) proof fn lemma_filter_in_sequence(
    commands: Seq<CommandView>,
    p: spec_fn(CommandView) -> bool,
)
    requires
        in_sequence(commands),
    ensures
        forall|i: int|
            0 <= i < commands.filter(p).len() ==> {
                &&& p(#[trigger] commands.filter(p)[i])
                &&& commands.filter(p)[i].seq() < commands.len()
                &&& commands[commands.filter(p)[i].seq() as int] == commands.filter(p)[i]
            },
        forall|i: int, j: int|
            0 <= i < j < commands.filter(p).len() ==> (#[trigger] commands.filter(p)[i]).seq() < (
            #[trigger] commands.filter(p)[j]).seq(),
    decreases commands.len(),
{
    reveal(Seq::filter);
    if commands.len() > 0 {
        let rest = commands.drop_last();
        assert(in_sequence(rest)) by {
            assert forall|i: int| 0 <= i < rest.len() implies (#[trigger] rest[i]).seq() == i by {
                assert(commands[i].seq() == i);
            }
        }
        lemma_filter_in_sequence(rest, p);
        let f = commands.filter(p);
        let g = rest.filter(p);
        assert(commands.last() == commands[commands.len() - 1]);
        assert forall|i: int| 0 <= i < f.len() implies {
            &&& p(#[trigger] f[i])
            &&& f[i].seq() < commands.len()
            &&& commands[f[i].seq() as int] == f[i]
        } by {
            if i < g.len() {
                assert(f[i] == g[i]);
            }
        }
        assert forall|i: int, j: int| 0 <= i < j < f.len() implies (#[trigger] f[i]).seq() < (
        #[trigger] f[j]).seq() by {
            assert(f[i] == g[i]);
            if j < g.len() {
                assert(f[j] == g[j]);
            } else {
                assert(g[i].seq() < rest.len());
            }
        }
    }
}

/// What is known of the pending commands of the log `h`.
pub open spec fn are_pending(h: Seq<HistoryEventView>, pending: Seq<CommandView>) -> bool {
    &&& forall|i: int|
        0 <= i < pending.len() ==> {
            &&& (#[trigger] pending[i]).is_blocking()
            &&& !is_resolved(h, pending[i].seq())
            &&& pending[i].seq() < commands_of(h).len()
            &&& commands_of(h)[pending[i].seq() as int] == pending[i]
        }
    &&& forall|i: int, j: int|
        0 <= i < pending.len() && 0 <= j < pending.len() && i != j ==> (
        #[trigger] pending[i]).seq() != (#[trigger] pending[j]).seq()
}

pub(crate) proof fn lemma_pending_of(h: Seq<HistoryEventView>, order: CompletionOrder)
    requires
        in_sequence(commands_of(h)),
    ensures
        are_pending(h, pending_of(h, order)),
{
    let p = |c: CommandView| c.is_blocking() && !is_resolved(h, c.seq());
    let all = commands_of(h);
    lemma_filter_in_sequence(all, p);
    let f = all.filter(p);
    let r = pending_of(h, order);
    assert(are_pending(h, f)) by {
        assert forall|i: int, j: int| 0 <= i < f.len() && 0 <= j < f.len() && i != j implies (
        #[trigger] f[i]).seq() != (#[trigger] f[j]).seq() by {
            if i < j {
                assert(f[i].seq() < f[j].seq());
            } else {
                assert(f[j].seq() < f[i].seq());
            }
        }
        assert forall|i: int| 0 <= i < f.len() implies {
            &&& (#[trigger] f[i]).is_blocking()
            &&& !is_resolved(h, f[i].seq())
            &&& f[i].seq() < all.len()
            &&& all[f[i].seq() as int] == f[i]
        } by {
            assert(p(f[i]));
        }
    }
    if order == CompletionOrder::Reversed {
        let n = f.len();
        assert(r == f.reverse());
        assert(forall|i: int| 0 <= i < n ==> #[trigger] r[i] == f[n - 1 - i]);
    }
}

/// Every timer that `earliest_timer` finds is pending, and no pending timer is
/// due before it.
pub proof fn law_the_earliest_timer_is_due_first(pending: Seq<CommandView>)
    ensures
        match earliest_timer(pending) {
            Some((ms, seq)) => {
                &&& pending.contains(CommandView::StartTimer { seq, fire_after_ms: ms })
                &&& forall|i: int|
                    0 <= i < pending.len() && (#[trigger] pending[i]) is StartTimer ==> !sooner(
                        (pending[i]->fire_after_ms, pending[i].seq()),
                        (ms, seq),
                    )
            },
            None => forall|i: int|
                0 <= i < pending.len() ==> !((#[trigger] pending[i]) is StartTimer),
        },
    decreases pending.len(),
{
    if pending.len() > 0 {
        let rest = pending.drop_last();
        law_the_earliest_timer_is_due_first(rest);
        assert(pending[pending.len() - 1] == pending.last());
        if let Some((ms, seq)) = earliest_timer(rest) {
            let t = CommandView::StartTimer { seq, fire_after_ms: ms };
            let k = choose|k: int| 0 <= k < rest.len() && rest[k] == t;
            assert(pending[k] == t);
        }
        assert forall|i: int| 0 <= i < rest.len() implies pending[i] == rest[i] by {}
    }
}

/// Between `s` and `e`, what was executed and what was recorded belong together:
/// the new executions are those that the newly reported commands ask for, in the
/// order of the reports. `lost` is the command behind one more execution at the
/// end, whose result never reached the log.
pub open spec fn accounted<F>(s: Engine<F>, e: Engine<F>, lost: Option<SeqNo>) -> bool {
    let commands = commands_of(e.history);
    let new = reports_of(e.history).skip(reports_of(s.history).len() as int);
    let done = s.worker.registry.executions + executions_for(new, commands);
    &&& is_sound(e.history)
    &&& commands_of(s.history).is_prefix_of(commands)
    &&& results_of(s.history).is_prefix_of(results_of(e.history))
    &&& reports_of(s.history).is_prefix_of(reports_of(e.history))
    &&& forall|i: int|
        0 <= i < new.len() ==> {
            &&& !is_resolved(s.history, #[trigger] new[i])
            &&& is_resolved(e.history, new[i])
            &&& new[i] < commands.len()
            &&& commands[new[i] as int] is ScheduleActivity
        }
    &&& forall|q: SeqNo| #[trigger]
        is_resolved(e.history, q) ==> is_resolved(s.history, q) || new.contains(q) || (q
            < commands.len() && commands[q as int] is StartTimer)
    &&& match lost {
        None => e.worker.registry.executions == done,
        Some(q) => {
            &&& q < commands.len()
            &&& commands[q as int] is ScheduleActivity
            &&& !is_resolved(e.history, q)
            &&& e.worker.registry.executions == done.push(execution_of(commands[q as int]))
        },
    }
}

/// An event that is neither command nor result leaves both as they were.
pub(crate) proof fn lemma_quiet_event(h: Seq<HistoryEventView>, time_ms: u64, attrs: EventView)
    requires
        command_of(attrs) is None,
        result_of(HistoryEventView { event_id: 0, time_ms, attrs }) is None,
    ensures
        commands_of(appended(h, time_ms, attrs)) == commands_of(h),
        results_of(appended(h, time_ms, attrs)) == results_of(h),
        reports_of(appended(h, time_ms, attrs)) == reports_of(h),
{
    assert(appended(h, time_ms, attrs).drop_last() =~= h);
}

/// A command's event adds the command and nothing else.
pub(crate) proof fn lemma_command_event(h: Seq<HistoryEventView>, time_ms: u64, c: CommandView)
    ensures
        commands_of(appended(h, time_ms, c.to_event())) == commands_of(h).push(c),
        results_of(appended(h, time_ms, c.to_event())) == results_of(h),
        reports_of(appended(h, time_ms, c.to_event())) == reports_of(h),
{
    assert(appended(h, time_ms, c.to_event()).drop_last() =~= h);
}

/// A result's event adds the result and nothing else.
pub(crate) proof fn lemma_result_event(
    h: Seq<HistoryEventView>,
    time_ms: u64,
    attrs: EventView,
    seq: SeqNo,
)
    requires
        report_of(attrs) == Some(seq) || attrs == (EventView::TimerFired { seq }),
    ensures
        ({
            let after = appended(h, time_ms, attrs);
            &&& commands_of(after) == commands_of(h)
            &&& results_of(after).len() == results_of(h).len() + 1
            &&& results_of(after).drop_last() == results_of(h)
            &&& results_of(after).last().seq == seq
            &&& reports_of(after) == if report_of(attrs) is Some {
                reports_of(h).push(seq)
            } else {
                reports_of(h)
            }
            &&& forall|q: SeqNo| #[trigger]
                is_resolved(after, q) <==> is_resolved(h, q) || q == seq
        }),
{
    let after = appended(h, time_ms, attrs);
    assert(after.drop_last() =~= h);
    let r = result_of(after.last()).unwrap();
    assert(results_of(after) =~= results_of(h).push(r));
    assert(results_of(after).drop_last() =~= results_of(h));
    assert forall|q: SeqNo| #[trigger] is_resolved(after, q) <==> is_resolved(h, q) || q
        == seq by {
        if is_resolved(h, q) {
            let i = choose|i: int|
                0 <= i < results_of(h).len() && (#[trigger] results_of(h)[i]).seq == q;
            assert(results_of(after)[i].seq == q);
        }
        if q == seq {
            assert(results_of(after)[results_of(h).len() as int].seq == q);
        }
        if is_resolved(after, q) && q != seq {
            let i = choose|i: int|
                0 <= i < results_of(after).len() && (#[trigger] results_of(after)[i]).seq == q;
            assert(results_of(h)[i].seq == q);
        }
    }
}

/// A result for a command that has none keeps the log sound.
proof fn lemma_result_event_sound(
    h: Seq<HistoryEventView>,
    time_ms: u64,
    attrs: EventView,
    seq: SeqNo,
)
    requires
        is_sound(h),
        seq < commands_of(h).len(),
        !is_resolved(h, seq),
        report_of(attrs) == Some(seq) || attrs == (EventView::TimerFired { seq }),
    ensures
        is_sound(appended(h, time_ms, attrs)),
{
    let after = appended(h, time_ms, attrs);
    lemma_result_event(h, time_ms, attrs, seq);
    let old_results = results_of(h);
    let new_results = results_of(after);
    assert forall|i: int| 0 <= i < old_results.len() implies new_results[i] == old_results[i] by {
        assert(new_results.drop_last()[i] == old_results[i]);
    }
    assert forall|i: int| 0 <= i < new_results.len() implies (#[trigger] new_results[i]).seq
        < commands_of(after).len() by {
        if i < old_results.len() {
            assert(old_results[i].seq < commands_of(h).len());
        }
    }
    assert forall|i: int, j: int| 0 <= i < j < new_results.len() implies (
    #[trigger] new_results[i]).seq != (#[trigger] new_results[j]).seq by {
        assert(old_results[i].seq == new_results[i].seq);
        if j < old_results.len() {
            assert(old_results[i].seq != old_results[j].seq);
        }
    }
}

/// What an activity's turn does to log and execution log.
pub(crate) proof fn lemma_activity_turn<F>(
    s: Engine<F>,
    seq: SeqNo,
    activity_type: Text,
    input: Text,
    report: Result<Text, Text>,
)
    ensures
        ({
            let (e, stop) = activity_turn(s, seq, activity_type, input, report);
            let ran = s.worker.registry.executions.push(ExecutionView { activity_type, input });
            match stop {
                Some(Progress::Exhausted) => e == s,
                Some(Progress::Crashed { result_recorded: false, .. }) => {
                    &&& e.history == s.history
                    &&& e.worker.registry.executions == ran
                },
                _ => {
                    &&& stop is None || stop == Some(
                        Progress::Crashed {
                            after_activity: e.worker.activities_run,
                            result_recorded: true,
                        },
                    )
                    &&& e.worker.registry.executions == ran
                    &&& report_of(e.history.last().attrs) == Some(seq)
                    &&& e.history == appended(
                        s.history,
                        e.worker.clock_ms,
                        e.history.last().attrs,
                    )
                },
            }
        }),
{
}

proof fn lemma_prefix_push<A>(a: Seq<A>, b: Seq<A>, x: A)
    requires
        a.is_prefix_of(b),
    ensures
        a.is_prefix_of(b.push(x)),
        b.push(x).skip(a.len() as int) == b.skip(a.len() as int).push(x),
{
    assert(b.push(x).subrange(0, a.len() as int) =~= b.subrange(0, a.len() as int));
    assert(b.push(x).skip(a.len() as int) =~= b.skip(a.len() as int).push(x));
}

/// One more activity ran and its report was recorded.
proof fn lemma_account_report<F>(s: Engine<F>, b: Engine<F>, e: Engine<F>, seq: SeqNo)
    requires
        accounted(s, b, None),
        seq < commands_of(b.history).len(),
        commands_of(b.history)[seq as int] is ScheduleActivity,
        !is_resolved(b.history, seq),
        !is_resolved(s.history, seq),
        e.history.len() > 0,
        report_of(e.history.last().attrs) == Some(seq),
        e.history == appended(b.history, e.worker.clock_ms, e.history.last().attrs),
        e.worker.registry.executions == b.worker.registry.executions.push(
            execution_of(commands_of(b.history)[seq as int]),
        ),
    ensures
        accounted(s, e, None),
        commands_of(e.history) == commands_of(b.history),
        reports_of(e.history) == reports_of(b.history).push(seq),
        forall|q: SeqNo| #[trigger]
            is_resolved(e.history, q) <==> is_resolved(b.history, q) || q == seq,
{
    let attrs = e.history.last().attrs;
    let t = e.worker.clock_ms;
    lemma_result_event(b.history, t, attrs, seq);
    lemma_result_event_sound(b.history, t, attrs, seq);
    let commands = commands_of(e.history);
    let n = reports_of(s.history).len() as int;
    let old_new = reports_of(b.history).skip(n);
    let new = reports_of(e.history).skip(n);
    lemma_prefix_push(reports_of(s.history), reports_of(b.history), seq);
    assert(results_of(e.history) =~= results_of(b.history).push(results_of(e.history).last()));
    lemma_prefix_push(
        results_of(s.history),
        results_of(b.history),
        results_of(e.history).last(),
    );
    assert(new == old_new.push(seq));
    assert(executions_for(new, commands) =~= executions_for(old_new, commands).push(
        execution_of(commands[seq as int]),
    ));
    assert(s.worker.registry.executions + executions_for(new, commands) =~= (
    s.worker.registry.executions + executions_for(old_new, commands)).push(
        execution_of(commands[seq as int]),
    ));
    assert forall|i: int| 0 <= i < new.len() implies {
        &&& !is_resolved(s.history, #[trigger] new[i])
        &&& is_resolved(e.history, new[i])
        &&& new[i] < commands.len()
        &&& commands[new[i] as int] is ScheduleActivity
    } by {
        if i < old_new.len() {
            assert(new[i] == old_new[i]);
        } else {
            assert(new[i] == seq);
        }
    }
    assert forall|q: SeqNo| #[trigger] is_resolved(e.history, q) implies is_resolved(
        s.history,
        q,
    ) || new.contains(q) || (q < commands.len() && commands[q as int] is StartTimer) by {
        if q == seq {
            assert(new[old_new.len() as int] == q);
        } else if old_new.contains(q) {
            let i = choose|i: int| 0 <= i < old_new.len() && old_new[i] == q;
            assert(new[i] == q);
        }
    }
}

/// The activities among the pending commands, by sequence number.
pub open spec fn activity_seqs(pending: Seq<CommandView>) -> Seq<SeqNo> {
    pending.filter_map(
        |c: CommandView|
            if c is ScheduleActivity {
                Some(c.seq())
            } else {
                None
            },
    )
}

/// What the turns of the pending commands do.
proof fn lemma_activities_done<F>(
    s: Engine<F>,
    pending: Seq<CommandView>,
    reports: Seq<Result<Text, Text>>,
) -> (lost: Option<SeqNo>)
    requires
        is_sound(s.history),
        are_pending(s.history, pending),
    ensures
        ({
            let a = activities_done(s, pending, reports);
            &&& accounted(s, a.engine, lost)
            &&& commands_of(a.engine.history) == commands_of(s.history)
            &&& lost is Some <==> (a.stop matches Some(
                Progress::Crashed { result_recorded: false, .. },
            ))
            &&& a.stop is None || a.stop == Some(Progress::Exhausted) || (a.stop matches Some(
                Progress::Crashed { .. },
            ))
            &&& a.stop is None && !a.made ==> a.engine == s
            &&& a.stop is None ==> reports_of(a.engine.history) == reports_of(s.history)
                + activity_seqs(pending)
            &&& forall|q: SeqNo| #[trigger]
                is_resolved(a.engine.history, q) ==> is_resolved(s.history, q) || exists|j: int|
                    0 <= j < pending.len() && (#[trigger] pending[j]).seq() == q
        }),
    decreases pending.len(),
{
    let a = activities_done(s, pending, reports);
    if pending.len() == 0 {
        lemma_accounted_refl(s);
        assert(activity_seqs(pending) =~= Seq::empty());
        assert(reports_of(s.history) + activity_seqs(pending) =~= reports_of(s.history));
        None
    } else {
        let rest = pending.drop_last();
        let before = activities_done(s, rest, reports.drop_last());
        let b = before.engine;
        let n = rest.len() as int;
        assert(pending[n] == pending.last());
        assert(forall|j: int| 0 <= j < n ==> #[trigger] rest[j] == pending[j]);
        assert(are_pending(s.history, rest));
        let lost0 = lemma_activities_done(s, rest, reports.drop_last());
        assert forall|q: SeqNo| #[trigger] is_resolved(b.history, q) implies is_resolved(
            s.history,
            q,
        ) || exists|j: int| 0 <= j < pending.len() && (#[trigger] pending[j]).seq() == q by {
            if !is_resolved(s.history, q) {
                let j = choose|j: int| 0 <= j < rest.len() && (#[trigger] rest[j]).seq() == q;
                assert(pending[j].seq() == q);
            }
        }
        match pending.last() {
            CommandView::ScheduleActivity { seq, activity_type, input } if before.stop is None => {
                let c = pending.last();
                assert(activity_seqs(pending) =~= activity_seqs(rest).push(seq));
                assert(!is_resolved(b.history, seq)) by {
                    if is_resolved(b.history, seq) {
                        let j = choose|j: int|
                            0 <= j < rest.len() && (#[trigger] rest[j]).seq() == seq;
                        assert(pending[j].seq() != pending[n].seq());
                    }
                }
                assert(commands_of(b.history)[seq as int] == c);
                let report = reports.last();
                lemma_activity_turn(b, seq, activity_type, input, report);
                match a.stop {
                    Some(Progress::Exhausted) => None,
                    Some(Progress::Crashed { result_recorded: false, .. }) => {
                        assert(accounted(s, a.engine, Some(seq)));
                        Some(seq)
                    },
                    _ => {
                        lemma_account_report(s, b, a.engine, seq);
                        assert(reports_of(s.history) + activity_seqs(pending) =~= (reports_of(
                            s.history,
                        ) + activity_seqs(rest)).push(seq));
                        assert forall|q: SeqNo| #[trigger]
                            is_resolved(a.engine.history, q) implies is_resolved(s.history, q)
                            || exists|j: int|
                            0 <= j < pending.len() && (#[trigger] pending[j]).seq() == q by {
                            if q == seq {
                                assert(pending[n].seq() == q);
                            }
                        }
                        None
                    },
                }
            },
            _ => {
                if before.stop is None {
                    assert(activity_seqs(pending) =~= activity_seqs(rest));
                }
                lost0
            },
        }
    }
}

proof fn lemma_accounted_refl<F>(s: Engine<F>)
    requires
        is_sound(s.history),
    ensures
        accounted(s, s, None),
{
    let c = commands_of(s.history);
    let r = results_of(s.history);
    let p = reports_of(s.history);
    assert(c.subrange(0, c.len() as int) =~= c);
    assert(r.subrange(0, r.len() as int) =~= r);
    assert(p.subrange(0, p.len() as int) =~= p);
    let new = p.skip(p.len() as int);
    assert(s.worker.registry.executions + executions_for(new, c)
        =~= s.worker.registry.executions);
}

/// Nothing that counts has changed.
proof fn lemma_account_quiet<F>(s: Engine<F>, e: Engine<F>)
    requires
        is_sound(s.history),
        commands_of(e.history) == commands_of(s.history),
        results_of(e.history) == results_of(s.history),
        reports_of(e.history) == reports_of(s.history),
        e.worker.registry.executions == s.worker.registry.executions,
    ensures
        accounted(s, e, None),
{
    lemma_accounted_refl(s);
    let new = reports_of(s.history).skip(reports_of(s.history).len() as int);
    assert(executions_for(new, commands_of(e.history)) =~= Seq::empty());
}

proof fn lemma_resolved_stays(a: Seq<HistoryEventView>, b: Seq<HistoryEventView>, q: SeqNo)
    requires
        results_of(a).is_prefix_of(results_of(b)),
        is_resolved(a, q),
    ensures
        is_resolved(b, q),
{
    let i = choose|i: int| 0 <= i < results_of(a).len() && (#[trigger] results_of(a)[i]).seq == q;
    assert(results_of(a)[i] == results_of(b).subrange(0, results_of(a).len() as int)[i]);
    assert(results_of(b)[i].seq == q);
}

pub(crate) proof fn lemma_accounted_trans<F>(
    a: Engine<F>,
    b: Engine<F>,
    c: Engine<F>,
    lost: Option<SeqNo>,
)
    requires
        accounted(a, b, None),
        accounted(b, c, lost),
    ensures
        accounted(a, c, lost),
{
    lemma_prefix_trans(commands_of(a.history), commands_of(b.history), commands_of(c.history));
    lemma_prefix_trans(results_of(a.history), results_of(b.history), results_of(c.history));
    lemma_prefix_trans(reports_of(a.history), reports_of(b.history), reports_of(c.history));
    let commands = commands_of(c.history);
    let earlier = commands_of(b.history);
    let na = reports_of(a.history).len() as int;
    let nb = reports_of(b.history).len() as int;
    let new = reports_of(c.history).skip(na);
    let new1 = reports_of(b.history).skip(na);
    let new2 = reports_of(c.history).skip(nb);
    assert(new == new1 + new2);
    assert forall|q: int| 0 <= q < earlier.len() implies earlier[q] == commands[q] by {
        assert(earlier[q] == commands.subrange(0, earlier.len() as int)[q]);
    }
    assert forall|i: int| 0 <= i < new.len() implies {
        &&& !is_resolved(a.history, #[trigger] new[i])
        &&& is_resolved(c.history, new[i])
        &&& new[i] < commands.len()
        &&& commands[new[i] as int] is ScheduleActivity
    } by {
        if i < new1.len() {
            assert(new[i] == new1[i]);
            lemma_resolved_stays(b.history, c.history, new[i]);
        } else {
            assert(new[i] == new2[i - new1.len()]);
            if is_resolved(a.history, new[i]) {
                lemma_resolved_stays(a.history, b.history, new[i]);
            }
        }
    }
    assert forall|q: SeqNo| #[trigger] is_resolved(c.history, q) implies is_resolved(
        a.history,
        q,
    ) || new.contains(q) || (q < commands.len() && commands[q as int] is StartTimer) by {
        if new2.contains(q) {
            let i = choose|i: int| 0 <= i < new2.len() && new2[i] == q;
            assert(new[new1.len() + i] == q);
        } else if is_resolved(b.history, q) && new1.contains(q) {
            let i = choose|i: int| 0 <= i < new1.len() && new1[i] == q;
            assert(new[i] == q);
        }
    }
    assert(executions_for(new1, earlier) =~= executions_for(new1, commands)) by {
        assert forall|i: int| 0 <= i < new1.len() implies earlier[(#[trigger] new1[i]) as int]
            == commands[new1[i] as int] by {}
    }
    let xa = a.worker.registry.executions;
    assert(xa + executions_for(new, commands) =~= (xa + executions_for(new1, earlier))
        + executions_for(new2, commands));
}

/// Fresh commands, numbered where the recorded ones end, keep the accounts.
proof fn lemma_persisted<F>(s: Engine<F>, fresh: Seq<CommandView>)
    requires
        is_sound(s.history),
        forall|j: int|
            0 <= j < fresh.len() ==> (#[trigger] fresh[j]).seq() == commands_of(s.history).len()
                + j,
    ensures
        accounted(s, persisted(s, fresh), None),
        commands_of(persisted(s, fresh).history) == commands_of(s.history) + fresh,
        results_of(persisted(s, fresh).history) == results_of(s.history),
        reports_of(persisted(s, fresh).history) == reports_of(s.history),
        persisted(s, fresh).worker.registry == s.worker.registry,
        persisted(s, fresh).worker.completion_order == s.worker.completion_order,
    decreases fresh.len(),
{
    let e = persisted(s, fresh);
    if fresh.len() == 0 {
        lemma_accounted_refl(s);
        assert(commands_of(s.history) + fresh =~= commands_of(s.history));
    } else {
        let rest = fresh.drop_last();
        let b = persisted(s, rest);
        lemma_persisted(s, rest);
        lemma_command_event(b.history, b.worker.clock_ms, fresh.last());
        let old_commands = commands_of(s.history);
        let commands = commands_of(e.history);
        assert(commands =~= old_commands + fresh);
        assert(old_commands =~= commands.subrange(0, old_commands.len() as int));
        assert forall|i: int| 0 <= i < commands.len() implies (#[trigger] commands[i]).seq()
            == i by {
            if i < old_commands.len() {
                assert(commands[i] == old_commands[i]);
            } else {
                assert(commands[i] == fresh[i - old_commands.len()]);
            }
        }
        assert forall|i: int| 0 <= i < results_of(e.history).len() implies (
        #[trigger] results_of(e.history)[i]).seq < commands.len() by {
            assert(results_of(s.history)[i].seq < old_commands.len());
        }
        let r = results_of(s.history);
        let p = reports_of(s.history);
        assert(r.subrange(0, r.len() as int) =~= r);
        assert(p.subrange(0, p.len() as int) =~= p);
        let new = p.skip(p.len() as int);
        assert(s.worker.registry.executions + executions_for(new, commands)
            =~= s.worker.registry.executions);
    }
}

/// What the world's turn does.
pub(crate) proof fn lemma_advanced<F>(s: Engine<F>, reports: Seq<Result<Text, Text>>) -> (lost:
    Option<SeqNo>)
    requires
        is_sound(s.history),
    ensures
        accounted(s, advanced(s, reports).0, lost),
        commands_of(advanced(s, reports).0.history) == commands_of(s.history),
        lost is Some <==> (advanced(s, reports).1 matches Progress::Crashed {
            result_recorded: false,
            ..
        }),
{
    let pending = pending_of(s.history, s.worker.completion_order);
    lemma_pending_of(s.history, s.worker.completion_order);
    let a = activities_done(s, pending, reports);
    let lost = lemma_activities_done(s, pending, reports);
    if a.stop is None && !a.made {
        law_the_earliest_timer_is_due_first(pending);
        if let Some((ms, seq)) = earliest_timer(pending) {
            if s.can_tick(ms) {
                let e = advanced(s, reports).0;
                let t = CommandView::StartTimer { seq, fire_after_ms: ms };
                let k = choose|k: int| 0 <= k < pending.len() && pending[k] == t;
                assert(pending[k].seq() == seq);
                let attrs = EventView::TimerFired { seq };
                let at = e.worker.clock_ms;
                assert(e.history == appended(s.history, at, attrs));
                lemma_result_event(s.history, at, attrs, seq);
                lemma_result_event_sound(s.history, at, attrs, seq);
                lemma_accounted_refl(s);
                let r = results_of(s.history);
                assert(results_of(e.history) =~= r.push(results_of(e.history).last()));
                assert(results_of(e.history).subrange(0, r.len() as int) =~= r);
                let new = reports_of(s.history).skip(reports_of(s.history).len() as int);
                assert(executions_for(new, commands_of(e.history)) =~= Seq::empty());
            }
        }
    }
    lost
}

/// The run ended with a crash that lost a result.
pub open spec fn lost_a_result(out: Option<RunOutcomeView>) -> bool {
    out matches Some(RunOutcomeView::Crashed { result_recorded: false, .. })
}

/// What one workflow task does.
pub(crate) proof fn lemma_task_ends<F: Fn(Payload) -> Result<Payload, String>>(
    s: Engine<F>,
    attempt: u32,
    pass: PassView,
    e: Engine<F>,
    out: Option<RunOutcomeView>,
) -> (lost: Option<SeqNo>)
    requires
        task_ends(s, attempt, pass, e, out),
        in_sequence(pass.commands),
        is_sound(s.history),
    ensures
        accounted(s, e, lost),
        lost is Some <==> lost_a_result(out),
        commands_of(e.history) == if !pass.deadlocked && agree(
            pass.commands,
            commands_of(s.history),
        ) {
            commands_of(s.history) + fresh_commands(pass.commands, commands_of(s.history))
        } else {
            commands_of(s.history)
        },
{
    let recorded = commands_of(s.history);
    let t = s.traced(task_lines(attempt, recorded.len(), pass));
    lemma_account_quiet(s, t);
    if !pass.deadlocked && agree(pass.commands, recorded) {
        let fresh = fresh_commands(pass.commands, recorded);
        assert forall|j: int| 0 <= j < fresh.len() implies (#[trigger] fresh[j]).seq()
            == recorded.len() + j by {
            assert(fresh[j] == pass.commands[recorded.len() + j]);
        }
        if pass.commands.len() < recorded.len() {
            assert(recorded + fresh =~= recorded);
            None
        } else {
            let p = persisted(t, fresh);
            lemma_persisted(t, fresh);
            lemma_accounted_trans(s, t, p, None);
            let pending = pending_of(p.history, p.worker.completion_order);
            if pass.poll is Ready && !has_activity(pending) {
                lemma_quiet_event(p.history, p.worker.clock_ms, ending(pass.poll->0));
                lemma_account_quiet(p, e);
                lemma_accounted_trans(s, p, e, None);
                None
            } else {
                let reports = lemma_worlds_turn(t, recorded, attempt, pass, e, out);
                let lost = lemma_advanced(p, reports);
                lemma_accounted_trans(s, p, e, lost);
                lost
            }
        }
    } else {
        None
    }
}

pub(crate) proof fn lemma_task_accounted<
    T: Coroutine<T, ()>,
    R: Coroutine<T, Result<Payload, String>>,
    W: Workflow<T, R>,
    F: Fn(Payload) -> Result<Payload, String>,
>(wf: W, s: Engine<F>, attempt: u32, e: Engine<F>, out: Option<RunOutcomeView>) -> (lost: Option<
    SeqNo,
>)
    requires
        task::<T, R, W, F>(wf, s, attempt, e, out),
        is_sound(s.history),
    ensures
        accounted(s, e, lost),
        lost is Some <==> lost_a_result(out),
{
    lemma_accounted_refl(s);
    if s.can_tick(1) {
        let begun = task_begun(s, attempt);
        lemma_quiet_event(
            s.history,
            begun.worker.clock_ms,
            EventView::WorkflowTaskStarted { attempt },
        );
        lemma_account_quiet(s, begun);
        let pass = choose|pass: PassView|
            {
                &&& #[trigger] replays::<T, R, W>(wf, begun.history, pass)
                &&& task_ends(begun, attempt, pass, e, out)
            };
        let lost = lemma_task_ends(begun, attempt, pass, e, out);
        lemma_accounted_trans(s, begun, e, lost);
        lost
    } else {
        None
    }
}

pub(crate) proof fn lemma_tasks_made_accounted<
    T: Coroutine<T, ()>,
    R: Coroutine<T, Result<Payload, String>>,
    W: Workflow<T, R>,
    F: Fn(Payload) -> Result<Payload, String>,
>(wf: W, s: Engine<F>, attempt: u32, e: Engine<F>)
    requires
        tasks_made::<T, R, W, F>(wf, s, attempt, e),
        is_sound(s.history),
    ensures
        accounted(s, e, None),
    decreases attempt,
{
    if attempt <= 1 {
        lemma_accounted_refl(s);
    } else {
        let before = (attempt - 1) as u32;
        let mid = choose|mid: Engine<F>|
            {
                &&& tasks_made::<T, R, W, F>(wf, s, before, mid)
                &&& #[trigger] task::<T, R, W, F>(wf, mid, before, e, None)
            };
        lemma_tasks_made_accounted::<T, R, W, F>(wf, s, before, mid);
        let lost = lemma_task_accounted::<T, R, W, F>(wf, mid, before, e, None);
        lemma_accounted_trans(s, mid, e, lost);
    }
}

pub(crate) proof fn lemma_ran_accounted<
    T: Coroutine<T, ()>,
    R: Coroutine<T, Result<Payload, String>>,
    W: Workflow<T, R>,
    F: Fn(Payload) -> Result<Payload, String>,
>(wf: W, s: Engine<F>, e: Engine<F>, out: RunOutcomeView) -> (lost: Option<SeqNo>)
    requires
        ran::<T, R, W, F>(wf, s, e, out),
        is_sound(s.history),
    ensures
        accounted(s, e, lost),
        lost is Some <==> lost_a_result(Some(out)),
{
    lemma_accounted_refl(s);
    if is_open(s.history) {
        let s0 = s.resumed();
        let (attempt, mid) = choose|attempt: u32, mid: Engine<F>|
            {
                &&& attempt >= 1
                &&& #[trigger] tasks_made::<T, R, W, F>(wf, s0, attempt, mid)
                &&& #[trigger] task::<T, R, W, F>(wf, mid, attempt, e, Some(out))
            };
        lemma_account_quiet(s, s0);
        lemma_tasks_made_accounted::<T, R, W, F>(wf, s0, attempt, mid);
        let lost = lemma_task_accounted::<T, R, W, F>(wf, mid, attempt, e, Some(out));
        lemma_accounted_trans(s, s0, mid, None);
        lemma_accounted_trans(s, mid, e, lost);
        lost
    } else {
        None
    }
}

/// The log of a new execution is sound.
pub proof fn law_a_new_log_is_sound(input: Text)
    ensures
        is_sound(started(input)),
{
    let h = started(input);
    reveal_with_fuel(Seq::filter_map, 2);
    assert(h.drop_last() =~= Seq::empty());
    assert(commands_of(h) =~= Seq::empty());
    assert(results_of(h) =~= Seq::empty());
}

/// Every command gets at most one result, ever: a run leaves a sound log sound.
/// Commands stay numbered in the order in which they were issued.
pub proof fn law_a_run_keeps_the_log_sound<
    T: Coroutine<T, ()>,
    R: Coroutine<T, Result<Payload, String>>,
    W: Workflow<T, R>,
    F: Fn(Payload) -> Result<Payload, String>,
>(wf: W, s: Engine<F>, e: Engine<F>, out: RunOutcomeView)
    requires
        ran::<T, R, W, F>(wf, s, e, out),
        is_sound(s.history),
    ensures
        is_sound(e.history),
        commands_of(s.history).is_prefix_of(commands_of(e.history)),
        results_of(s.history).is_prefix_of(results_of(e.history)),
{
    lemma_ran_accounted::<T, R, W, F>(wf, s, e, out);
}

/// Recorded activities are never executed again. The activities that a run
/// executes are exactly those whose reports it adds to the log, in the order of
/// the reports, each with the type and input of its command; and none of them had
/// a result when the run began. The one exception is a crash before recording,
/// which adds a single execution without a report.
pub proof fn law_recorded_activities_are_never_re_executed<
    T: Coroutine<T, ()>,
    R: Coroutine<T, Result<Payload, String>>,
    W: Workflow<T, R>,
    F: Fn(Payload) -> Result<Payload, String>,
>(wf: W, s: Engine<F>, e: Engine<F>, out: RunOutcomeView)
    requires
        ran::<T, R, W, F>(wf, s, e, out),
        is_sound(s.history),
    ensures
        ({
            let new = reports_of(e.history).skip(reports_of(s.history).len() as int);
            let done = s.worker.registry.executions + executions_for(
                new,
                commands_of(e.history),
            );
            &&& reports_of(s.history).is_prefix_of(reports_of(e.history))
            &&& forall|i: int|
                0 <= i < new.len() ==> !is_resolved(s.history, #[trigger] new[i]) && is_resolved(
                    e.history,
                    new[i],
                )
            &&& if lost_a_result(Some(out)) {
                &&& e.worker.registry.executions.len() == done.len() + 1
                &&& e.worker.registry.executions.drop_last() == done
            } else {
                e.worker.registry.executions == done
            }
        }),
{
    let lost = lemma_ran_accounted::<T, R, W, F>(wf, s, e, out);
    if lost is Some {
        let new = reports_of(e.history).skip(reports_of(s.history).len() as int);
        let done = s.worker.registry.executions + executions_for(new, commands_of(e.history));
        assert(e.worker.registry.executions.drop_last() =~= done);
    }
}

proof fn lemma_nothing_owed(h: Seq<HistoryEventView>, order: CompletionOrder)
    requires
        !has_activity(pending_of(h, order)),
    ensures
        all_attempted(h),
{
    let all = commands_of(h);
    let p = |c: CommandView| c.is_blocking() && !is_resolved(h, c.seq());
    assert forall|i: int| 0 <= i < all.len() && (#[trigger] all[i]) is ScheduleActivity implies
        is_resolved(h, all[i].seq()) by {
        if !is_resolved(h, all[i].seq()) {
            assert(p(all[i]));
            lemma_is_pending(h, order, i);
        }
    }
}

/// A blocking command without a result is pending.
pub(crate) proof fn lemma_is_pending(h: Seq<HistoryEventView>, order: CompletionOrder, i: int)
    requires
        0 <= i < commands_of(h).len(),
        commands_of(h)[i].is_blocking(),
        !is_resolved(h, commands_of(h)[i].seq()),
    ensures
        pending_of(h, order).contains(commands_of(h)[i]),
{
    let all = commands_of(h);
    let c = all[i];
    let p = |c: CommandView| c.is_blocking() && !is_resolved(h, c.seq());
    let f = all.filter(p);
    assert(p(c));
    all.lemma_filter_contains(p, i);
    let k = choose|k: int| 0 <= k < f.len() && f[k] == c;
    let r = pending_of(h, order);
    if order == CompletionOrder::Reversed {
        assert(r[f.len() - 1 - k] == c);
    } else {
        assert(r[k] == c);
    }
}

/// A task that closes the execution leaves no activity unattempted.
pub(crate) proof fn lemma_closing_task<
    T: Coroutine<T, ()>,
    R: Coroutine<T, Result<Payload, String>>,
    W: Workflow<T, R>,
    F: Fn(Payload) -> Result<Payload, String>,
>(wf: W, s: Engine<F>, attempt: u32, e: Engine<F>, out: RunOutcomeView)
    requires
        task::<T, R, W, F>(wf, s, attempt, e, Some(out)),
        out is Completed || out is Failed,
    ensures
        all_attempted(e.history),
{
    let begun = task_begun(s, attempt);
    let pass = choose|pass: PassView|
        {
            &&& #[trigger] replays::<T, R, W>(wf, begun.history, pass)
            &&& task_ends(begun, attempt, pass, e, Some(out))
        };
    let recorded = commands_of(begun.history);
    let t = begun.traced(task_lines(attempt, recorded.len(), pass));
    let p = persisted(t, fresh_commands(pass.commands, recorded));
    let pending = pending_of(p.history, p.worker.completion_order);
    if pass.poll is Ready && !has_activity(pending) {
        lemma_nothing_owed(p.history, p.worker.completion_order);
        lemma_quiet_event(p.history, p.worker.clock_ms, ending(pass.poll->0));
        assert forall|i: int|
            0 <= i < commands_of(e.history).len() && (#[trigger] commands_of(
                e.history,
            )[i]) is ScheduleActivity implies is_resolved(
            e.history,
            commands_of(e.history)[i].seq(),
        ) by {
            assert(is_resolved(p.history, commands_of(p.history)[i].seq()));
            let k = choose|k: int|
                0 <= k < results_of(p.history).len() && (#[trigger] results_of(
                    p.history,
                )[k]).seq == commands_of(p.history)[i].seq();
            assert(results_of(e.history)[k].seq == commands_of(e.history)[i].seq());
        }
    } else {
        lemma_worlds_turn(t, recorded, attempt, pass, e, Some(out));
    }
}

/// A task that ends in a deadlock found a workflow that never comes to rest, or
/// nothing left to wait for.
pub(crate) proof fn lemma_deadlocked_task<
    T: Coroutine<T, ()>,
    R: Coroutine<T, Result<Payload, String>>,
    W: Workflow<T, R>,
    F: Fn(Payload) -> Result<Payload, String>,
>(wf: W, s: Engine<F>, attempt: u32, e: Engine<F>)
    requires
        task::<T, R, W, F>(wf, s, attempt, e, Some(RunOutcomeView::Deadlocked)),
    ensures
        all_attempted(e.history) || exists|pass: PassView| #[trigger]
            replays::<T, R, W>(wf, e.history, pass) && pass.deadlocked,
{
    let begun = task_begun(s, attempt);
    let out = Some(RunOutcomeView::Deadlocked);
    let pass = choose|pass: PassView|
        {
            &&& #[trigger] replays::<T, R, W>(wf, begun.history, pass)
            &&& task_ends(begun, attempt, pass, e, out)
        };
    if !pass.deadlocked {
        let recorded = commands_of(begun.history);
        let t = begun.traced(task_lines(attempt, recorded.len(), pass));
        let p = persisted(t, fresh_commands(pass.commands, recorded));
        let pending = pending_of(p.history, p.worker.completion_order);
        if !(pass.poll is Ready && !has_activity(pending)) {
            let reports = lemma_worlds_turn(t, recorded, attempt, pass, e, out);
            law_stuck_means_nothing_is_outstanding(p, reports);
            assert(pending.len() == 0);
            lemma_nothing_owed(p.history, p.worker.completion_order);
        }
    }
}

proof fn lemma_no_crash_in_turns<F>(
    s: Engine<F>,
    pending: Seq<CommandView>,
    reports: Seq<Result<Text, Text>>,
)
    requires
        s.worker.crash == CrashPolicy::Never,
    ensures
        activities_done(s, pending, reports).engine.worker.crash == CrashPolicy::Never,
        !(activities_done(s, pending, reports).stop matches Some(Progress::Crashed { .. })),
    decreases pending.len(),
{
    if pending.len() > 0 {
        lemma_no_crash_in_turns(s, pending.drop_last(), reports.drop_last());
    }
}

/// A worker that never crashes does not crash in a task either.
proof fn lemma_no_crash_in_task<
    T: Coroutine<T, ()>,
    R: Coroutine<T, Result<Payload, String>>,
    W: Workflow<T, R>,
    F: Fn(Payload) -> Result<Payload, String>,
>(wf: W, s: Engine<F>, attempt: u32, e: Engine<F>, out: Option<RunOutcomeView>)
    requires
        task::<T, R, W, F>(wf, s, attempt, e, out),
        s.worker.crash == CrashPolicy::Never,
    ensures
        !(out matches Some(RunOutcomeView::Crashed { .. })),
{
    if s.can_tick(1) {
        let begun = task_begun(s, attempt);
        let pass = choose|pass: PassView|
            {
                &&& #[trigger] replays::<T, R, W>(wf, begun.history, pass)
                &&& task_ends(begun, attempt, pass, e, out)
            };
        let recorded = commands_of(begun.history);
        if !pass.deadlocked && agree(pass.commands, recorded) && pass.commands.len()
            >= recorded.len() {
            let t = begun.traced(task_lines(attempt, recorded.len(), pass));
            let fresh = fresh_commands(pass.commands, recorded);
            let p = persisted(t, fresh);
            let pending = pending_of(p.history, p.worker.completion_order);
            if !(pass.poll is Ready && !has_activity(pending)) {
                let reports = lemma_worlds_turn(t, recorded, attempt, pass, e, out);
                lemma_persisted_extends(t, fresh);
                lemma_no_crash_in_turns(p, pending, reports);
            }
        }
    }
}

/// A worker that is not told to crash does not.
pub proof fn law_no_crash_without_a_policy<
    T: Coroutine<T, ()>,
    R: Coroutine<T, Result<Payload, String>>,
    W: Workflow<T, R>,
    F: Fn(Payload) -> Result<Payload, String>,
>(wf: W, s: Engine<F>, e: Engine<F>, out: RunOutcomeView)
    requires
        ran::<T, R, W, F>(wf, s, e, out),
        s.worker.crash == CrashPolicy::Never,
    ensures
        !(out is Crashed),
{
    if is_open(s.history) {
        let s0 = s.resumed();
        let (attempt, mid) = choose|attempt: u32, mid: Engine<F>|
            {
                &&& attempt >= 1
                &&& #[trigger] tasks_made::<T, R, W, F>(wf, s0, attempt, mid)
                &&& #[trigger] task::<T, R, W, F>(wf, mid, attempt, e, Some(out))
            };
        lemma_tasks_made_log::<T, R, W, F>(wf, s0, attempt, mid);
        lemma_no_crash_in_task::<T, R, W, F>(wf, mid, attempt, e, Some(out));
    }
}

/// Every activity that a workflow asks for is attempted at least once, awaited or
/// not: a run that ends an execution leaves none without a report. On a sound log,
/// each activity that had no result when the run began was executed by the run.
pub proof fn law_every_scheduled_activity_is_attempted<
    T: Coroutine<T, ()>,
    R: Coroutine<T, Result<Payload, String>>,
    W: Workflow<T, R>,
    F: Fn(Payload) -> Result<Payload, String>,
>(wf: W, s: Engine<F>, e: Engine<F>, out: RunOutcomeView)
    requires
        ran::<T, R, W, F>(wf, s, e, out),
        is_open(s.history),
        out is Completed || out is Failed,
    ensures
        all_attempted(e.history),
        is_sound(s.history) ==> forall|i: int|
            0 <= i < commands_of(e.history).len() && (#[trigger] commands_of(
                e.history,
            )[i]) is ScheduleActivity && !is_resolved(
                s.history,
                commands_of(e.history)[i].seq(),
            ) ==> executed_since(s, e, commands_of(e.history)[i]),
{
    let (attempt, mid) = choose|attempt: u32, mid: Engine<F>|
        {
            &&& attempt >= 1
            &&& #[trigger] tasks_made::<T, R, W, F>(wf, s.resumed(), attempt, mid)
            &&& #[trigger] task::<T, R, W, F>(wf, mid, attempt, e, Some(out))
        };
    lemma_closing_task::<T, R, W, F>(wf, mid, attempt, e, out);
    if is_sound(s.history) {
        let lost = lemma_ran_accounted::<T, R, W, F>(wf, s, e, out);
        let all = commands_of(e.history);
        assert forall|i: int|
            0 <= i < all.len() && (#[trigger] all[i]) is ScheduleActivity && !is_resolved(
                s.history,
                all[i].seq(),
            ) implies executed_since(s, e, all[i]) by {
            lemma_resolved_was_executed(s, e, lost, i);
        }
    }
}

/// Between `s` and `e` the activity behind the command `c` was executed.
pub open spec fn executed_since<F>(s: Engine<F>, e: Engine<F>, c: CommandView) -> bool {
    e.worker.registry.executions.skip(s.worker.registry.executions.len() as int).contains(
        execution_of(c),
    )
}

/// An activity whose result came in between was executed in between.
pub(crate) proof fn lemma_resolved_was_executed<F>(
    s: Engine<F>,
    e: Engine<F>,
    lost: Option<SeqNo>,
    i: int,
)
    requires
        accounted(s, e, lost),
        0 <= i < commands_of(e.history).len(),
        commands_of(e.history)[i] is ScheduleActivity,
        !is_resolved(s.history, commands_of(e.history)[i].seq()),
        is_resolved(e.history, commands_of(e.history)[i].seq()),
    ensures
        executed_since(s, e, commands_of(e.history)[i]),
{
    let commands = commands_of(e.history);
    let q = commands[i].seq();
    assert(q == i);
    let new = reports_of(e.history).skip(reports_of(s.history).len() as int);
    let k = choose|k: int| 0 <= k < new.len() && new[k] == q;
    let n = s.worker.registry.executions.len() as int;
    let x = e.worker.registry.executions;
    assert(executions_for(new, commands)[k] == execution_of(commands[i]));
    assert(x[n + k] == execution_of(commands[i]));
    assert(x.skip(n)[k] == execution_of(commands[i]));
}

/// Activities are attempted at least once: after a crash before recording, the
/// command behind the last execution still waits for its result, so the next
/// run, whatever its completion order, has it among its pending commands.
pub proof fn law_a_lost_result_is_asked_for_again<
    T: Coroutine<T, ()>,
    R: Coroutine<T, Result<Payload, String>>,
    W: Workflow<T, R>,
    F: Fn(Payload) -> Result<Payload, String>,
>(wf: W, s: Engine<F>, e: Engine<F>, out: RunOutcomeView, order: CompletionOrder) -> (c:
    CommandView)
    requires
        ran::<T, R, W, F>(wf, s, e, out),
        is_sound(s.history),
        lost_a_result(Some(out)),
    ensures
        c is ScheduleActivity,
        execution_of(c) == e.worker.registry.executions.last(),
        pending_of(e.history, order).contains(c),
{
    let lost = lemma_ran_accounted::<T, R, W, F>(wf, s, e, out);
    let q = lost.unwrap();
    let c = commands_of(e.history)[q as int];
    assert(c.seq() == q);
    lemma_is_pending(e.history, order, q as int);
    c
}

/// The recorded interleaving is the completion order: when all outstanding
/// activities have reported, their reports stand in the log in the order in
/// which the pending commands were taken.
pub proof fn law_reports_follow_the_completion_order<F>(
    s: Engine<F>,
    reports: Seq<Result<Text, Text>>,
)
    requires
        is_sound(s.history),
        advanced(s, reports).1 is Made,
    ensures
        reports_of(advanced(s, reports).0.history) == reports_of(s.history) + activity_seqs(
            pending_of(s.history, s.worker.completion_order),
        ),
{
    let pending = pending_of(s.history, s.worker.completion_order);
    lemma_pending_of(s.history, s.worker.completion_order);
    lemma_activities_done(s, pending, reports);
    let a = activities_done(s, pending, reports);
    let e = advanced(s, reports).0;
    if a.stop is None && !a.made {
        if let Some((ms, seq)) = earliest_timer(pending) {
            if s.can_tick(ms) {
                lemma_result_event(
                    s.history,
                    e.worker.clock_ms,
                    EventView::TimerFired { seq },
                    seq,
                );
            }
        }
    }
}

/// A timer fires only where no activity is outstanding: while one is, the
/// world's turn writes no event but reports.
pub proof fn law_timers_wait_for_activities<F>(
    s: Engine<F>,
    reports: Seq<Result<Text, Text>>,
    k: int,
    i: int,
)
    requires
        0 <= k < pending_of(s.history, s.worker.completion_order).len(),
        pending_of(s.history, s.worker.completion_order)[k] is ScheduleActivity,
        s.history.len() <= i < advanced(s, reports).0.history.len(),
    ensures
        report_of(advanced(s, reports).0.history[i].attrs) is Some,
{
    let pending = pending_of(s.history, s.worker.completion_order);
    lemma_only_reports(s, pending, reports);
}

/// The world is stuck exactly when nothing is outstanding.
pub proof fn law_stuck_means_nothing_is_outstanding<F>(
    s: Engine<F>,
    reports: Seq<Result<Text, Text>>,
)
    ensures
        advanced(s, reports).1 is Stuck <==> pending_of(
            s.history,
            s.worker.completion_order,
        ).len() == 0,
{
    let h = s.history;
    let p = |c: CommandView| c.is_blocking() && !is_resolved(h, c.seq());
    let f = commands_of(h).filter(p);
    let pending = pending_of(h, s.worker.completion_order);
    assert forall|i: int| 0 <= i < pending.len() implies (#[trigger] pending[i]).is_blocking() by {
        commands_of(h).lemma_filter_pred(
            p,
            if s.worker.completion_order == CompletionOrder::Reversed {
                f.len() - 1 - i
            } else {
                i
            },
        );
    }
    lemma_only_reports(s, pending, reports);
    lemma_stops(s, pending, reports);
    law_the_earliest_timer_is_due_first(pending);
    if pending.len() > 0 {
        assert(pending[0].is_blocking());
    }
}

/// The pending commands' turns end early by a crash or for want of room.
proof fn lemma_stops<F>(
    s: Engine<F>,
    pending: Seq<CommandView>,
    reports: Seq<Result<Text, Text>>,
)
    ensures
        !(activities_done(s, pending, reports).stop matches Some(Progress::Stuck)),
    decreases pending.len(),
{
    if pending.len() > 0 {
        lemma_stops(s, pending.drop_last(), reports.drop_last());
    }
}

proof fn lemma_only_reports<F>(
    s: Engine<F>,
    pending: Seq<CommandView>,
    reports: Seq<Result<Text, Text>>,
)
    ensures
        ({
            let a = activities_done(s, pending, reports);
            &&& forall|i: int|
                s.history.len() <= i < a.engine.history.len() ==> report_of(
                    (#[trigger] a.engine.history[i]).attrs,
                ) is Some
            &&& s.history.len() <= a.engine.history.len()
            &&& (exists|k: int|
                0 <= k < pending.len() && (#[trigger] pending[k]) is ScheduleActivity) ==> a.made
                || a.stop is Some
        }),
    decreases pending.len(),
{
    if pending.len() > 0 {
        let rest = pending.drop_last();
        let before = activities_done(s, rest, reports.drop_last());
        lemma_only_reports(s, rest, reports.drop_last());
        if let CommandView::ScheduleActivity { seq, activity_type, input } = pending.last() {
            lemma_activity_turn(before.engine, seq, activity_type, input, reports.last());
        } else if exists|k: int|
            0 <= k < pending.len() && (#[trigger] pending[k]) is ScheduleActivity {
            let k = choose|k: int|
                0 <= k < pending.len() && (#[trigger] pending[k]) is ScheduleActivity;
            assert(rest[k] is ScheduleActivity);
        }
    }
}

} // verus!
