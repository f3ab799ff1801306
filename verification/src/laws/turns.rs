//! What the world's turn does: which commands wait, which activities run, which timer
//! fires, and what of it reaches the log.

use vstd::prelude::*;
use vstd::string::*;

use crate::activity::ExecutionView;
use crate::command::CommandView;
use crate::coroutine::Poll;
use crate::driver::{CompletionOrder, CrashPolicy, Progress, RunOutcomeView};
use crate::engine::{
    activities_done, activity_turn, advanced, after_advance, all_attempted, earliest_timer, ended,
    ending, engine, has_activity, instead_of_issuing, pending_of, persisted, task_begun,
    task_lines, Advance, Engine,
};
use crate::history::{commands_of, is_resolved, EventView, HistoryEventView, SeqNo};
use crate::laws::effects::{lemma_filter_in_sequence, lemma_is_pending};
use crate::laws::logging::lemma_nothing_to_attempt;
use crate::laws::records::{answers, law_a_result_resolves_its_command};
use crate::replay::PassView;
use crate::text::{decimal, Text};
use crate::workflow::in_sequence;

verus! {

/// A command waits exactly if it is recorded, asks for an activity or a timer, and no
/// event is a result of it.
pub proof fn law_a_command_waits_until_it_is_answered(
    h: Seq<HistoryEventView>,
    order: CompletionOrder,
    c: CommandView,
)
    ensures
        pending_of(h, order).contains(c) <==> {
            &&& commands_of(h).contains(c)
            &&& c is ScheduleActivity || c is StartTimer
            &&& forall|i: int| 0 <= i < h.len() ==> !answers((#[trigger] h[i]).attrs, c.seq())
        },
{
    law_a_result_resolves_its_command(h, c.seq());
    let all = commands_of(h);
    let p = |c: CommandView| c.is_blocking() && !is_resolved(h, c.seq());
    let f = all.filter(p);
    let r = pending_of(h, order);
    if commands_of(h).contains(c) && c.is_blocking() && !is_resolved(h, c.seq()) {
        let i = choose|i: int| 0 <= i < all.len() && all[i] == c;
        lemma_is_pending(h, order, i);
    }
    if r.contains(c) {
        let k = choose|k: int| 0 <= k < r.len() && r[k] == c;
        let j = if order == CompletionOrder::Reversed {
            f.len() - 1 - k
        } else {
            k
        };
        assert(f[j] == c);
        all.lemma_filter_pred(p, j);
        all.lemma_filter_contains_rev(p, c);
    }
}

/// The commands that wait are taken in the order in which they were asked for, or,
/// where reports come back in reverse, in the opposite order; each once.
pub proof fn law_waiting_commands_are_taken_in_order(
    h: Seq<HistoryEventView>,
    i: int,
    j: int,
)
    requires
        in_sequence(commands_of(h)),
    ensures
        0 <= i < j < pending_of(h, CompletionOrder::InOrder).len() ==> pending_of(
            h,
            CompletionOrder::InOrder,
        )[i].seq() < pending_of(h, CompletionOrder::InOrder)[j].seq(),
        0 <= i < j < pending_of(h, CompletionOrder::Reversed).len() ==> pending_of(
            h,
            CompletionOrder::Reversed,
        )[i].seq() > pending_of(h, CompletionOrder::Reversed)[j].seq(),
        pending_of(h, CompletionOrder::InOrder).len() == pending_of(
            h,
            CompletionOrder::Reversed,
        ).len(),
{
    let p = |c: CommandView| c.is_blocking() && !is_resolved(h, c.seq());
    lemma_filter_in_sequence(commands_of(h), p);
}

proof fn lemma_places_of(
    commands: Seq<CommandView>,
    p: spec_fn(CommandView) -> bool,
) -> (places: Seq<int>)
    ensures
        places.len() == commands.filter(p).len(),
        forall|i: int|
            0 <= i < places.len() ==> {
                &&& 0 <= #[trigger] places[i] < commands.len()
                &&& commands[places[i]] == commands.filter(p)[i]
                &&& p(commands[places[i]])
            },
        forall|i: int, j: int|
            0 <= i < j < places.len() ==> #[trigger] places[i] < #[trigger] places[j],
        forall|k: int|
            0 <= k < commands.len() && p(#[trigger] commands[k]) ==> places.contains(k),
    decreases commands.len(),
{
    reveal(Seq::filter);
    if commands.len() == 0 {
        Seq::empty()
    } else {
        let rest = commands.drop_last();
        let n = rest.len() as int;
        let before = lemma_places_of(rest, p);
        let places = if p(commands.last()) {
            before.push(n)
        } else {
            before
        };
        assert forall|k: int| 0 <= k < commands.len() && p(
            #[trigger] commands[k],
        ) implies places.contains(k) by {
            if k < n {
                assert(rest[k] == commands[k]);
                let i = choose|i: int| 0 <= i < before.len() && before[i] == k;
                assert(places[i] == k);
            } else {
                assert(places[before.len() as int] == k);
            }
        }
        assert forall|i: int| 0 <= i < places.len() implies {
            &&& 0 <= #[trigger] places[i] < commands.len()
            &&& commands[places[i]] == commands.filter(p)[i]
            &&& p(commands[places[i]])
        } by {
            if i < before.len() {
                assert(places[i] == before[i]);
                assert(rest[before[i]] == commands[before[i]]);
            }
        }
        places
    }
}

/// Every command that waits has its turn, and in the order of the log, whatever the log:
/// the pending commands are the recorded ones at those places, all of them, where an
/// activity or a timer has no result. Where reports come back in reverse, it is the same
/// list from its end. Returns these places.
pub proof fn law_waiting_commands_stand_as_in_the_log(h: Seq<HistoryEventView>) -> (places: Seq<
    int,
>)
    ensures
        ({
            let recorded = commands_of(h);
            let there = pending_of(h, CompletionOrder::InOrder);
            let back = pending_of(h, CompletionOrder::Reversed);
            let n = places.len() as int;
            &&& there.len() == n
            &&& back.len() == n
            &&& forall|i: int|
                0 <= i < n ==> {
                    &&& 0 <= #[trigger] places[i] < recorded.len()
                    &&& there[i] == recorded[places[i]]
                    &&& back[n - 1 - i] == recorded[places[i]]
                }
            &&& forall|i: int, j: int|
                0 <= i < j < n ==> #[trigger] places[i] < #[trigger] places[j]
            &&& forall|k: int|
                0 <= k < recorded.len() ==> (places.contains(k) <==> {
                    &&& (#[trigger] recorded[k]) is ScheduleActivity || recorded[k] is StartTimer
                    &&& !is_resolved(h, recorded[k].seq())
                })
        }),
{
    let recorded = commands_of(h);
    let p = |c: CommandView| c.is_blocking() && !is_resolved(h, c.seq());
    let places = lemma_places_of(recorded, p);
    assert forall|k: int| 0 <= k < recorded.len() implies (places.contains(k) <==> {
        &&& (#[trigger] recorded[k]) is ScheduleActivity || recorded[k] is StartTimer
        &&& !is_resolved(h, recorded[k].seq())
    }) by {
        if places.contains(k) {
            let i = choose|i: int| 0 <= i < places.len() && places[i] == k;
            assert(p(recorded[places[i]]));
        }
        if p(recorded[k]) {
            assert(places.contains(k));
        }
    }
    places
}

/// The timer that fires has the least delay of all that wait, and of those with that
/// delay it was asked for first. There is one exactly if a timer waits.
pub proof fn law_the_least_delay_fires_first(pending: Seq<CommandView>)
    ensures
        match earliest_timer(pending) {
            Some((ms, seq)) => {
                &&& exists|i: int|
                    {
                        &&& 0 <= i < pending.len()
                        &&& #[trigger] pending[i] matches CommandView::StartTimer {
                            seq: q,
                            fire_after_ms: d,
                        } && q == seq && d == ms
                    }
                &&& forall|i: int|
                    0 <= i < pending.len() ==> (#[trigger] pending[i] matches
                        CommandView::StartTimer { seq: q, fire_after_ms: d } ==> ms <= d && (ms
                        == d ==> seq <= q))
            },
            None => forall|i: int|
                0 <= i < pending.len() ==> !((#[trigger] pending[i]) is StartTimer),
        },
    decreases pending.len(),
{
    if pending.len() > 0 {
        let rest = pending.drop_last();
        law_the_least_delay_fires_first(rest);
        let n = rest.len() as int;
        assert(pending[n] == pending.last());
        assert forall|i: int| 0 <= i < n implies pending[i] == rest[i] by {}
        if let Some((ms, seq)) = earliest_timer(rest) {
            let k = choose|k: int|
                {
                    &&& 0 <= k < rest.len()
                    &&& #[trigger] rest[k] matches CommandView::StartTimer {
                        seq: q,
                        fire_after_ms: d,
                    } && q == seq && d == ms
                };
            assert(pending[k] == rest[k]);
        }
    }
}

/// Writing an event adds it to the log with the time of the clock. Nothing else
/// changes.
pub proof fn law_writing_stamps_with_the_clock<F>(s: Engine<F>, attrs: EventView)
    requires
        s.history.len() < u64::MAX,
    ensures
        ({
            let e = s.wrote(attrs);
            let n = s.history.len() as int;
            &&& e.worker == s.worker
            &&& e.history.len() == n + 1
            &&& forall|i: int| 0 <= i < n ==> #[trigger] e.history[i] == s.history[i]
            &&& e.history[n].event_id == n + 1
            &&& e.history[n].time_ms == s.worker.clock_ms
            &&& e.history[n].attrs == attrs
        }),
{
}

/// The clock moves by as much as it is told to, if it has the room. Nothing else
/// changes.
pub proof fn law_the_clock_moves_as_told<F>(s: Engine<F>, ms: u64)
    ensures
        s.can_tick(ms) <==> s.worker.clock_ms + ms <= 0xffff_ffff_ffff_ffff,
        s.can_tick(ms) ==> s.ticked(ms).worker.clock_ms == s.worker.clock_ms + ms,
        s.ticked(ms).history == s.history,
        s.ticked(ms).worker.registry == s.worker.registry,
        s.ticked(ms).worker.crash == s.worker.crash,
        s.ticked(ms).worker.completion_order == s.worker.completion_order,
        s.ticked(ms).worker.trace == s.worker.trace,
        s.ticked(ms).worker.trace_lines == s.worker.trace_lines,
        s.ticked(ms).worker.activities_run == s.worker.activities_run,
{
}

/// A worker that picks a log up sets its clock to the last time in it, unless it is
/// later already. Nothing else changes.
pub proof fn law_a_worker_is_never_behind_the_log<F>(s: Engine<F>)
    ensures
        s.resumed().worker.clock_ms >= s.worker.clock_ms,
        s.history.len() > 0 ==> s.resumed().worker.clock_ms >= s.history[s.history.len()
            - 1].time_ms,
        s.resumed().worker.clock_ms == s.worker.clock_ms || (s.history.len() > 0
            && s.resumed().worker.clock_ms == s.history[s.history.len() - 1].time_ms),
        s.resumed().history == s.history,
        s.resumed().worker.registry == s.worker.registry,
        s.resumed().worker.crash == s.worker.crash,
        s.resumed().worker.completion_order == s.worker.completion_order,
        s.resumed().worker.trace == s.worker.trace,
        s.resumed().worker.trace_lines == s.worker.trace_lines,
        s.resumed().worker.activities_run == s.worker.activities_run,
{
}

/// Tracing adds the lines to the trace if it is on, and does nothing if it is off.
pub proof fn law_tracing_adds_lines<F>(s: Engine<F>, lines: Seq<Text>)
    ensures
        !s.worker.trace ==> s.traced(lines) == s,
        s.worker.trace ==> s.traced(lines).worker.trace_lines == s.worker.trace_lines + lines,
        s.traced(lines).history == s.history,
        s.traced(lines).worker.registry == s.worker.registry,
        s.traced(lines).worker.crash == s.worker.crash,
        s.traced(lines).worker.completion_order == s.worker.completion_order,
        s.traced(lines).worker.trace == s.worker.trace,
        s.traced(lines).worker.activities_run == s.worker.activities_run,
        s.traced(lines).worker.clock_ms == s.worker.clock_ms,
{
}

/// A task begins one millisecond after the clock, with the event that says so.
pub proof fn law_a_task_begins_with_its_start<F>(s: Engine<F>, attempt: u32)
    requires
        s.history.len() < u64::MAX,
        s.worker.clock_ms < u64::MAX,
    ensures
        ({
            let e = task_begun(s, attempt);
            let n = s.history.len() as int;
            &&& e.history.len() == n + 1
            &&& forall|i: int| 0 <= i < n ==> #[trigger] e.history[i] == s.history[i]
            &&& e.history[n].event_id == n + 1
            &&& e.history[n].time_ms == s.worker.clock_ms + 1
            &&& e.history[n].attrs == (EventView::WorkflowTaskStarted { attempt })
            &&& e.worker.clock_ms == s.worker.clock_ms + 1
            &&& e.worker.registry == s.worker.registry
        }),
{
}

/// New commands are written down in the order in which they were issued, one event
/// each, with all their fields and the time of the clock. Nothing is executed.
pub proof fn law_new_commands_are_written_in_order<F>(s: Engine<F>, fresh: Seq<CommandView>)
    requires
        s.history.len() + fresh.len() <= u64::MAX,
    ensures
        ({
            let e = persisted(s, fresh);
            let n = s.history.len() as int;
            &&& e.history.len() == n + fresh.len()
            &&& forall|i: int| 0 <= i < n ==> #[trigger] e.history[i] == s.history[i]
            &&& forall|j: int|
                0 <= j < fresh.len() ==> {
                    let w = #[trigger] e.history[n + j];
                    &&& w.event_id == n + j + 1
                    &&& w.time_ms == s.worker.clock_ms
                    &&& match fresh[j] {
                        CommandView::ScheduleActivity { seq, activity_type, input } => w.attrs
                            == (EventView::ActivityTaskScheduled { seq, activity_type, input }),
                        CommandView::StartTimer { seq, fire_after_ms } => w.attrs == (
                        EventView::TimerStarted { seq, fire_after_ms }),
                        CommandView::RecordMarker { seq, marker_name, value } => w.attrs == (
                        EventView::MarkerRecorded { seq, marker_name, value }),
                    }
                }
            &&& e.worker.registry == s.worker.registry
            &&& e.worker.crash == s.worker.crash
            &&& e.worker.completion_order == s.worker.completion_order
            &&& e.worker.trace == s.worker.trace
            &&& e.worker.activities_run == s.worker.activities_run
            &&& e.worker.clock_ms == s.worker.clock_ms
            &&& s.worker.trace ==> {
                let k = s.worker.trace_lines.len() as int;
                &&& e.worker.trace_lines.len() == k + fresh.len()
                &&& forall|i: int|
                    0 <= i < k ==> #[trigger] e.worker.trace_lines[i] == s.worker.trace_lines[i]
                &&& forall|j: int|
                    0 <= j < fresh.len() ==> #[trigger] e.worker.trace_lines[k + j]
                        == "      + "@ + fresh[j].describe()
            }
        }),
    decreases fresh.len(),
{
    if fresh.len() > 0 {
        let rest = fresh.drop_last();
        law_new_commands_are_written_in_order(s, rest);
        let b = persisted(s, rest);
        let e = persisted(s, fresh);
        let n = s.history.len() as int;
        assert(e.history == b.wrote(fresh.last().to_event()).history);
        assert forall|j: int| 0 <= j < fresh.len() implies {
            let w = #[trigger] e.history[n + j];
            &&& w.event_id == n + j + 1
            &&& w.time_ms == s.worker.clock_ms
            &&& match fresh[j] {
                CommandView::ScheduleActivity { seq, activity_type, input } => w.attrs == (
                EventView::ActivityTaskScheduled { seq, activity_type, input }),
                CommandView::StartTimer { seq, fire_after_ms } => w.attrs == (
                EventView::TimerStarted { seq, fire_after_ms }),
                CommandView::RecordMarker { seq, marker_name, value } => w.attrs == (
                EventView::MarkerRecorded { seq, marker_name, value }),
            }
        } by {
            if j < rest.len() {
                assert(e.history[n + j] == b.history[n + j]);
                assert(rest[j] == fresh[j]);
            } else {
                assert(fresh[j] == fresh.last());
            }
        }
        if s.worker.trace {
            let k = s.worker.trace_lines.len() as int;
            assert(e.worker.trace_lines == b.worker.trace_lines + seq![
                "      + "@ + fresh.last().describe(),
            ]);
            assert forall|j: int| 0 <= j < fresh.len() implies #[trigger] e.worker.trace_lines[k
                + j] == "      + "@ + fresh[j].describe() by {
                if j < rest.len() {
                    assert(e.worker.trace_lines[k + j] == b.worker.trace_lines[k + j]);
                    assert(rest[j] == fresh[j]);
                }
            }
        }
    }
}

/// An activity gets its turn. If the count of activities and the clock have room, it
/// is executed once, with its type and input in full, and, ten milliseconds later,
/// what it reports is written down in full under its number. A worker that is told to
/// die at this activity does so just before, or just after, that event.
pub proof fn law_an_activity_gets_its_turn<F>(
    s: Engine<F>,
    seq: SeqNo,
    activity_type: Text,
    input: Text,
    report: Result<Text, Text>,
)
    requires
        s.history.len() < u64::MAX,
    ensures
        ({
            let (e, stop) = activity_turn(s, seq, activity_type, input, report);
            let n = s.worker.activities_run;
            let loses = s.worker.crash == CrashPolicy::BeforeRecording((n + 1) as usize);
            let room = n < usize::MAX && (loses || s.worker.clock_ms + 10
                <= 0xffff_ffff_ffff_ffff);
            let h = s.history.len() as int;
            let x = s.worker.registry.executions.len() as int;
            if !room {
                e == s && stop == Some(Progress::Exhausted)
            } else {
                &&& e.worker.registry.fns == s.worker.registry.fns
                &&& e.worker.registry.executions.len() == x + 1
                &&& forall|i: int|
                    0 <= i < x ==> #[trigger] e.worker.registry.executions[i]
                        == s.worker.registry.executions[i]
                &&& e.worker.registry.executions[x] == (ExecutionView { activity_type, input })
                &&& e.worker.activities_run == n + 1
                &&& e.worker.crash == s.worker.crash
                &&& e.worker.completion_order == s.worker.completion_order
                &&& e.worker.trace == s.worker.trace
                &&& if loses {
                    &&& e.history == s.history
                    &&& e.worker.clock_ms == s.worker.clock_ms
                    &&& stop == Some(
                        Progress::Crashed {
                            after_activity: (n + 1) as usize,
                            result_recorded: false,
                        },
                    )
                } else {
                    &&& e.worker.clock_ms == s.worker.clock_ms + 10
                    &&& e.history.len() == h + 1
                    &&& forall|i: int| 0 <= i < h ==> #[trigger] e.history[i] == s.history[i]
                    &&& e.history[h].event_id == h + 1
                    &&& e.history[h].time_ms == s.worker.clock_ms + 10
                    &&& match report {
                        Ok(result) => e.history[h].attrs == (EventView::ActivityTaskCompleted {
                            seq,
                            result,
                        }),
                        Err(failure) => e.history[h].attrs == (EventView::ActivityTaskFailed {
                            seq,
                            failure,
                        }),
                    }
                    &&& stop == if s.worker.crash == CrashPolicy::AfterRecording(
                        (n + 1) as usize,
                    ) {
                        Some(
                            Progress::Crashed {
                                after_activity: (n + 1) as usize,
                                result_recorded: true,
                            },
                        )
                    } else {
                        None
                    }
                }
            }
        }),
{
}

/// The trace tells of an activity's turn: that it ran, with type and input, what it
/// reported, and that the worker died, if it did.
pub proof fn law_an_activitys_turn_is_traced<F>(
    s: Engine<F>,
    seq: SeqNo,
    activity_type: Text,
    input: Text,
    report: Result<Text, Text>,
)
    requires
        s.worker.trace,
        s.can_run_activity(),
    ensures
        ({
            let (e, stop) = activity_turn(s, seq, activity_type, input, report);
            let run = "   >> RUN "@ + activity_type + "("@ + input
                + ")   *** REAL SIDE EFFECT ***"@;
            let told = match report {
                Ok(result) => "   << ActivityTaskCompleted ["@ + decimal(seq as nat) + "] -> "@
                    + result,
                Err(failure) => "   << ActivityTaskFailed ["@ + decimal(seq as nat) + "] !! "@
                    + failure,
            };
            let died = "   !! WORKER DIED after side effect #"@ + decimal(
                e.worker.activities_run as nat,
            );
            e.worker.trace_lines == s.worker.trace_lines + match stop {
                Some(Progress::Crashed { result_recorded: false, .. }) => seq![
                    run,
                    died + ", before recording its result"@,
                ],
                Some(_) => seq![run, told, died + ", result already durable"@],
                None => seq![run, told],
            }
        }),
{
    let (e, stop) = activity_turn(s, seq, activity_type, input, report);
    let run = "   >> RUN "@ + activity_type + "("@ + input + ")   *** REAL SIDE EFFECT ***"@;
    let told = match report {
        Ok(result) => "   << ActivityTaskCompleted ["@ + decimal(seq as nat) + "] -> "@ + result,
        Err(failure) => "   << ActivityTaskFailed ["@ + decimal(seq as nat) + "] !! "@ + failure,
    };
    let died = "   !! WORKER DIED after side effect #"@ + decimal(e.worker.activities_run as nat);
    let lines = s.worker.trace_lines;
    assert(lines + seq![run] + seq![told] =~= lines + seq![run, told]);
    assert(lines + seq![run] + seq![told] + seq![died + ", result already durable"@] =~= lines
        + seq![run, told, died + ", result already durable"@]);
    assert(lines + seq![run] + seq![died + ", before recording its result"@] =~= lines + seq![
        run,
        died + ", before recording its result"@,
    ]);
}

/// The turn of one waiting command takes the world's turn from `a` to `b`: an activity
/// runs, unless the world's turn has ended, and nothing else moves.
pub open spec fn one_turn<F>(
    a: Advance<F>,
    c: CommandView,
    report: Result<Text, Text>,
    b: Advance<F>,
) -> bool {
    match c {
        CommandView::ScheduleActivity { seq, activity_type, input } => if a.stop is None {
            &&& (b.engine, b.stop) == activity_turn(a.engine, seq, activity_type, input, report)
            &&& b.made == (a.made || b.stop is None)
        } else {
            b == a
        },
        _ => b == a,
    }
}

/// The activities that wait have their turns one after the other, in the order of the
/// pending commands, until one of them ends the world's turn. Timers have none.
/// Returns the states before, between and after the turns.
pub proof fn law_activities_have_their_turns_in_order<F>(
    s: Engine<F>,
    pending: Seq<CommandView>,
    reports: Seq<Result<Text, Text>>,
) -> (states: Seq<Advance<F>>)
    requires
        reports.len() == pending.len(),
    ensures
        states.len() == pending.len() + 1,
        states[0].engine == s,
        !states[0].made,
        states[0].stop is None,
        states[pending.len() as int] == activities_done(s, pending, reports),
        forall|i: int|
            0 <= i < pending.len() ==> one_turn(
                states[i],
                #[trigger] pending[i],
                reports[i],
                states[i + 1],
            ),
    decreases pending.len(),
{
    if pending.len() == 0 {
        seq![activities_done(s, pending, reports)]
    } else {
        let n = pending.len() - 1;
        let rest = pending.drop_last();
        let first = law_activities_have_their_turns_in_order(s, rest, reports.drop_last());
        let states = first.push(activities_done(s, pending, reports));
        assert forall|i: int| 0 <= i < pending.len() implies one_turn(
            states[i],
            #[trigger] pending[i],
            reports[i],
            states[i + 1],
        ) by {
            if i < n {
                assert(rest[i] == pending[i]);
                assert(one_turn(first[i], rest[i], reports.drop_last()[i], first[i + 1]));
            } else {
                lemma_last_turn_is_one(s, pending, reports);
            }
        }
        states
    }
}

proof fn lemma_last_turn_is_one<F>(
    s: Engine<F>,
    pending: Seq<CommandView>,
    reports: Seq<Result<Text, Text>>,
)
    requires
        pending.len() > 0,
    ensures
        one_turn(
            activities_done(s, pending.drop_last(), reports.drop_last()),
            pending.last(),
            reports.last(),
            activities_done(s, pending, reports),
        ),
{
}

/// The world's turn. The waiting activities have their turns. If one of them ended
/// the world's turn, that is its end; if one reported, progress was made. If none
/// waited, the timer with the least delay fires: the clock moves by that delay and no
/// more, and one event says so. If nothing waited, the world is stuck.
pub proof fn law_the_world_has_its_turn<F>(s: Engine<F>, reports: Seq<Result<Text, Text>>)
    requires
        s.history.len() < u64::MAX,
    ensures
        ({
            let pending = pending_of(s.history, s.worker.completion_order);
            let a = activities_done(s, pending, reports);
            let (e, p) = advanced(s, reports);
            let n = s.history.len() as int;
            &&& a.stop matches Some(why) ==> e == a.engine && p == why
            &&& a.stop is None && a.made ==> e == a.engine && p is Made
            &&& a.stop is None && !a.made ==> match earliest_timer(pending) {
                None => e == a.engine && p is Stuck,
                Some((ms, seq)) => if a.engine.worker.clock_ms + ms > 0xffff_ffff_ffff_ffff {
                    e == a.engine && p is Exhausted
                } else {
                    let h = a.engine.history;
                    &&& p is Made
                    &&& e.worker.registry == a.engine.worker.registry
                    &&& e.worker.clock_ms == a.engine.worker.clock_ms + ms
                    &&& e.history.len() == h.len() + 1
                    &&& forall|i: int| 0 <= i < h.len() ==> #[trigger] e.history[i] == h[i]
                    &&& e.history[h.len() as int].time_ms == a.engine.worker.clock_ms + ms
                    &&& e.history[h.len() as int].attrs == (EventView::TimerFired { seq })
                    &&& e.worker.trace ==> e.worker.trace_lines
                        == a.engine.worker.trace_lines.push(
                        "   ~~ clock -> "@ + decimal(e.worker.clock_ms as nat)
                            + "ms, TimerFired ["@ + decimal(seq as nat) + "]"@,
                    )
                },
            }
        }),
{
    let pending = pending_of(s.history, s.worker.completion_order);
    let a = activities_done(s, pending, reports);
    if a.stop is None && !a.made {
        if let Some((ms, seq)) = earliest_timer(pending) {
            if a.engine.can_tick(ms) {
                let due = a.engine.ticked(ms);
                let line = "   ~~ clock -> "@ + decimal(due.worker.clock_ms as nat)
                    + "ms, TimerFired ["@ + decimal(seq as nat) + "]"@;
                assert(a.engine.worker.trace_lines + seq![line]
                    =~= a.engine.worker.trace_lines.push(line));
            }
        }
    }
}

/// A timer fires alone: where no activity waits, the world's turn executes nothing,
/// and the log grows by the firing of the timer with the least delay, stamped with
/// the clock moved by that delay.
pub proof fn law_a_timer_fires_at_its_time<F>(
    s: Engine<F>,
    reports: Seq<Result<Text, Text>>,
    ms: u64,
    seq: SeqNo,
)
    requires
        ({
            let pending = pending_of(s.history, s.worker.completion_order);
            &&& reports.len() == pending.len()
            &&& !exists|i: int|
                0 <= i < pending.len() && (#[trigger] pending[i]) is ScheduleActivity
            &&& pending.contains(CommandView::StartTimer { seq, fire_after_ms: ms })
            &&& forall|i: int|
                0 <= i < pending.len() ==> (#[trigger] pending[i] matches
                    CommandView::StartTimer { seq: q, fire_after_ms: d } ==> ms <= d && (ms == d
                    ==> seq <= q))
        }),
        s.worker.clock_ms + ms <= u64::MAX,
        s.history.len() < u64::MAX,
    ensures
        ({
            let (e, p) = advanced(s, reports);
            let n = s.history.len() as int;
            &&& p is Made
            &&& e.worker.registry == s.worker.registry
            &&& e.worker.clock_ms == s.worker.clock_ms + ms
            &&& e.history.len() == n + 1
            &&& forall|i: int| 0 <= i < n ==> #[trigger] e.history[i] == s.history[i]
            &&& e.history[n].time_ms == s.worker.clock_ms + ms
            &&& e.history[n].attrs == (EventView::TimerFired { seq })
        }),
{
    let pending = pending_of(s.history, s.worker.completion_order);
    lemma_nothing_to_attempt(s, pending, reports);
    law_the_least_delay_fires_first(pending);
    let t = CommandView::StartTimer { seq, fire_after_ms: ms };
    let k = choose|k: int| 0 <= k < pending.len() && pending[k] == t;
    assert(pending[k] is StartTimer);
    law_the_world_has_its_turn(s, reports);
}

/// What the world's turn means for the run: another task after progress, unless the
/// tasks cannot be counted any more, and else its end.
pub proof fn law_progress_calls_for_another_task(p: Progress, attempt: u32)
    ensures
        p is Made && attempt < 0xffff_ffff ==> after_advance(p, attempt) is None,
        p is Made && attempt == 0xffff_ffff ==> after_advance(p, attempt) == Some(
            RunOutcomeView::Exhausted,
        ),
        p is Stuck ==> after_advance(p, attempt) == Some(RunOutcomeView::Deadlocked),
        p is Exhausted ==> after_advance(p, attempt) == Some(RunOutcomeView::Exhausted),
        p matches Progress::Crashed { after_activity, result_recorded } ==> after_advance(
            p,
            attempt,
        ) == Some(RunOutcomeView::Crashed { after_activity, result_recorded }),
{
}

/// How an execution ends is what its workflow returned, in the log and as the outcome.
pub proof fn law_an_execution_ends_with_what_was_returned(text: Text)
    ensures
        ending(Ok::<Text, Text>(text)) == (EventView::WorkflowExecutionCompleted { result: text }),
        ending(Err::<Text, Text>(text)) == (EventView::WorkflowExecutionFailed { failure: text }),
        ended(Ok::<Text, Text>(text)) == RunOutcomeView::Completed(text),
        ended(Err::<Text, Text>(text)) == RunOutcomeView::Failed(text),
        instead_of_issuing(Poll::Ready(Ok::<Text, Text>(text)))
            == "<workflow finished without issuing it>"@,
        instead_of_issuing(Poll::Ready(Err::<Text, Text>(text)))
            == "<workflow finished without issuing it>"@,
        instead_of_issuing(Poll::Pending) == "<workflow blocked without issuing it>"@,
{
}

/// An activity is owed exactly if one is among the commands that wait; where none is,
/// every activity on record has a result.
pub proof fn law_an_activity_is_owed_while_it_waits(h: Seq<HistoryEventView>, i: int)
    ensures
        has_activity(pending_of(h, CompletionOrder::InOrder)) <==> exists|c: CommandView| #[trigger]
            pending_of(h, CompletionOrder::InOrder).contains(c) && c is ScheduleActivity,
        all_attempted(h) && 0 <= i < commands_of(h).len() && commands_of(h)[i] is ScheduleActivity
            ==> exists|k: int|
            0 <= k < h.len() && answers((#[trigger] h[k]).attrs, commands_of(h)[i].seq()),
{
    let pending = pending_of(h, CompletionOrder::InOrder);
    if has_activity(pending) {
        let j = choose|j: int|
            0 <= j < pending.len() && (#[trigger] pending[j]) is ScheduleActivity;
        assert(pending.contains(pending[j]));
    }
    if exists|c: CommandView| #[trigger] pending.contains(c) && c is ScheduleActivity {
        let c = choose|c: CommandView| #[trigger] pending.contains(c) && c is ScheduleActivity;
        let j = choose|j: int| 0 <= j < pending.len() && pending[j] == c;
        assert(pending[j] is ScheduleActivity);
    }
    if 0 <= i < commands_of(h).len() {
        law_a_result_resolves_its_command(h, commands_of(h)[i].seq());
    }
}

/// The trace of a task begins with its attempt, goes on with the commands that were
/// issued again, one line each and in order, and ends with the lines that the
/// workflow logged.
pub proof fn law_a_task_is_traced_from_its_start(attempt: u32, recorded: nat, pass: PassView)
    ensures
        ({
            let lines = task_lines(attempt, recorded, pass);
            let again = if pass.commands.len() < recorded {
                pass.commands.len() as int
            } else {
                recorded as int
            };
            let from: int = if again > 0 {
                2 + again
            } else {
                1
            };
            &&& lines.len() == from + pass.logs.len()
            &&& lines[0] == "\n-- workflow task (attempt "@ + decimal(attempt as nat) + ") --"@
            &&& again > 0 ==> lines[1] == "   replayed "@ + decimal(again as nat)
                + " command(s) from history (no side effects):"@
            &&& forall|i: int|
                #![trigger pass.commands[i]]
                0 <= i < again ==> lines[2 + i] == "      = "@ + pass.commands[i].describe()
            &&& forall|i: int|
                #![trigger pass.logs[i]]
                0 <= i < pass.logs.len() ==> lines[from + i] == "   [wf log] "@ + pass.logs[i]
        }),
{
}

} // verus!
