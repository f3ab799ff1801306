//! When two commands count as the same, and what contracts see of a value.

use vstd::prelude::*;

use crate::activity::{execution_views, Execution};
use crate::combinators::Either;
use crate::command::{command_views, Command, CommandView};
use crate::coroutine::{Observe, Poll};
use crate::driver::{RunOutcome, RunOutcomeView};
use crate::engine::{agree, diverge_at};
use crate::history::{
    event_views, result_views, Event, EventView, HistoryEvent, Outcome, OutcomeView,
    RecordedResult,
};
use crate::text::{texts, Text};
use crate::workflow::ActivityFailure;

verus! {

/// Matching is an equivalence: a command matches itself, in both directions, and
/// through a third one.
pub proof fn law_matching_is_an_equivalence(a: CommandView, b: CommandView, c: CommandView)
    ensures
        a.matches(a),
        a.matches(b) == b.matches(a),
        a.matches(b) && b.matches(c) ==> a.matches(c),
{
}

/// Matching looks at the shape only: activities that differ in nothing but the
/// input match, and so do markers that differ in nothing but the value, and
/// timers that differ in nothing but the delay.
pub proof fn law_the_payload_does_not_count(
    seq: u32,
    name: Text,
    one: Text,
    other: Text,
    ms: u64,
    other_ms: u64,
)
    ensures
        (CommandView::ScheduleActivity { seq, activity_type: name, input: one }).matches(
            CommandView::ScheduleActivity { seq, activity_type: name, input: other },
        ),
        (CommandView::RecordMarker { seq, marker_name: name, value: one }).matches(
            CommandView::RecordMarker { seq, marker_name: name, value: other },
        ),
        (CommandView::StartTimer { seq, fire_after_ms: ms }).matches(
            CommandView::StartTimer { seq, fire_after_ms: other_ms },
        ),
{
}

/// What is compared is kind, number and name, each as a whole. Two activities match
/// only under one number and one type, two markers only under one number and one
/// name, two timers only under one number, and nothing else matches.
pub proof fn law_a_match_is_of_kind_number_and_name(a: CommandView, b: CommandView)
    ensures
        a.matches(b) <==> match (a, b) {
            (
                CommandView::ScheduleActivity { seq: p, activity_type: t, .. },
                CommandView::ScheduleActivity { seq: q, activity_type: u, .. },
            ) => p == q && t.len() == u.len() && forall|i: int|
                0 <= i < t.len() ==> t[i] == u[i],
            (
                CommandView::RecordMarker { seq: p, marker_name: t, .. },
                CommandView::RecordMarker { seq: q, marker_name: u, .. },
            ) => p == q && t.len() == u.len() && forall|i: int|
                0 <= i < t.len() ==> t[i] == u[i],
            (
                CommandView::StartTimer { seq: p, .. },
                CommandView::StartTimer { seq: q, .. },
            ) => p == q,
            _ => false,
        },
{
    match (a, b) {
        (
            CommandView::ScheduleActivity { activity_type: t, .. },
            CommandView::ScheduleActivity { activity_type: u, .. },
        ) => {
            if t.len() == u.len() && (forall|i: int| 0 <= i < t.len() ==> t[i] == u[i]) {
                assert(t =~= u);
            }
        },
        (
            CommandView::RecordMarker { marker_name: t, .. },
            CommandView::RecordMarker { marker_name: u, .. },
        ) => {
            if t.len() == u.len() && (forall|i: int| 0 <= i < t.len() ==> t[i] == u[i]) {
                assert(t =~= u);
            }
        },
        _ => {},
    }
}

/// Each kind of command has its own name, and only a marker is passed without
/// waiting for an answer.
pub proof fn law_a_kind_has_one_name(c: CommandView)
    ensures
        c is ScheduleActivity <==> c.kind() == "ScheduleActivity"@,
        c is StartTimer <==> c.kind() == "StartTimer"@,
        c is RecordMarker <==> c.kind() == "RecordMarker"@,
        c.is_blocking() <==> c is ScheduleActivity || c is StartTimer,
{
    reveal_strlit("ScheduleActivity");
    reveal_strlit("StartTimer");
    reveal_strlit("RecordMarker");
    assert("ScheduleActivity"@.len() == 16);
    assert("StartTimer"@.len() == 10);
    assert("RecordMarker"@.len() == 12);
}

/// The number of a command is the one that it was issued under.
pub proof fn law_a_command_has_its_number(seq: u32, name: Text, payload: Text, ms: u64)
    ensures
        (CommandView::ScheduleActivity { seq, activity_type: name, input: payload }).seq() == seq,
        (CommandView::StartTimer { seq, fire_after_ms: ms }).seq() == seq,
        (CommandView::RecordMarker { seq, marker_name: name, value: payload }).seq() == seq,
        (CommandView::ScheduleActivity { seq, activity_type: name, input: payload }).name()
            == name,
        (CommandView::RecordMarker { seq, marker_name: name, value: payload }).name() == name,
{
}

/// The content of a command is all that it holds: two commands with one content
/// hold the same.
pub proof fn law_a_command_shows_all_it_holds(a: Command, b: Command)
    requires
        a@ == b@,
    ensures
        match (a, b) {
            (
                Command::ScheduleActivity { seq: p, activity_type: t, input: x },
                Command::ScheduleActivity { seq: q, activity_type: u, input: y },
            ) => p == q && t@ == u@ && x@ == y@,
            (
                Command::StartTimer { seq: p, fire_after_ms: x },
                Command::StartTimer { seq: q, fire_after_ms: y },
            ) => p == q && x == y,
            (
                Command::RecordMarker { seq: p, marker_name: t, value: x },
                Command::RecordMarker { seq: q, marker_name: u, value: y },
            ) => p == q && t@ == u@ && x@ == y@,
            _ => false,
        },
{
}

/// The content of a command has its fields as they are.
pub proof fn law_a_command_is_its_fields(c: Command)
    ensures
        c matches Command::ScheduleActivity { seq, activity_type, input } ==> c@ == (
            CommandView::ScheduleActivity { seq, activity_type: activity_type@, input: input@ }),
        c matches Command::StartTimer { seq, fire_after_ms } ==> c@ == (CommandView::StartTimer {
            seq,
            fire_after_ms,
        }),
        c matches Command::RecordMarker { seq, marker_name, value } ==> c@ == (
            CommandView::RecordMarker { seq, marker_name: marker_name@, value: value@ }),
{
}

/// The contents of a list stand in the order of the list, one for each.
pub proof fn law_contents_stand_in_order(
    commands: Seq<Command>,
    events: Seq<HistoryEvent>,
    results: Seq<RecordedResult>,
    executions: Seq<Execution>,
    lines: Seq<String>,
)
    ensures
        command_views(commands).len() == commands.len(),
        forall|i: int|
            0 <= i < commands.len() ==> #[trigger] command_views(commands)[i] == commands[i]@,
        event_views(events).len() == events.len(),
        forall|i: int|
            0 <= i < events.len() ==> #[trigger] event_views(events)[i] == events[i]@,
        result_views(results).len() == results.len(),
        forall|i: int|
            0 <= i < results.len() ==> #[trigger] result_views(results)[i] == results[i]@,
        execution_views(executions).len() == executions.len(),
        forall|i: int|
            0 <= i < executions.len() ==> #[trigger] execution_views(executions)[i]
                == executions[i]@,
        texts(lines).len() == lines.len(),
        forall|i: int| 0 <= i < lines.len() ==> #[trigger] texts(lines)[i] == lines[i]@,
{
}

/// The content of an event in the log is all that it holds.
pub proof fn law_an_event_is_its_fields(e: HistoryEvent)
    ensures
        e@.event_id == e.event_id,
        e@.time_ms == e.time_ms,
        e.attrs matches Event::WorkflowExecutionStarted { input, randomness_seed }
            ==> e@.attrs == (EventView::WorkflowExecutionStarted {
            input: input@,
            randomness_seed,
        }),
        e.attrs matches Event::WorkflowTaskStarted { attempt } ==> e@.attrs == (
            EventView::WorkflowTaskStarted { attempt }),
        e.attrs matches Event::ActivityTaskScheduled { seq, activity_type, input }
            ==> e@.attrs == (EventView::ActivityTaskScheduled {
            seq,
            activity_type: activity_type@,
            input: input@,
        }),
        e.attrs matches Event::ActivityTaskCompleted { seq, result } ==> e@.attrs == (
            EventView::ActivityTaskCompleted { seq, result: result@ }),
        e.attrs matches Event::ActivityTaskFailed { seq, failure } ==> e@.attrs == (
            EventView::ActivityTaskFailed { seq, failure: failure@ }),
        e.attrs matches Event::TimerStarted { seq, fire_after_ms } ==> e@.attrs == (
            EventView::TimerStarted { seq, fire_after_ms }),
        e.attrs matches Event::TimerFired { seq } ==> e@.attrs == (EventView::TimerFired { seq }),
        e.attrs matches Event::MarkerRecorded { seq, marker_name, value } ==> e@.attrs == (
            EventView::MarkerRecorded { seq, marker_name: marker_name@, value: value@ }),
        e.attrs matches Event::WorkflowExecutionCompleted { result } ==> e@.attrs == (
            EventView::WorkflowExecutionCompleted { result: result@ }),
        e.attrs matches Event::WorkflowExecutionFailed { failure } ==> e@.attrs == (
            EventView::WorkflowExecutionFailed { failure: failure@ }),
{
}

/// The content of a recorded result, an execution, or what a run gave, is all that
/// it holds.
pub proof fn law_a_result_is_its_fields(r: RecordedResult, x: Execution, out: RunOutcome)
    ensures
        r@.seq == r.seq,
        r@.time_ms == r.time_ms,
        r.outcome matches Outcome::Completed(p) ==> r@.outcome == OutcomeView::Completed(p@),
        r.outcome matches Outcome::Failed(f) ==> r@.outcome == OutcomeView::Failed(f@),
        x@.activity_type == x.activity_type@,
        x@.input == x.input@,
        out matches RunOutcome::Completed(p) ==> out@ == RunOutcomeView::Completed(p@),
        out matches RunOutcome::Failed(f) ==> out@ == RunOutcomeView::Failed(f@),
        out matches RunOutcome::Crashed { after_activity, result_recorded } ==> out@ == (
            RunOutcomeView::Crashed { after_activity, result_recorded }),
        out matches RunOutcome::NonDeterminism { index, expected, actual } ==> out@ == (
            RunOutcomeView::NonDeterminism { index, expected: expected@, actual: actual@ }),
        out is Deadlocked ==> out@ is Deadlocked,
        out is Exhausted ==> out@ is Exhausted,
{
}

/// What workflow code hands over is seen as it is: text, success or failure, pairs,
/// and whether it waits.
pub proof fn law_a_value_is_seen_as_it_is(
    s: String,
    f: ActivityFailure,
    r: Result<String, String>,
    a: Result<String, ActivityFailure>,
    p: Poll<Result<String, String>>,
    pair: (String, String),
    some: Option<String>,
    either: Either<String, String>,
    list: Vec<String>,
)
    ensures
        s.observed() == s@,
        f.observed() == f.0@,
        r matches Ok(x) ==> r.observed() == Ok::<Text, Text>(x@),
        r matches Err(x) ==> r.observed() == Err::<Text, Text>(x@),
        a matches Ok(x) ==> a.observed() == Ok::<Text, Text>(x@),
        a matches Err(x) ==> a.observed() == Err::<Text, Text>(x.0@),
        p matches Poll::Ready(Ok(x)) ==> p.observed() == Poll::Ready(Ok::<Text, Text>(x@)),
        p matches Poll::Ready(Err(x)) ==> p.observed() == Poll::Ready(Err::<Text, Text>(x@)),
        p is Pending ==> p.observed() is Pending,
        pair.observed() == (pair.0@, pair.1@),
        some matches Some(x) ==> some.observed() == Some(x@),
        some is None ==> some.observed() is None,
        either matches Either::Left(x) ==> either.observed() == Either::<Text, Text>::Left(x@),
        either matches Either::Right(x) ==> either.observed() == Either::<Text, Text>::Right(x@),
        list.observed().len() == list@.len(),
        forall|i: int|
            0 <= i < list@.len() ==> #[trigger] list.observed()[i] == list@[i].observed(),
{
}

/// Two command lists agree or part at exactly one first position.
pub proof fn law_divergence_has_one_place(
    commands: Seq<CommandView>,
    recorded: Seq<CommandView>,
    i: int,
    j: int,
)
    requires
        diverge_at(commands, recorded, i),
    ensures
        !agree(commands, recorded),
        diverge_at(commands, recorded, j) ==> j == i,
{
    assert(!commands[i].matches(recorded[i]));
    if diverge_at(commands, recorded, j) && j != i {
        if i < j {
            assert(commands.take(j)[i].matches(recorded[i]));
        } else {
            assert(commands.take(i)[j].matches(recorded[j]));
        }
    }
}

} // verus!
