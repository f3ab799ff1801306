//! What the log gives back of what was written to it.

use vstd::prelude::*;

use crate::command::CommandView;
use crate::history::{
    appended, before_last_task, commands_of, ends_once, final_result_of, fnv1a64_of,
    follows_idle_task, ids_count_up, input_of, is_resolved, is_terminal, last_time_of, markers_of,
    results_of, seed_for, seed_of, shown_results_of, started, without_idle_tasks, EventView,
    HistoryEventView, OutcomeView, RecordedResultView, SeqNo,
};
use crate::text::Text;
use crate::workflow::in_sequence;

verus! {

/// Writing a command's event and reading the commands back gives the command,
/// after those that were there.
pub proof fn law_a_written_command_is_read_back(
    h: Seq<HistoryEventView>,
    time_ms: u64,
    c: CommandView,
)
    ensures
        commands_of(appended(h, time_ms, c.to_event())) == commands_of(h).push(c),
        results_of(appended(h, time_ms, c.to_event())) == results_of(h),
{
    assert(appended(h, time_ms, c.to_event()).drop_last() =~= h);
}

/// Writing an activity's result and reading the results back gives that result,
/// after those that were there. The commands stay as they were.
pub proof fn law_a_written_result_is_read_back(
    h: Seq<HistoryEventView>,
    time_ms: u64,
    seq: SeqNo,
    outcome: OutcomeView,
)
    ensures
        ({
            let attrs = match outcome {
                OutcomeView::Completed(result) => EventView::ActivityTaskCompleted { seq, result },
                OutcomeView::Failed(failure) => EventView::ActivityTaskFailed { seq, failure },
            };
            let after = appended(h, time_ms, attrs);
            &&& results_of(after) == results_of(h).push(
                RecordedResultView { seq, outcome, time_ms },
            )
            &&& commands_of(after) == commands_of(h)
        }),
{
    let attrs = match outcome {
        OutcomeView::Completed(result) => EventView::ActivityTaskCompleted { seq, result },
        OutcomeView::Failed(failure) => EventView::ActivityTaskFailed { seq, failure },
    };
    assert(appended(h, time_ms, attrs).drop_last() =~= h);
}

/// A fired timer is read back as a completion without a payload.
pub proof fn law_a_fired_timer_is_read_back(h: Seq<HistoryEventView>, time_ms: u64, seq: SeqNo)
    ensures
        results_of(appended(h, time_ms, EventView::TimerFired { seq })) == results_of(h).push(
            RecordedResultView { seq, outcome: OutcomeView::Completed(Seq::empty()), time_ms },
        ),
        commands_of(appended(h, time_ms, EventView::TimerFired { seq })) == commands_of(h),
{
    assert(appended(h, time_ms, EventView::TimerFired { seq }).drop_last() =~= h);
}

/// A recorded marker is frozen: in a log whose commands are numbered in order,
/// the value on record for a marker command is the value that it carried.
pub proof fn law_a_recorded_marker_is_frozen(h: Seq<HistoryEventView>, i: int)
    requires
        in_sequence(commands_of(h)),
        0 <= i < commands_of(h).len(),
        commands_of(h)[i] is RecordMarker,
    ensures
        markers_of(h).contains_key(commands_of(h)[i].seq()),
        markers_of(h)[commands_of(h)[i].seq()] == commands_of(h)[i]->value,
    decreases h.len(),
{
    let before = h.drop_last();
    let c = commands_of(h)[i];
    assert forall|j: int| 0 <= j < commands_of(before).len() implies (
    #[trigger] commands_of(before)[j]).seq() == j by {
        assert(commands_of(h)[j] == commands_of(before)[j]);
    }
    if i < commands_of(before).len() {
        assert(commands_of(before)[i] == c);
        law_a_recorded_marker_is_frozen(before, i);
        match h.last().attrs {
            EventView::MarkerRecorded { seq, .. } => {
                let last = commands_of(h).len() - 1;
                assert(commands_of(h)[last].seq() == seq);
                assert(commands_of(h)[i].seq() == i);
            },
            _ => {},
        }
    }
}

/// Appending keeps what is there: no event changes, and ids go on counting.
pub proof fn law_appending_keeps_the_past(
    h: Seq<HistoryEventView>,
    time_ms: u64,
    attrs: EventView,
)
    requires
        ids_count_up(h),
        h.len() < u64::MAX,
    ensures
        h.is_prefix_of(appended(h, time_ms, attrs)),
        ids_count_up(appended(h, time_ms, attrs)),
        appended(h, time_ms, attrs).last().attrs == attrs,
        h.len() > 0 ==> input_of(appended(h, time_ms, attrs)) == input_of(h),
        h.len() > 0 ==> seed_of(appended(h, time_ms, attrs)) == seed_of(h),
{
    assert(appended(h, time_ms, attrs).subrange(0, h.len() as int) =~= h);
}

/// A log is closed exactly when its last event is terminal, and then it says how
/// the execution ended.
pub proof fn law_a_terminal_event_closes_the_log(
    h: Seq<HistoryEventView>,
    time_ms: u64,
    text: Text,
)
    ensures
        final_result_of(
            appended(h, time_ms, EventView::WorkflowExecutionCompleted { result: text }),
        ) == Some(Ok::<Text, Text>(text)),
        final_result_of(
            appended(h, time_ms, EventView::WorkflowExecutionFailed { failure: text }),
        ) == Some(Err::<Text, Text>(text)),
{
}

/// What one more event adds to the commands: its own, if it is the record of one,
/// with all its fields.
pub proof fn law_an_event_records_its_command(h: Seq<HistoryEventView>, e: HistoryEventView)
    ensures
        commands_of(Seq::empty()) == Seq::<CommandView>::empty(),
        commands_of(h.push(e)) == match e.attrs {
            EventView::ActivityTaskScheduled { seq, activity_type, input } => commands_of(h).push(
                CommandView::ScheduleActivity { seq, activity_type, input },
            ),
            EventView::TimerStarted { seq, fire_after_ms } => commands_of(h).push(
                CommandView::StartTimer { seq, fire_after_ms },
            ),
            EventView::MarkerRecorded { seq, marker_name, value } => commands_of(h).push(
                CommandView::RecordMarker { seq, marker_name, value },
            ),
            _ => commands_of(h),
        },
{
    assert(h.push(e).drop_last() =~= h);
    assert(commands_of(Seq::empty()) =~= Seq::empty());
}

/// The record of a command holds its fields as they are.
pub proof fn law_a_command_is_recorded_as_it_is(c: CommandView)
    ensures
        c.to_event() == match c {
            CommandView::ScheduleActivity { seq, activity_type, input } =>
                EventView::ActivityTaskScheduled { seq, activity_type, input },
            CommandView::StartTimer { seq, fire_after_ms } => EventView::TimerStarted {
                seq,
                fire_after_ms,
            },
            CommandView::RecordMarker { seq, marker_name, value } => EventView::MarkerRecorded {
                seq,
                marker_name,
                value,
            },
        },
{
}

/// What one more event adds to the results: its own, if it is one, with the event's
/// timestamp.
pub proof fn law_an_event_records_its_result(h: Seq<HistoryEventView>, e: HistoryEventView)
    ensures
        results_of(Seq::empty()) == Seq::<RecordedResultView>::empty(),
        results_of(h.push(e)) == match e.attrs {
            EventView::ActivityTaskCompleted { seq, result } => results_of(h).push(
                RecordedResultView {
                    seq,
                    outcome: OutcomeView::Completed(result),
                    time_ms: e.time_ms,
                },
            ),
            EventView::ActivityTaskFailed { seq, failure } => results_of(h).push(
                RecordedResultView {
                    seq,
                    outcome: OutcomeView::Failed(failure),
                    time_ms: e.time_ms,
                },
            ),
            EventView::TimerFired { seq } => results_of(h).push(
                RecordedResultView {
                    seq,
                    outcome: OutcomeView::Completed(Seq::empty()),
                    time_ms: e.time_ms,
                },
            ),
            _ => results_of(h),
        },
{
    assert(h.push(e).drop_last() =~= h);
    assert(results_of(Seq::empty()) =~= Seq::empty());
}

/// What one more event adds to the frozen values: its own, if it records a marker.
pub proof fn law_an_event_freezes_its_marker(
    h: Seq<HistoryEventView>,
    e: HistoryEventView,
    q: SeqNo,
)
    ensures
        !markers_of(Seq::empty()).contains_key(q),
        match e.attrs {
            EventView::MarkerRecorded { seq, value, .. } if seq == q => {
                &&& markers_of(h.push(e)).contains_key(q)
                &&& markers_of(h.push(e))[q] == value
            },
            _ => {
                &&& markers_of(h.push(e)).contains_key(q) == markers_of(h).contains_key(q)
                &&& markers_of(h).contains_key(q) ==> markers_of(h.push(e))[q] == markers_of(h)[q]
            },
        },
{
    assert(h.push(e).drop_last() =~= h);
}

/// The event is a result of the command with the number `seq`.
pub open spec fn answers(e: EventView, seq: SeqNo) -> bool {
    ||| e matches EventView::ActivityTaskCompleted { seq: q, .. } && q == seq
    ||| e matches EventView::ActivityTaskFailed { seq: q, .. } && q == seq
    ||| e matches EventView::TimerFired { seq: q } && q == seq
}

/// A command is resolved exactly when one of the events is a result of it.
pub proof fn law_a_result_resolves_its_command(h: Seq<HistoryEventView>, seq: SeqNo)
    ensures
        is_resolved(h, seq) <==> exists|i: int|
            0 <= i < h.len() && answers((#[trigger] h[i]).attrs, seq),
    decreases h.len(),
{
    if h.len() > 0 {
        let before = h.drop_last();
        let e = h.last();
        assert(h =~= before.push(e));
        law_a_result_resolves_its_command(before, seq);
        law_an_event_records_its_result(before, e);
        let n = results_of(before).len() as int;
        if is_resolved(before, seq) {
            let i = choose|i: int|
                0 <= i < n && (#[trigger] results_of(before)[i]).seq == seq;
            assert(results_of(h)[i].seq == seq);
            let k = choose|k: int|
                0 <= k < before.len() && answers((#[trigger] before[k]).attrs, seq);
            assert(answers(h[k].attrs, seq));
        }
        if answers(e.attrs, seq) {
            assert(results_of(h)[n].seq == seq);
            assert(answers(h[h.len() - 1].attrs, seq));
        }
        if is_resolved(h, seq) && !answers(e.attrs, seq) {
            let i = choose|i: int|
                0 <= i < results_of(h).len() && (#[trigger] results_of(h)[i]).seq == seq;
            assert(i < n);
            assert(results_of(before)[i].seq == seq);
        }
        if exists|i: int| 0 <= i < h.len() && answers((#[trigger] h[i]).attrs, seq) {
            let i = choose|i: int| 0 <= i < h.len() && answers((#[trigger] h[i]).attrs, seq);
            if i < before.len() {
                assert(answers(before[i].attrs, seq));
            }
        }
    }
}

/// The beginning of a log says what the execution started with, the end says how
/// late it is and whether it is over.
pub proof fn law_a_log_is_read_from_its_ends(h: Seq<HistoryEventView>)
    requires
        h.len() > 0,
    ensures
        h[0].attrs matches EventView::WorkflowExecutionStarted { input, randomness_seed }
            ==> input_of(h) == input && seed_of(h) == randomness_seed,
        last_time_of(h) == h[h.len() - 1].time_ms,
        h[h.len() - 1].attrs matches EventView::WorkflowExecutionCompleted { result }
            ==> final_result_of(h) == Some(Ok::<Text, Text>(result)),
        h[h.len() - 1].attrs matches EventView::WorkflowExecutionFailed { failure }
            ==> final_result_of(h) == Some(Err::<Text, Text>(failure)),
        final_result_of(h) is Some ==> h[h.len() - 1].attrs is WorkflowExecutionCompleted
            || h[h.len() - 1].attrs is WorkflowExecutionFailed,
        !(h[0].attrs is WorkflowExecutionStarted) ==> input_of(h).len() == 0 && seed_of(h) == 1,
        last_time_of(Seq::empty()) == 0,
        input_of(Seq::empty()).len() == 0,
        seed_of(Seq::empty()) == 1,
        final_result_of(Seq::empty()) is None,
{
}

/// One event is added, with the given time and attributes and the next id, and
/// nothing else changes.
pub proof fn law_appending_adds_one_event(
    h: Seq<HistoryEventView>,
    time_ms: u64,
    attrs: EventView,
)
    requires
        h.len() < u64::MAX,
    ensures
        ({
            let g = appended(h, time_ms, attrs);
            let n = h.len() as int;
            &&& g.len() == n + 1
            &&& forall|i: int| 0 <= i < n ==> #[trigger] g[i] == h[i]
            &&& g[n].event_id == n + 1
            &&& g[n].time_ms == time_ms
            &&& g[n].attrs == attrs
        }),
{
}

/// A new log holds its start alone, at time zero, with the input as it was given and
/// an odd seed.
pub proof fn law_a_new_log_holds_its_start(input: Text)
    ensures
        started(input).len() == 1,
        started(input)[0].event_id == 1,
        started(input)[0].time_ms == 0,
        started(input)[0].attrs matches EventView::WorkflowExecutionStarted {
            input: x,
            randomness_seed,
        } && x == input && randomness_seed % 2 == 1,
        commands_of(started(input)).len() == 0,
        results_of(started(input)).len() == 0,
        input_of(started(input)) == input,
        final_result_of(started(input)) is None,
{
    let h = fnv1a64_of(vstd::utf8::encode_utf8(input));
    assert((h | 1) % 2 == 1) by (bit_vector);
    let e = started(input)[0];
    assert(started(input) =~= Seq::<HistoryEventView>::empty().push(e));
    law_an_event_records_its_command(Seq::empty(), e);
    law_an_event_records_its_result(Seq::empty(), e);
}

/// The seed takes in every byte of the input, one after the other, and differs from
/// the hash in its lowest bit alone. One byte more multiplies the hash so far, with
/// the byte mixed in, by a fixed number, modulo two to the 64.
pub proof fn law_the_seed_takes_in_every_byte(input: Text, bytes: Seq<u8>, b: u8)
    ensures
        fnv1a64_of(Seq::empty()) == 14695981039346656037,
        fnv1a64_of(bytes.push(b)) == ((fnv1a64_of(bytes) ^ (b as u64)) * 17592186044851)
            % 0x1_0000_0000_0000_0000,
        seed_for(input) == fnv1a64_of(vstd::utf8::encode_utf8(input)) | 1,
        seed_for(input) / 2 == fnv1a64_of(vstd::utf8::encode_utf8(input)) / 2,
{
    assert(bytes.push(b).drop_last() =~= bytes);
    let h = fnv1a64_of(vstd::utf8::encode_utf8(input));
    assert((h | 1) / 2 == h / 2) by (bit_vector);
}

/// No event is the start of a task.
pub open spec fn without_starts(h: Seq<HistoryEventView>) -> bool {
    forall|i: int| 0 <= i < h.len() ==> !((#[trigger] h[i]).attrs is WorkflowTaskStarted)
}

/// Every event is the start of a task.
pub open spec fn only_starts(h: Seq<HistoryEventView>) -> bool {
    forall|i: int| 0 <= i < h.len() ==> (#[trigger] h[i]).attrs is WorkflowTaskStarted
}

proof fn lemma_before_rest(h: Seq<HistoryEventView>, rest: Seq<HistoryEventView>)
    requires
        without_starts(rest),
    ensures
        before_last_task(h + rest) == before_last_task(h),
    decreases rest.len(),
{
    if rest.len() == 0 {
        assert(h + rest =~= h);
    } else {
        assert((h + rest).last() == rest[rest.len() - 1]);
        assert((h + rest).drop_last() =~= h + rest.drop_last());
        lemma_before_rest(h, rest.drop_last());
    }
}

proof fn lemma_without_starts_at_the_end(
    h: Seq<HistoryEventView>,
    starts: Seq<HistoryEventView>,
)
    requires
        only_starts(starts),
        h.len() == 0 || !(h.last().attrs is WorkflowTaskStarted),
    ensures
        without_idle_tasks(h + starts) == h,
    decreases starts.len(),
{
    if starts.len() == 0 {
        assert(h + starts =~= h);
    } else {
        assert((h + starts).last() == starts[starts.len() - 1]);
        assert((h + starts).drop_last() =~= h + starts.drop_last());
        lemma_without_starts_at_the_end(h, starts.drop_last());
    }
}

/// Which results have been shown. Let a log consist of `f`, the start of a task, the
/// events that it left, a number of task starts in a row, and the events since. Then
/// what the task could show are the results in `f`; and the task under way follows an
/// idle one exactly when the starts in a row are more than one. Without an earlier
/// task that left something, nothing has been shown.
pub proof fn law_a_task_has_shown_what_was_there(
    f: Seq<HistoryEventView>,
    start: HistoryEventView,
    left: Seq<HistoryEventView>,
    starts: Seq<HistoryEventView>,
    since: Seq<HistoryEventView>,
)
    requires
        start.attrs is WorkflowTaskStarted,
        without_starts(left),
        only_starts(starts),
        starts.len() > 0,
        without_starts(since),
    ensures
        left.len() > 0 ==> shown_results_of(f.push(start) + left + starts + since) == Some(
            results_of(f).len(),
        ),
        left.len() > 0 ==> (follows_idle_task(f.push(start) + left + starts + since)
            <==> starts.len() > 1),
        shown_results_of(left + starts + since) is None,
        shown_results_of(since) is None,
        !follows_idle_task(since),
{
    let n = starts.len() as int;
    let before = starts.drop_last();
    assert forall|i: int| 0 <= i < before.len() implies (
    #[trigger] before[i]).attrs is WorkflowTaskStarted by {
        assert(starts[i].attrs is WorkflowTaskStarted);
    }
    let a = f.push(start) + left;
    if left.len() > 0 {
        lemma_before_rest(a + starts, since);
        assert((a + starts).last() == starts[n - 1]);
        assert((a + starts).drop_last() =~= a + before);
        assert(a.last() == left[left.len() - 1]);
        lemma_without_starts_at_the_end(a, before);
        lemma_before_rest(f.push(start), left);
        assert(f.push(start).drop_last() =~= f);
        if n > 1 {
            assert((a + before).last() == starts[n - 2]);
        } else {
            assert(a + before =~= a);
        }
    }
    lemma_before_rest(left + starts, since);
    assert((left + starts).last() == starts[n - 1]);
    assert((left + starts).drop_last() =~= left + before);
    if left.len() > 0 {
        assert(left.last() == left[left.len() - 1]);
    }
    lemma_without_starts_at_the_end(left, before);
    lemma_before_rest(Seq::empty(), left);
    assert(Seq::<HistoryEventView>::empty() + left =~= left);
    lemma_before_rest(Seq::empty(), since);
    assert(Seq::<HistoryEventView>::empty() + since =~= since);
}

/// An execution ends with a completion or a failure, and with nothing else. In a log that
/// ends once, neither stands before the last event; ids count from one.
pub proof fn law_a_log_ends_once(h: Seq<HistoryEventView>, e: EventView, i: int)
    ensures
        is_terminal(e) <==> e is WorkflowExecutionCompleted || e is WorkflowExecutionFailed,
        ends_once(h) && 0 <= i < h.len() - 1 ==> !(h[i].attrs is WorkflowExecutionCompleted)
            && !(h[i].attrs is WorkflowExecutionFailed),
        ids_count_up(h) && 0 <= i < h.len() ==> h[i].event_id == i + 1,
{
}

} // verus!
