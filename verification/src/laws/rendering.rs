//! What reports say: numbers, aligned fields, commands and logs as text.

use vstd::prelude::*;
use vstd::string::*;

use crate::activity::unregistered;
use crate::command::CommandView;
use crate::history::{event_line, event_text, pretty_of, EventView, HistoryEventView};
use crate::text::{decimal, left_aligned, right_aligned, Text};

verus! {

/// The number that a row of decimal digits stands for.
pub open spec fn number_read(digits: Text) -> nat
    decreases digits.len(),
{
    if digits.len() == 0 {
        0
    } else {
        number_read(digits.drop_last()) * 10 + (digits.last() as nat - '0' as nat) as nat
    }
}

/// A numeral stands for its number: it consists of digits, begins with a zero only
/// if it is nothing else, and reads as the number that it was made of.
pub proof fn law_a_numeral_reads_as_its_number(n: nat)
    ensures
        decimal(n).len() > 0,
        forall|i: int|
            0 <= i < decimal(n).len() ==> '0' as nat <= (#[trigger] decimal(n)[i]) as nat
                <= '9' as nat,
        decimal(n).len() > 1 ==> decimal(n)[0] != '0',
        number_read(decimal(n)) == n,
    decreases n,
{
    reveal_with_fuel(number_read, 2);
    if n < 10 {
        assert(decimal(n).drop_last() =~= Seq::empty());
    } else {
        law_a_numeral_reads_as_its_number(n / 10);
        assert(decimal(n).drop_last() =~= decimal(n / 10));
        if decimal(n / 10).len() == 1 {
            assert(number_read(decimal(n / 10)) == n / 10);
            let d = decimal(n / 10);
            assert(d.drop_last() =~= Seq::empty());
        }
    }
}

/// Numbers that differ have numerals that differ.
pub proof fn law_numerals_tell_numbers_apart(m: nat, n: nat)
    ensures
        decimal(m) == decimal(n) <==> m == n,
{
    law_a_numeral_reads_as_its_number(m);
    law_a_numeral_reads_as_its_number(n);
}

/// An aligned field is as wide as it should be, or as wide as the text if that is
/// longer. The text stands at one end and the rest is blank.
pub proof fn law_a_field_is_as_wide_as_it_should_be(s: Text, width: nat)
    ensures
        ({
            let r = right_aligned(s, width);
            let l = left_aligned(s, width);
            let full = if s.len() < width {
                width
            } else {
                s.len()
            };
            &&& r.len() == full
            &&& l.len() == full
            &&& forall|i: int| 0 <= i < s.len() ==> #[trigger] l[i] == s[i]
            &&& forall|i: int| s.len() <= i < full ==> #[trigger] l[i] == ' '
            &&& forall|i: int| 0 <= i < full - s.len() ==> #[trigger] r[i] == ' '
            &&& forall|i: int| full - s.len() <= i < full ==> #[trigger] r[i] == s[i - (full
                - s.len())]
        }),
{
}

/// A command's line names its number, its kind, its name and its payload, all in
/// full.
pub proof fn law_a_command_is_described_in_full(c: CommandView)
    ensures
        c matches CommandView::ScheduleActivity { seq, activity_type, input } ==> c.describe()
            == "["@ + decimal(seq as nat) + "] ScheduleActivity "@ + activity_type + "("@ + input
            + ")"@,
        c matches CommandView::StartTimer { seq, fire_after_ms } ==> c.describe() == "["@
            + decimal(seq as nat) + "] StartTimer "@ + decimal(fire_after_ms as nat) + "ms"@,
        c matches CommandView::RecordMarker { seq, marker_name, value } ==> c.describe() == "["@
            + decimal(seq as nat) + "] RecordMarker "@ + marker_name + "="@ + value,
{
}

proof fn lemma_same_ends(p: Text, a: Text, b: Text, q: Text)
    requires
        p + a + q == p + b + q,
    ensures
        a == b,
{
    let x = p + a + q;
    let y = p + b + q;
    assert(x.len() == p.len() + a.len() + q.len());
    assert(y.len() == p.len() + b.len() + q.len());
    assert forall|i: int| 0 <= i < a.len() implies a[i] == b[i] by {
        assert(x[p.len() + i] == a[i]);
        assert(y[p.len() + i] == b[i]);
    }
    assert(a =~= b);
}

/// A command's line tells commands apart: activities of one number and type that are
/// described alike have the same input, and those of one number and input the same
/// type. So have markers, and timers the same delay.
pub proof fn law_descriptions_tell_commands_apart(
    seq: u32,
    name: Text,
    other_name: Text,
    payload: Text,
    other: Text,
    ms: u64,
    other_ms: u64,
)
    ensures
        (CommandView::ScheduleActivity { seq, activity_type: name, input: payload }).describe()
            == (CommandView::ScheduleActivity {
            seq,
            activity_type: name,
            input: other,
        }).describe() ==> payload == other,
        (CommandView::ScheduleActivity { seq, activity_type: name, input: payload }).describe()
            == (CommandView::ScheduleActivity {
            seq,
            activity_type: other_name,
            input: payload,
        }).describe() ==> name == other_name,
        (CommandView::RecordMarker { seq, marker_name: name, value: payload }).describe() == (
        CommandView::RecordMarker { seq, marker_name: name, value: other }).describe()
            ==> payload == other,
        (CommandView::StartTimer { seq, fire_after_ms: ms }).describe() == (
        CommandView::StartTimer { seq, fire_after_ms: other_ms }).describe() ==> ms == other_ms,
{
    let head = "["@ + decimal(seq as nat) + "] ScheduleActivity "@;
    if (CommandView::ScheduleActivity { seq, activity_type: name, input: payload }).describe() == (
    CommandView::ScheduleActivity { seq, activity_type: name, input: other }).describe() {
        lemma_same_ends(head + name + "("@, payload, other, ")"@);
    }
    if (CommandView::ScheduleActivity { seq, activity_type: name, input: payload }).describe() == (
    CommandView::ScheduleActivity {
        seq,
        activity_type: other_name,
        input: payload,
    }).describe() {
        let tail = "("@ + payload + ")"@;
        assert(head + name + "("@ + payload + ")"@ =~= head + name + tail);
        assert(head + other_name + "("@ + payload + ")"@ =~= head + other_name + tail);
        lemma_same_ends(head, name, other_name, tail);
    }
    if (CommandView::RecordMarker { seq, marker_name: name, value: payload }).describe() == (
    CommandView::RecordMarker { seq, marker_name: name, value: other }).describe() {
        let front = "["@ + decimal(seq as nat) + "] RecordMarker "@ + name + "="@;
        assert(front + payload + Seq::<char>::empty() =~= front + payload);
        assert(front + other + Seq::<char>::empty() =~= front + other);
        lemma_same_ends(front, payload, other, Seq::empty());
    }
    if (CommandView::StartTimer { seq, fire_after_ms: ms }).describe() == (
    CommandView::StartTimer { seq, fire_after_ms: other_ms }).describe() {
        let front = "["@ + decimal(seq as nat) + "] StartTimer "@;
        lemma_same_ends(front, decimal(ms as nat), decimal(other_ms as nat), "ms"@);
        law_numerals_tell_numbers_apart(ms as nat, other_ms as nat);
    }
}

/// The printed log has one line per event, in order. A line begins with the event's
/// id and time, each in its own field, goes on with what happened, and ends.
pub proof fn law_a_log_is_printed_line_by_line(h: Seq<HistoryEventView>, e: HistoryEventView)
    ensures
        pretty_of(Seq::empty()).len() == 0,
        pretty_of(h.push(e)) == pretty_of(h) + event_line(e),
        event_line(e) == right_aligned(decimal(e.event_id as nat), 3) + "  t="@ + left_aligned(
            decimal(e.time_ms as nat),
            6,
        ) + " "@ + event_text(e.attrs) + "\n"@,
{
    assert(h.push(e).drop_last() =~= h);
}

/// What a line says of an event names its kind and all its fields in full.
pub proof fn law_an_event_is_printed_in_full(e: EventView)
    ensures
        e matches EventView::WorkflowExecutionStarted { input, .. } ==> event_text(e)
            == "WorkflowExecutionStarted        input="@ + input,
        e matches EventView::WorkflowTaskStarted { attempt } ==> event_text(e)
            == "WorkflowTaskStarted             attempt="@ + decimal(attempt as nat),
        e matches EventView::ActivityTaskScheduled { seq, activity_type, input } ==> event_text(e)
            == "ActivityTaskScheduled     ["@ + decimal(seq as nat) + "]  "@ + activity_type
            + "("@ + input + ")"@,
        e matches EventView::ActivityTaskCompleted { seq, result } ==> event_text(e)
            == "ActivityTaskCompleted     ["@ + decimal(seq as nat) + "]  -> "@ + result,
        e matches EventView::ActivityTaskFailed { seq, failure } ==> event_text(e)
            == "ActivityTaskFailed        ["@ + decimal(seq as nat) + "]  !! "@ + failure,
        e matches EventView::TimerStarted { seq, fire_after_ms } ==> event_text(e)
            == "TimerStarted              ["@ + decimal(seq as nat) + "]  "@ + decimal(
            fire_after_ms as nat,
        ) + "ms"@,
        e matches EventView::TimerFired { seq } ==> event_text(e)
            == "TimerFired                ["@ + decimal(seq as nat) + "]"@,
        e matches EventView::MarkerRecorded { seq, marker_name, value } ==> event_text(e)
            == "MarkerRecorded            ["@ + decimal(seq as nat) + "]  "@ + marker_name + "="@
            + value,
        e matches EventView::WorkflowExecutionCompleted { result } ==> event_text(e)
            == "WorkflowExecutionCompleted      -> "@ + result,
        e matches EventView::WorkflowExecutionFailed { failure } ==> event_text(e)
            == "WorkflowExecutionFailed         !! "@ + failure,
{
}

/// The failure that stands for an activity nobody registered names its type in full.
pub proof fn law_a_missing_activity_is_named(activity_type: Text)
    ensures
        unregistered(activity_type) == "no activity registered for type `"@ + activity_type + "`"@,
{
}

} // verus!
