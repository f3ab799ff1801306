//! # The event history
//!
//! A workflow execution *is* its event history. Everything else (the worker, the
//! suspended coroutine, the local variables on its stack) is a cache that can be
//! thrown away at any moment and rebuilt from these events.
//!
//! Two properties of this log carry the whole design, and they are different:
//!
//! - **Which** results are here. Independent of order, keyed by [`SeqNo`].
//! - **In what order** they were written. The log freezes whatever interleaving
//!   the real world produced, and replay delivers events again in exactly this
//!   order: a workflow that raced two activities picks the same winner on
//!   recovery that it picked live.

use vstd::prelude::*;
use vstd::string::*;

use std::collections::{HashMap, HashSet};

use crate::command::{command_views, Command, CommandView};
use crate::text::{
    align_left, align_right, decimal, decimal_string, left_aligned, right_aligned, Text,
};

verus! {

/// The value that activities take and return.
pub type Payload = String;

/// Identifies one thing that the workflow asked for, in the order it asked.
///
/// The number is handed out when the request is *made*, so it follows the
/// evaluation order of the workflow code and not the order in which a combinator
/// polls its branches.
pub type SeqNo = u32;

/// The attributes of an event: *what* happened.
#[derive(Debug, PartialEq)]
pub enum Event {
    /// Always the first event. The seed makes the workflow's randomness stable
    /// under replay.
    WorkflowExecutionStarted { input: Payload, randomness_seed: u64 },
    /// A worker picked up a workflow task and is about to replay.
    WorkflowTaskStarted { attempt: u32 },
    ActivityTaskScheduled { seq: SeqNo, activity_type: String, input: Payload },
    ActivityTaskCompleted { seq: SeqNo, result: Payload },
    ActivityTaskFailed { seq: SeqNo, failure: String },
    TimerStarted { seq: SeqNo, fire_after_ms: u64 },
    TimerFired { seq: SeqNo },
    /// A value that the worker computed locally and froze into the history. It
    /// carries its own result: nothing was dispatched anywhere.
    MarkerRecorded { seq: SeqNo, marker_name: String, value: Payload },
    WorkflowExecutionCompleted { result: Payload },
    WorkflowExecutionFailed { failure: String },
}

/// The mathematical content of an [`Event`].
pub enum EventView {
    WorkflowExecutionStarted { input: Text, randomness_seed: u64 },
    WorkflowTaskStarted { attempt: u32 },
    ActivityTaskScheduled { seq: SeqNo, activity_type: Text, input: Text },
    ActivityTaskCompleted { seq: SeqNo, result: Text },
    ActivityTaskFailed { seq: SeqNo, failure: Text },
    TimerStarted { seq: SeqNo, fire_after_ms: u64 },
    TimerFired { seq: SeqNo },
    MarkerRecorded { seq: SeqNo, marker_name: Text, value: Text },
    WorkflowExecutionCompleted { result: Text },
    WorkflowExecutionFailed { failure: Text },
}

impl View for Event {
    type V = EventView;

    open spec fn view(&self) -> EventView {
        match self {
            Event::WorkflowExecutionStarted { input, randomness_seed } =>
                EventView::WorkflowExecutionStarted {
                input: input@,
                randomness_seed: *randomness_seed,
            },
            Event::WorkflowTaskStarted { attempt } => EventView::WorkflowTaskStarted {
                attempt: *attempt,
            },
            Event::ActivityTaskScheduled { seq, activity_type, input } =>
                EventView::ActivityTaskScheduled {
                seq: *seq,
                activity_type: activity_type@,
                input: input@,
            },
            Event::ActivityTaskCompleted { seq, result } => EventView::ActivityTaskCompleted {
                seq: *seq,
                result: result@,
            },
            Event::ActivityTaskFailed { seq, failure } => EventView::ActivityTaskFailed {
                seq: *seq,
                failure: failure@,
            },
            Event::TimerStarted { seq, fire_after_ms } => EventView::TimerStarted {
                seq: *seq,
                fire_after_ms: *fire_after_ms,
            },
            Event::TimerFired { seq } => EventView::TimerFired { seq: *seq },
            Event::MarkerRecorded { seq, marker_name, value } => EventView::MarkerRecorded {
                seq: *seq,
                marker_name: marker_name@,
                value: value@,
            },
            Event::WorkflowExecutionCompleted { result } => EventView::WorkflowExecutionCompleted {
                result: result@,
            },
            Event::WorkflowExecutionFailed { failure } => EventView::WorkflowExecutionFailed {
                failure: failure@,
            },
        }
    }
}

impl Clone for Event {
    fn clone(&self) -> (r: Event)
        ensures
            r@ == self@,
    {
        match self {
            Event::WorkflowExecutionStarted { input, randomness_seed } =>
                Event::WorkflowExecutionStarted {
                input: input.clone(),
                randomness_seed: *randomness_seed,
            },
            Event::WorkflowTaskStarted { attempt } => Event::WorkflowTaskStarted {
                attempt: *attempt,
            },
            Event::ActivityTaskScheduled { seq, activity_type, input } =>
                Event::ActivityTaskScheduled {
                seq: *seq,
                activity_type: activity_type.clone(),
                input: input.clone(),
            },
            Event::ActivityTaskCompleted { seq, result } => Event::ActivityTaskCompleted {
                seq: *seq,
                result: result.clone(),
            },
            Event::ActivityTaskFailed { seq, failure } => Event::ActivityTaskFailed {
                seq: *seq,
                failure: failure.clone(),
            },
            Event::TimerStarted { seq, fire_after_ms } => Event::TimerStarted {
                seq: *seq,
                fire_after_ms: *fire_after_ms,
            },
            Event::TimerFired { seq } => Event::TimerFired { seq: *seq },
            Event::MarkerRecorded { seq, marker_name, value } => Event::MarkerRecorded {
                seq: *seq,
                marker_name: marker_name.clone(),
                value: value.clone(),
            },
            Event::WorkflowExecutionCompleted { result } => Event::WorkflowExecutionCompleted {
                result: result.clone(),
            },
            Event::WorkflowExecutionFailed { failure } => Event::WorkflowExecutionFailed {
                failure: failure.clone(),
            },
        }
    }
}

/// An event as it sits in the log: attributes plus an id and a time.
#[derive(Debug, PartialEq)]
pub struct HistoryEvent {
    pub event_id: u64,
    pub time_ms: u64,
    pub attrs: Event,
}

/// The mathematical content of a [`HistoryEvent`].
pub struct HistoryEventView {
    pub event_id: u64,
    pub time_ms: u64,
    pub attrs: EventView,
}

impl View for HistoryEvent {
    type V = HistoryEventView;

    open spec fn view(&self) -> HistoryEventView {
        HistoryEventView {
            event_id: self.event_id,
            time_ms: self.time_ms,
            attrs: self.attrs@,
        }
    }
}

impl Clone for HistoryEvent {
    fn clone(&self) -> (r: HistoryEvent)
        ensures
            r@ == self@,
    {
        HistoryEvent {
            event_id: self.event_id,
            time_ms: self.time_ms,
            attrs: self.attrs.clone(),
        }
    }
}

/// The events of `v`, each by its content.
pub open spec fn event_views(v: Seq<HistoryEvent>) -> Seq<HistoryEventView> {
    v.map_values(|e: HistoryEvent| e@)
}

/// What the history says happened to a command.
#[derive(Debug, PartialEq)]
pub enum Outcome {
    Completed(Payload),
    Failed(String),
}

/// The mathematical content of an [`Outcome`].
pub enum OutcomeView {
    Completed(Text),
    Failed(Text),
}

impl View for Outcome {
    type V = OutcomeView;

    open spec fn view(&self) -> OutcomeView {
        match self {
            Outcome::Completed(p) => OutcomeView::Completed(p@),
            Outcome::Failed(f) => OutcomeView::Failed(f@),
        }
    }
}

impl Clone for Outcome {
    fn clone(&self) -> (r: Outcome)
        ensures
            r@ == self@,
    {
        match self {
            Outcome::Completed(p) => Outcome::Completed(p.clone()),
            Outcome::Failed(f) => Outcome::Failed(f.clone()),
        }
    }
}

/// One recorded resolution, in the position the log put it.
#[derive(Debug, PartialEq)]
pub struct RecordedResult {
    pub seq: SeqNo,
    pub outcome: Outcome,
    /// The event's timestamp.
    pub time_ms: u64,
}

/// The mathematical content of a [`RecordedResult`].
pub struct RecordedResultView {
    pub seq: SeqNo,
    pub outcome: OutcomeView,
    pub time_ms: u64,
}

impl View for RecordedResult {
    type V = RecordedResultView;

    open spec fn view(&self) -> RecordedResultView {
        RecordedResultView { seq: self.seq, outcome: self.outcome@, time_ms: self.time_ms }
    }
}

impl Clone for RecordedResult {
    fn clone(&self) -> (r: RecordedResult)
        ensures
            r@ == self@,
    {
        RecordedResult { seq: self.seq, outcome: self.outcome.clone(), time_ms: self.time_ms }
    }
}

/// The results of `v`, each by its content.
pub open spec fn result_views(v: Seq<RecordedResult>) -> Seq<RecordedResultView> {
    v.map_values(|r: RecordedResult| r@)
}

/// Event ids count from one, without gaps.
pub open spec fn ids_count_up(h: Seq<HistoryEventView>) -> bool {
    forall|i: int| 0 <= i < h.len() ==> (#[trigger] h[i]).event_id == i + 1
}

/// The event ends the execution.
pub open spec fn is_terminal(e: EventView) -> bool {
    e is WorkflowExecutionCompleted || e is WorkflowExecutionFailed
}

/// A terminal event stands at the end of the log or nowhere.
pub open spec fn ends_once(h: Seq<HistoryEventView>) -> bool {
    forall|i: int| 0 <= i < h.len() - 1 ==> !is_terminal((#[trigger] h[i]).attrs)
}

/// The log `h` with one more event at its end, under the next id.
pub open spec fn appended(
    h: Seq<HistoryEventView>,
    time_ms: u64,
    attrs: EventView,
) -> Seq<HistoryEventView> {
    h.push(HistoryEventView { event_id: (h.len() + 1) as u64, time_ms, attrs })
}

/// The timestamp at the end of the log; zero for an empty one.
pub open spec fn last_time_of(h: Seq<HistoryEventView>) -> u64 {
    if h.len() == 0 {
        0
    } else {
        h.last().time_ms
    }
}

/// The input that the execution started with; empty where the log does not
/// begin with a start event.
pub open spec fn input_of(h: Seq<HistoryEventView>) -> Text {
    if h.len() == 0 {
        Seq::empty()
    } else {
        match h.first().attrs {
            EventView::WorkflowExecutionStarted { input, .. } => input,
            _ => Seq::empty(),
        }
    }
}

/// The seed that the execution started with; one where the log does not begin
/// with a start event.
pub open spec fn seed_of(h: Seq<HistoryEventView>) -> u64 {
    if h.len() == 0 {
        1
    } else {
        match h.first().attrs {
            EventView::WorkflowExecutionStarted { randomness_seed, .. } => randomness_seed,
            _ => 1,
        }
    }
}

/// What a terminal event at the end of the log says.
pub open spec fn final_result_of(h: Seq<HistoryEventView>) -> Option<Result<Text, Text>> {
    if h.len() == 0 {
        None
    } else {
        match h.last().attrs {
            EventView::WorkflowExecutionCompleted { result } => Some(Ok(result)),
            EventView::WorkflowExecutionFailed { failure } => Some(Err(failure)),
            _ => None,
        }
    }
}

/// The command that an event records, if it records one.
pub open spec fn command_of(e: EventView) -> Option<CommandView> {
    match e {
        EventView::ActivityTaskScheduled { seq, activity_type, input } => Some(
            CommandView::ScheduleActivity { seq, activity_type, input },
        ),
        EventView::TimerStarted { seq, fire_after_ms } => Some(
            CommandView::StartTimer { seq, fire_after_ms },
        ),
        EventView::MarkerRecorded { seq, marker_name, value } => Some(
            CommandView::RecordMarker { seq, marker_name, value },
        ),
        _ => None,
    }
}

/// The commands that a log records, in order.
pub open spec fn commands_of(h: Seq<HistoryEventView>) -> Seq<CommandView> {
    h.filter_map(|e: HistoryEventView| command_of(e.attrs))
}

/// The resolution that an event records, if it records one.
pub open spec fn result_of(e: HistoryEventView) -> Option<RecordedResultView> {
    match e.attrs {
        EventView::ActivityTaskCompleted { seq, result } => Some(
            RecordedResultView {
                seq,
                outcome: OutcomeView::Completed(result),
                time_ms: e.time_ms,
            },
        ),
        EventView::ActivityTaskFailed { seq, failure } => Some(
            RecordedResultView { seq, outcome: OutcomeView::Failed(failure), time_ms: e.time_ms },
        ),
        EventView::TimerFired { seq } => Some(
            RecordedResultView {
                seq,
                outcome: OutcomeView::Completed(Seq::empty()),
                time_ms: e.time_ms,
            },
        ),
        _ => None,
    }
}

/// The resolutions that a log records, in log order.
pub open spec fn results_of(h: Seq<HistoryEventView>) -> Seq<RecordedResultView> {
    h.filter_map(|e: HistoryEventView| result_of(e))
}

/// The log holds a resolution for `seq`.
pub open spec fn is_resolved(h: Seq<HistoryEventView>, seq: SeqNo) -> bool {
    exists|i: int| 0 <= i < results_of(h).len() && (#[trigger] results_of(h)[i]).seq == seq
}

/// The marker values that a log records; the latest one counts.
pub open spec fn markers_of(h: Seq<HistoryEventView>) -> Map<SeqNo, Text>
    decreases h.len(),
{
    if h.len() == 0 {
        Map::empty()
    } else {
        let before = markers_of(h.drop_last());
        match h.last().attrs {
            EventView::MarkerRecorded { seq, value, .. } => before.insert(seq, value),
            _ => before,
        }
    }
}

/// The log before its last `WorkflowTaskStarted`, if it has one.
pub open spec fn before_last_task(h: Seq<HistoryEventView>) -> Option<Seq<HistoryEventView>>
    decreases h.len(),
{
    if h.len() == 0 {
        None
    } else if h.last().attrs is WorkflowTaskStarted {
        Some(h.drop_last())
    } else {
        before_last_task(h.drop_last())
    }
}

/// The log without the task starts at its end: those tasks left nothing behind.
pub open spec fn without_idle_tasks(h: Seq<HistoryEventView>) -> Seq<HistoryEventView>
    decreases h.len(),
{
    if h.len() > 0 && h.last().attrs is WorkflowTaskStarted {
        without_idle_tasks(h.drop_last())
    } else {
        h
    }
}

/// The task under way follows right upon one that left nothing behind.
pub open spec fn follows_idle_task(h: Seq<HistoryEventView>) -> bool {
    before_last_task(h) matches Some(g) && g.len() > 0 && g.last().attrs is WorkflowTaskStarted
}

/// How many results were there, for it to show to the workflow, when the last task
/// began that left something behind. The last task of the log is the one under way
/// and does not count; where there is no earlier one, nothing has been shown.
pub open spec fn shown_results_of(h: Seq<HistoryEventView>) -> Option<nat> {
    match before_last_task(h) {
        None => None,
        Some(g) => match before_last_task(without_idle_tasks(g)) {
            None => None,
            Some(f) => Some(results_of(f).len()),
        },
    }
}

/// What [`History::pretty`] says of one event.
pub open spec fn event_text(e: EventView) -> Text {
    match e {
        EventView::WorkflowExecutionStarted { input, .. } =>
            "WorkflowExecutionStarted        input="@ + input,
        EventView::WorkflowTaskStarted { attempt } =>
            "WorkflowTaskStarted             attempt="@ + decimal(attempt as nat),
        EventView::ActivityTaskScheduled { seq, activity_type, input } =>
            "ActivityTaskScheduled     ["@ + decimal(seq as nat) + "]  "@ + activity_type + "("@
            + input + ")"@,
        EventView::ActivityTaskCompleted { seq, result } => "ActivityTaskCompleted     ["@
            + decimal(seq as nat) + "]  -> "@ + result,
        EventView::ActivityTaskFailed { seq, failure } => "ActivityTaskFailed        ["@ + decimal(
            seq as nat,
        ) + "]  !! "@ + failure,
        EventView::TimerStarted { seq, fire_after_ms } => "TimerStarted              ["@ + decimal(
            seq as nat,
        ) + "]  "@ + decimal(fire_after_ms as nat) + "ms"@,
        EventView::TimerFired { seq } => "TimerFired                ["@ + decimal(seq as nat)
            + "]"@,
        EventView::MarkerRecorded { seq, marker_name, value } => "MarkerRecorded            ["@
            + decimal(seq as nat) + "]  "@ + marker_name + "="@ + value,
        EventView::WorkflowExecutionCompleted { result } =>
            "WorkflowExecutionCompleted      -> "@ + result,
        EventView::WorkflowExecutionFailed { failure } =>
            "WorkflowExecutionFailed         !! "@ + failure,
    }
}

/// The line that [`History::pretty`] prints for one event.
pub open spec fn event_line(e: HistoryEventView) -> Text {
    right_aligned(decimal(e.event_id as nat), 3) + "  t="@ + left_aligned(
        decimal(e.time_ms as nat),
        6,
    ) + " "@ + event_text(e.attrs) + "\n"@
}

/// The whole log, one line per event.
pub open spec fn pretty_of(h: Seq<HistoryEventView>) -> Text
    decreases h.len(),
{
    if h.len() == 0 {
        Seq::empty()
    } else {
        pretty_of(h.drop_last()) + event_line(h.last())
    }
}

/// A 64-bit hash of a string of bytes, in the manner of FNV-1a: each byte is mixed
/// in by exclusive or, and a multiplication spreads it.
pub open spec fn fnv1a64_of(bytes: Seq<u8>) -> u64
    decreases bytes.len(),
{
    if bytes.len() == 0 {
        0xcbf2_9ce4_8422_2325
    } else {
        (fnv1a64_of(bytes.drop_last()) ^ (bytes.last() as u64)).wrapping_mul(0x1000_0000_01b3)
    }
}

/// The randomness seed of an execution that starts with `input`: an odd number.
pub open spec fn seed_for(input: Text) -> u64 {
    fnv1a64_of(vstd::utf8::encode_utf8(input)) | 1
}

/// The log of an execution that has just started.
pub open spec fn started(input: Text) -> Seq<HistoryEventView> {
    seq![
        HistoryEventView {
            event_id: 1,
            time_ms: 0,
            attrs: EventView::WorkflowExecutionStarted { input, randomness_seed: seed_for(input) },
        },
    ]
}

fn fnv1a64(s: &str) -> (h: u64)
    ensures
        h == fnv1a64_of(vstd::utf8::encode_utf8(s@)),
{
    let bytes = s.as_bytes();
    let mut h: u64 = 0xcbf2_9ce4_8422_2325;
    let mut i: usize = 0;
    while i < bytes.len()
        invariant
            i <= bytes.len(),
            h == fnv1a64_of(bytes@.take(i as int)),
        decreases bytes.len() - i,
    {
        h = (h ^ (bytes[i] as u64)).wrapping_mul(0x1000_0000_01b3);
        proof {
            assert(bytes@.take(i + 1).drop_last() =~= bytes@.take(i as int));
        }
        i = i + 1;
    }
    proof {
        assert(bytes@.take(i as int) =~= bytes@);
    }
    h
}

/// An append-only log.
#[derive(Debug)]
pub struct History {
    events: Vec<HistoryEvent>,
}

impl View for History {
    type V = Seq<HistoryEventView>;

    closed spec fn view(&self) -> Seq<HistoryEventView> {
        event_views(self.events@)
    }
}

impl Default for History {
    /// A log with no event at all.
    fn default() -> (r: History)
        ensures
            r@ == Seq::<HistoryEventView>::empty(),
    {
        let r = History { events: Vec::new() };
        proof {
            assert(r@ =~= Seq::<HistoryEventView>::empty());
        }
        r
    }
}

impl Clone for History {
    fn clone(&self) -> (r: History)
        ensures
            r@ == self@,
    {
        proof {
            use_type_invariant(self);
        }
        let mut events: Vec<HistoryEvent> = Vec::new();
        let mut i: usize = 0;
        while i < self.events.len()
            invariant
                i <= self.events.len(),
                events.len() == i,
                forall|j: int| 0 <= j < i ==> (#[trigger] events@[j])@ == self.events@[j]@,
            decreases self.events.len() - i,
        {
            events.push(self.events[i].clone());
            i = i + 1;
        }
        proof {
            assert(event_views(events@) =~= event_views(self.events@));
        }
        History { events }
    }
}

impl History {
    #[verifier::type_invariant]
    spec fn inv(self) -> bool {
        &&& ids_count_up(event_views(self.events@))
        &&& ends_once(event_views(self.events@))
    }

    /// Opens the log of a new execution. The seed comes from the input, so it
    /// is stable and still differs from workflow to workflow.
    pub fn start(input: &str) -> (r: History)
        ensures
            r@ == started(input@),
            ids_count_up(r@),
    {
        let seed: u64 = fnv1a64(input) | 1;
        let first = HistoryEvent {
            event_id: 1,
            time_ms: 0,
            attrs: Event::WorkflowExecutionStarted {
                input: input.to_owned(),
                randomness_seed: seed,
            },
        };
        let mut events: Vec<HistoryEvent> = Vec::new();
        events.push(first);
        proof {
            assert(event_views(events@) =~= started(input@));
        }
        History { events }
    }

    /// Writes one event at the end. A closed log stays as it is. Returns the id of
    /// the last event, counted from one.
    pub fn append(&mut self, time_ms: u64, attrs: Event) -> (id: u64)
        ensures
            final_result_of(old(self)@) is Some ==> final(self)@ == old(self)@,
            final_result_of(old(self)@) is None ==> final(self)@ == appended(
                old(self)@,
                time_ms,
                attrs@,
            ),
            id == final(self)@.len(),
            ids_count_up(final(self)@),
            ends_once(final(self)@),
    {
        proof {
            use_type_invariant(&*self);
        }
        if self.is_closed() {
            return self.events.len() as u64;
        }
        let ghost before = self@;
        let mut events: Vec<HistoryEvent> = Vec::new();
        std::mem::swap(&mut events, &mut self.events);
        let event_id: u64 = (events.len() as u64).wrapping_add(1);
        events.push(HistoryEvent { event_id, time_ms, attrs });
        proof {
            assert(events.len() == before.len() + 1);
            assert(event_views(events@) =~= appended(before, time_ms, attrs@));
            assert forall|i: int| 0 <= i < before.len() implies !is_terminal(
                (#[trigger] appended(before, time_ms, attrs@)[i]).attrs,
            ) by {
                assert(!is_terminal(before[i].attrs));
            }
        }
        self.events = events;
        event_id
    }

    /// All events, in log order.
    pub fn events(&self) -> (r: &[HistoryEvent])
        ensures
            event_views(r@) == self@,
            ids_count_up(self@),
            ends_once(self@),
    {
        proof {
            use_type_invariant(self);
        }
        self.events.as_slice()
    }

    /// How many events the log holds.
    pub fn len(&self) -> (r: usize)
        ensures
            r == self@.len(),
    {
        self.events.len()
    }

    /// Does the log hold no event at all?
    pub fn is_empty(&self) -> (r: bool)
        ensures
            r == (self@.len() == 0),
    {
        self.events.len() == 0
    }

    /// The timestamp of the last event; zero for an empty log.
    pub fn last_time_ms(&self) -> (r: u64)
        ensures
            r == last_time_of(self@),
    {
        if self.events.len() == 0 {
            0
        } else {
            self.events[self.events.len() - 1].time_ms
        }
    }

    /// The input that the execution started with.
    pub fn input(&self) -> (r: Payload)
        ensures
            r@ == input_of(self@),
    {
        if self.events.len() == 0 {
            return String::new();
        }
        match &self.events[0].attrs {
            Event::WorkflowExecutionStarted { input, .. } => input.clone(),
            _ => String::new(),
        }
    }

    /// The seed of the workflow's randomness.
    pub fn randomness_seed(&self) -> (r: u64)
        ensures
            r == seed_of(self@),
    {
        if self.events.len() == 0 {
            return 1;
        }
        match &self.events[0].attrs {
            Event::WorkflowExecutionStarted { randomness_seed, .. } => *randomness_seed,
            _ => 1,
        }
    }

    /// True once a terminal event has been written. A closed history is
    /// immutable forever.
    pub fn is_closed(&self) -> (r: bool)
        ensures
            r == (final_result_of(self@) is Some),
            r <==> exists|i: int|
                0 <= i < self@.len() && is_terminal((#[trigger] self@[i]).attrs),
    {
        proof {
            use_type_invariant(self);
        }
        if self.events.len() == 0 {
            return false;
        }
        let last: usize = self.events.len() - 1;
        proof {
            assert(self@[last as int] == self.events@[last as int]@);
        }
        match &self.events[last].attrs {
            Event::WorkflowExecutionCompleted { .. } => true,
            Event::WorkflowExecutionFailed { .. } => true,
            _ => false,
        }
    }

    /// What the terminal event says, once there is one.
    pub fn result(&self) -> (r: Option<Result<Payload, String>>)
        ensures
            match r {
                None => final_result_of(self@) is None,
                Some(Ok(p)) => final_result_of(self@) == Some(Ok::<Text, Text>(p@)),
                Some(Err(f)) => final_result_of(self@) == Some(Err::<Text, Text>(f@)),
            },
    {
        if self.events.len() == 0 {
            return None;
        }
        match &self.events[self.events.len() - 1].attrs {
            Event::WorkflowExecutionCompleted { result } => Some(Ok(result.clone())),
            Event::WorkflowExecutionFailed { failure } => Some(Err(failure.clone())),
            _ => None,
        }
    }

    /// The commands that the workflow has already issued, in order.
    ///
    /// On the next pass the workflow issues its commands again from scratch.
    /// Comparing the new list with this one, position by position, is the whole
    /// check for non-determinism.
    pub fn recorded_commands(&self) -> (r: Vec<Command>)
        ensures
            command_views(r@) == commands_of(self@),
    {
        let mut out: Vec<Command> = Vec::new();
        let mut i: usize = 0;
        while i < self.events.len()
            invariant
                i <= self.events.len(),
                command_views(out@) =~= commands_of(self@.take(i as int)),
            decreases self.events.len() - i,
        {
            let ghost before = out@;
            let e = &self.events[i];
            proof {
                assert(self@.take(i + 1).drop_last() =~= self@.take(i as int));
            }
            match &e.attrs {
                Event::ActivityTaskScheduled { seq, activity_type, input } => {
                    out.push(
                        Command::ScheduleActivity {
                            seq: *seq,
                            activity_type: activity_type.clone(),
                            input: input.clone(),
                        },
                    );
                },
                Event::TimerStarted { seq, fire_after_ms } => {
                    out.push(Command::StartTimer { seq: *seq, fire_after_ms: *fire_after_ms });
                },
                Event::MarkerRecorded { seq, marker_name, value } => {
                    out.push(
                        Command::RecordMarker {
                            seq: *seq,
                            marker_name: marker_name.clone(),
                            value: value.clone(),
                        },
                    );
                },
                _ => {},
            }
            i = i + 1;
        }
        proof {
            assert(self@.take(i as int) =~= self@);
        }
        out
    }

    /// The values that side effects have frozen, by sequence number.
    pub fn markers(&self) -> (r: HashMap<SeqNo, Payload>)
        ensures
            r@.map_values(|p: Payload| p@) == markers_of(self@),
    {
        broadcast use vstd::std_specs::hash::group_hash_axioms;

        let mut out: HashMap<SeqNo, Payload> = HashMap::new();
        proof {
            assert(out@.map_values(|p: Payload| p@) =~= markers_of(self@.take(0)));
        }
        let mut i: usize = 0;
        while i < self.events.len()
            invariant
                i <= self.events.len(),
                out@.map_values(|p: Payload| p@) == markers_of(self@.take(i as int)),
            decreases self.events.len() - i,
        {
            let e = &self.events[i];
            proof {
                assert(self@.take(i + 1).drop_last() =~= self@.take(i as int));
            }
            match &e.attrs {
                Event::MarkerRecorded { seq, value, .. } => {
                    out.insert(*seq, value.clone());
                    proof {
                        assert(out@.map_values(|p: Payload| p@) =~= markers_of(
                            self@.take(i as int),
                        ).insert(*seq, value@));
                    }
                },
                _ => {},
            }
            i = i + 1;
        }
        proof {
            assert(self@.take(i as int) =~= self@);
        }
        out
    }

    /// The recorded resolutions **in log order**.
    ///
    /// The order matters as much as the contents: replay hands these to the
    /// workflow one at a time. A table keyed by sequence number would lose
    /// exactly this, and only for workflows that use concurrency.
    pub fn results_in_order(&self) -> (r: Vec<RecordedResult>)
        ensures
            result_views(r@) == results_of(self@),
    {
        let mut out: Vec<RecordedResult> = Vec::new();
        let mut i: usize = 0;
        while i < self.events.len()
            invariant
                i <= self.events.len(),
                result_views(out@) =~= results_of(self@.take(i as int)),
            decreases self.events.len() - i,
        {
            let e = &self.events[i];
            let time_ms: u64 = e.time_ms;
            proof {
                assert(self@.take(i + 1).drop_last() =~= self@.take(i as int));
            }
            match &e.attrs {
                Event::ActivityTaskCompleted { seq, result } => {
                    let outcome = Outcome::Completed(result.clone());
                    out.push(RecordedResult { seq: *seq, outcome, time_ms });
                },
                Event::ActivityTaskFailed { seq, failure } => {
                    let outcome = Outcome::Failed(failure.clone());
                    out.push(RecordedResult { seq: *seq, outcome, time_ms });
                },
                Event::TimerFired { seq } => {
                    let outcome = Outcome::Completed(String::new());
                    out.push(RecordedResult { seq: *seq, outcome, time_ms });
                },
                _ => {},
            }
            i = i + 1;
        }
        proof {
            assert(self@.take(i as int) =~= self@);
        }
        out
    }

    /// How many results the last earlier task that left something behind has shown
    /// to the workflow, if there was one.
    pub fn shown_results(&self) -> (r: Option<usize>)
        ensures
            match r {
                Some(n) => shown_results_of(self@) == Some(n as nat) && n < usize::MAX,
                None => shown_results_of(self@) is None,
            },
    {
        let ghost all = self@;
        let mut n: usize = 0;
        let mut last: Option<usize> = None;
        let mut busy: Option<usize> = None;
        let mut earlier: Option<usize> = None;
        let mut i: usize = 0;
        while i < self.events.len()
            invariant
                i <= self.events.len(),
                all == self@,
                n <= i,
                n == results_of(all.take(i as int)).len(),
                match last {
                    Some(k) => before_last_task(all.take(i as int)) matches Some(g) && k
                        == results_of(g).len() && k < i,
                    None => before_last_task(all.take(i as int)) is None,
                },
                match busy {
                    Some(k) => before_last_task(
                        without_idle_tasks(all.take(i as int)),
                    ) matches Some(g) && k == results_of(g).len() && k < i,
                    None => before_last_task(without_idle_tasks(all.take(i as int))) is None,
                },
                match earlier {
                    Some(k) => k < i && shown_results_of(all.take(i as int)) == Some(k as nat),
                    None => shown_results_of(all.take(i as int)) is None,
                },
            decreases self.events.len() - i,
        {
            proof {
                assert(all.take(i + 1).drop_last() =~= all.take(i as int));
                assert(all.take(i + 1).last() == self.events@[i as int]@);
            }
            match &self.events[i].attrs {
                Event::WorkflowTaskStarted { .. } => {
                    earlier = busy;
                    last = Some(n);
                },
                Event::ActivityTaskCompleted { .. } => {
                    busy = last;
                    n = n + 1;
                },
                Event::ActivityTaskFailed { .. } => {
                    busy = last;
                    n = n + 1;
                },
                Event::TimerFired { .. } => {
                    busy = last;
                    n = n + 1;
                },
                _ => {
                    busy = last;
                },
            }
            i = i + 1;
        }
        proof {
            assert(all.take(i as int) =~= all);
        }
        earlier
    }

    /// Did the task before the one under way leave nothing behind?
    pub fn follows_idle_task(&self) -> (r: bool)
        ensures
            r == follows_idle_task(self@),
    {
        let ghost all = self@;
        let mut idle: bool = false;
        let mut starts: bool = false;
        let mut i: usize = 0;
        while i < self.events.len()
            invariant
                i <= self.events.len(),
                all == self@,
                starts == (i > 0 && all[i - 1].attrs is WorkflowTaskStarted),
                idle == follows_idle_task(all.take(i as int)),
            decreases self.events.len() - i,
        {
            proof {
                assert(all.take(i + 1).drop_last() =~= all.take(i as int));
                assert(all.take(i + 1).last() == self.events@[i as int]@);
            }
            match &self.events[i].attrs {
                Event::WorkflowTaskStarted { .. } => {
                    idle = starts;
                    starts = true;
                },
                _ => {
                    starts = false;
                },
            }
            i = i + 1;
        }
        proof {
            assert(all.take(i as int) =~= all);
        }
        idle
    }

    /// Which commands already have a result, in no order. Finds outstanding
    /// work.
    pub fn resolved_seqs(&self) -> (r: HashSet<SeqNo>)
        ensures
            forall|s: SeqNo| #[trigger] r@.contains(s) <==> is_resolved(self@, s),
    {
        broadcast use vstd::std_specs::hash::group_hash_axioms;

        let results = self.results_in_order();
        let mut out: HashSet<SeqNo> = HashSet::new();
        let mut i: usize = 0;
        while i < results.len()
            invariant
                i <= results.len(),
                result_views(results@) == results_of(self@),
                forall|s: SeqNo| #[trigger]
                    out@.contains(s) <==> exists|j: int|
                        0 <= j < i && (#[trigger] results_of(self@)[j]).seq == s,
            decreases results.len() - i,
        {
            proof {
                assert(results_of(self@)[i as int] == results@[i as int]@);
            }
            out.insert(results[i].seq);
            i = i + 1;
        }
        out
    }

    /// The whole log for a reader, one line per event.
    pub fn pretty(&self) -> (r: String)
        ensures
            r@ == pretty_of(self@),
    {
        let mut s = String::new();
        let mut i: usize = 0;
        while i < self.events.len()
            invariant
                i <= self.events.len(),
                s@ =~= pretty_of(self@.take(i as int)),
            decreases self.events.len() - i,
        {
            let e = &self.events[i];
            let line = e.line();
            s.append(line.as_str());
            proof {
                assert(self@.take(i + 1).drop_last() =~= self@.take(i as int));
            }
            i = i + 1;
        }
        proof {
            assert(self@.take(i as int) =~= self@);
        }
        s
    }
}

impl HistoryEvent {
    /// The event's line in [`History::pretty`].
    fn line(&self) -> (r: String)
        ensures
            r@ == event_line(self@),
    {
        let mut s = align_right(decimal_string(self.event_id), 3);
        s.append("  t=");
        s.append(align_left(decimal_string(self.time_ms), 6).as_str());
        s.append(" ");
        s.append(self.attrs.text().as_str());
        s.append("\n");
        s
    }
}

impl Event {
    /// The event on one line, without id and time.
    fn text(&self) -> (r: String)
        ensures
            r@ == event_text(self@),
    {
        match self {
            Event::WorkflowExecutionStarted { input, .. } => {
                let mut s = "WorkflowExecutionStarted        input=".to_owned();
                s.append(input.as_str());
                s
            },
            Event::WorkflowTaskStarted { attempt } => {
                let mut s = "WorkflowTaskStarted             attempt=".to_owned();
                s.append(decimal_string(*attempt as u64).as_str());
                s
            },
            Event::ActivityTaskScheduled { seq, activity_type, input } => {
                let mut s = "ActivityTaskScheduled     [".to_owned();
                s.append(decimal_string(*seq as u64).as_str());
                s.append("]  ");
                s.append(activity_type.as_str());
                s.append("(");
                s.append(input.as_str());
                s.append(")");
                s
            },
            Event::ActivityTaskCompleted { seq, result } => {
                let mut s = "ActivityTaskCompleted     [".to_owned();
                s.append(decimal_string(*seq as u64).as_str());
                s.append("]  -> ");
                s.append(result.as_str());
                s
            },
            Event::ActivityTaskFailed { seq, failure } => {
                let mut s = "ActivityTaskFailed        [".to_owned();
                s.append(decimal_string(*seq as u64).as_str());
                s.append("]  !! ");
                s.append(failure.as_str());
                s
            },
            Event::TimerStarted { seq, fire_after_ms } => {
                let mut s = "TimerStarted              [".to_owned();
                s.append(decimal_string(*seq as u64).as_str());
                s.append("]  ");
                s.append(decimal_string(*fire_after_ms).as_str());
                s.append("ms");
                s
            },
            Event::TimerFired { seq } => {
                let mut s = "TimerFired                [".to_owned();
                s.append(decimal_string(*seq as u64).as_str());
                s.append("]");
                s
            },
            Event::MarkerRecorded { seq, marker_name, value } => {
                let mut s = "MarkerRecorded            [".to_owned();
                s.append(decimal_string(*seq as u64).as_str());
                s.append("]  ");
                s.append(marker_name.as_str());
                s.append("=");
                s.append(value.as_str());
                s
            },
            Event::WorkflowExecutionCompleted { result } => {
                let mut s = "WorkflowExecutionCompleted      -> ".to_owned();
                s.append(result.as_str());
                s
            },
            Event::WorkflowExecutionFailed { failure } => {
                let mut s = "WorkflowExecutionFailed         !! ".to_owned();
                s.append(failure.as_str());
                s
            },
        }
    }
}

} // verus!
