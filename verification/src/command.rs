//! # Commands: what the workflow *asks for*
//!
//! - A **command** is an intent. Running workflow code produces it, afresh on
//!   every pass, and producing it has no effect on the world.
//! - An **event** is a durable fact. It is written to the history once and never
//!   changes.
//!
//! Workflow code performs no I/O. It returns a list of commands and stops; the
//! other side of that boundary decides what to do about them and records the
//! outcome as events.

use vstd::prelude::*;
use vstd::string::*;

use crate::history::{Event, EventView, Payload, SeqNo};
use crate::text::{decimal, decimal_string, Text};

verus! {

/// One intent of a workflow.
#[derive(Debug, PartialEq)]
pub enum Command {
    /// Run an activity.
    ScheduleActivity { seq: SeqNo, activity_type: String, input: Payload },
    /// Start a durable timer.
    StartTimer { seq: SeqNo, fire_after_ms: u64 },
    /// Freeze a locally computed value into the history. The one command that
    /// carries its own result.
    RecordMarker { seq: SeqNo, marker_name: String, value: Payload },
}

/// The mathematical content of a [`Command`].
pub enum CommandView {
    ScheduleActivity { seq: SeqNo, activity_type: Text, input: Text },
    StartTimer { seq: SeqNo, fire_after_ms: u64 },
    RecordMarker { seq: SeqNo, marker_name: Text, value: Text },
}

impl View for Command {
    type V = CommandView;

    open spec fn view(&self) -> CommandView {
        match self {
            Command::ScheduleActivity { seq, activity_type, input } =>
                CommandView::ScheduleActivity {
                seq: *seq,
                activity_type: activity_type@,
                input: input@,
            },
            Command::StartTimer { seq, fire_after_ms } => CommandView::StartTimer {
                seq: *seq,
                fire_after_ms: *fire_after_ms,
            },
            Command::RecordMarker { seq, marker_name, value } => CommandView::RecordMarker {
                seq: *seq,
                marker_name: marker_name@,
                value: value@,
            },
        }
    }
}

/// The commands of `v`, each by its content.
pub open spec fn command_views(v: Seq<Command>) -> Seq<CommandView> {
    v.map_values(|c: Command| c@)
}

impl CommandView {
    /// The sequence number that the command was issued under.
    pub open spec fn seq(self) -> SeqNo {
        match self {
            CommandView::ScheduleActivity { seq, .. } => seq,
            CommandView::StartTimer { seq, .. } => seq,
            CommandView::RecordMarker { seq, .. } => seq,
        }
    }

    /// The command's kind, by name.
    pub open spec fn kind(self) -> Text {
        match self {
            CommandView::ScheduleActivity { .. } => "ScheduleActivity"@,
            CommandView::StartTimer { .. } => "StartTimer"@,
            CommandView::RecordMarker { .. } => "RecordMarker"@,
        }
    }

    /// The workflow cannot pass this command before an answer is recorded.
    pub open spec fn is_blocking(self) -> bool {
        !(self is RecordMarker)
    }

    /// The event that records this command.
    pub open spec fn to_event(self) -> EventView {
        match self {
            CommandView::ScheduleActivity { seq, activity_type, input } =>
                EventView::ActivityTaskScheduled { seq, activity_type, input },
            CommandView::StartTimer { seq, fire_after_ms } => EventView::TimerStarted {
                seq,
                fire_after_ms,
            },
            CommandView::RecordMarker { seq, marker_name, value } => EventView::MarkerRecorded {
                seq,
                marker_name,
                value,
            },
        }
    }

    /// What the command is, apart from its payload: for a timer the name is
    /// empty.
    pub open spec fn name(self) -> Text {
        match self {
            CommandView::ScheduleActivity { activity_type, .. } => activity_type,
            CommandView::StartTimer { .. } => Seq::empty(),
            CommandView::RecordMarker { marker_name, .. } => marker_name,
        }
    }

    /// Both commands are of one kind.
    pub open spec fn same_kind(self, other: CommandView) -> bool {
        ||| self is ScheduleActivity && other is ScheduleActivity
        ||| self is StartTimer && other is StartTimer
        ||| self is RecordMarker && other is RecordMarker
    }

    /// Both commands have one identity: kind, sequence number and name. The
    /// payload does not count.
    pub open spec fn matches(self, recorded: CommandView) -> bool {
        &&& self.same_kind(recorded)
        &&& self.seq() == recorded.seq()
        &&& self.name() == recorded.name()
    }

    /// The command on one line.
    pub open spec fn describe(self) -> Text {
        match self {
            CommandView::ScheduleActivity { seq, activity_type, input } => "["@ + decimal(
                seq as nat,
            ) + "] ScheduleActivity "@ + activity_type + "("@ + input + ")"@,
            CommandView::StartTimer { seq, fire_after_ms } => "["@ + decimal(seq as nat)
                + "] StartTimer "@ + decimal(fire_after_ms as nat) + "ms"@,
            CommandView::RecordMarker { seq, marker_name, value } => "["@ + decimal(seq as nat)
                + "] RecordMarker "@ + marker_name + "="@ + value,
        }
    }
}

impl Clone for Command {
    fn clone(&self) -> (r: Command)
        ensures
            r@ == self@,
    {
        match self {
            Command::ScheduleActivity { seq, activity_type, input } => Command::ScheduleActivity {
                seq: *seq,
                activity_type: activity_type.clone(),
                input: input.clone(),
            },
            Command::StartTimer { seq, fire_after_ms } => Command::StartTimer {
                seq: *seq,
                fire_after_ms: *fire_after_ms,
            },
            Command::RecordMarker { seq, marker_name, value } => Command::RecordMarker {
                seq: *seq,
                marker_name: marker_name.clone(),
                value: value.clone(),
            },
        }
    }
}

impl Command {
    /// The sequence number that the command was issued under.
    pub fn seq(&self) -> (r: SeqNo)
        ensures
            r == self@.seq(),
    {
        match self {
            Command::ScheduleActivity { seq, .. } => *seq,
            Command::StartTimer { seq, .. } => *seq,
            Command::RecordMarker { seq, .. } => *seq,
        }
    }

    /// The command's kind, by name.
    pub fn kind(&self) -> (r: &'static str)
        ensures
            r@ == self@.kind(),
    {
        match self {
            Command::ScheduleActivity { .. } => "ScheduleActivity",
            Command::StartTimer { .. } => "StartTimer",
            Command::RecordMarker { .. } => "RecordMarker",
        }
    }

    /// Does this command block the workflow until an answer is recorded?
    /// `RecordMarker` does not: it resolves inline.
    pub fn is_blocking(&self) -> (r: bool)
        ensures
            r == self@.is_blocking(),
    {
        match self {
            Command::RecordMarker { .. } => false,
            _ => true,
        }
    }

    /// The event that is written when this command is accepted.
    pub fn to_event(&self) -> (r: Event)
        ensures
            r@ == self@.to_event(),
    {
        match self {
            Command::ScheduleActivity { seq, activity_type, input } =>
                Event::ActivityTaskScheduled {
                seq: *seq,
                activity_type: activity_type.clone(),
                input: input.clone(),
            },
            Command::StartTimer { seq, fire_after_ms } => Event::TimerStarted {
                seq: *seq,
                fire_after_ms: *fire_after_ms,
            },
            Command::RecordMarker { seq, marker_name, value } => Event::MarkerRecorded {
                seq: *seq,
                marker_name: marker_name.clone(),
                value: value.clone(),
            },
        }
    }

    /// Does a freshly issued command line up with the recorded one?
    ///
    /// Identity counts (kind, sequence number, name), the payload does not. So a
    /// workflow that computes other values but asks for the same things in the
    /// same order passes: detection catches structure only.
    pub fn matches(&self, recorded: &Command) -> (r: bool)
        ensures
            r == self@.matches(recorded@),
    {
        match (self, recorded) {
            (
                Command::ScheduleActivity { seq: a, activity_type: at, .. },
                Command::ScheduleActivity { seq: b, activity_type: bt, .. },
            ) => *a == *b && at.eq(bt),
            (
                Command::StartTimer { seq: a, .. },
                Command::StartTimer { seq: b, .. },
            ) => *a == *b,
            (
                Command::RecordMarker { seq: a, marker_name: an, .. },
                Command::RecordMarker { seq: b, marker_name: bn, .. },
            ) => *a == *b && an.eq(bn),
            _ => false,
        }
    }

    /// The command on one line, for reports.
    pub fn describe(&self) -> (r: String)
        ensures
            r@ == self@.describe(),
    {
        let mut s = "[".to_owned();
        match self {
            Command::ScheduleActivity { seq, activity_type, input } => {
                s.append(decimal_string(*seq as u64).as_str());
                s.append("] ScheduleActivity ");
                s.append(activity_type.as_str());
                s.append("(");
                s.append(input.as_str());
                s.append(")");
            },
            Command::StartTimer { seq, fire_after_ms } => {
                s.append(decimal_string(*seq as u64).as_str());
                s.append("] StartTimer ");
                s.append(decimal_string(*fire_after_ms).as_str());
                s.append("ms");
            },
            Command::RecordMarker { seq, marker_name, value } => {
                s.append(decimal_string(*seq as u64).as_str());
                s.append("] RecordMarker ");
                s.append(marker_name.as_str());
                s.append("=");
                s.append(value.as_str());
            },
        }
        s
    }
}

} // verus!
