//! # The engine's transitions, as mathematics
//!
//! One iteration of the driver is one *workflow task*:
//!
//! ```text
//!   1. replay   workflow + history  ->  poll result + commands
//!   2. verify   new commands against recorded ones, position by position
//!   3. persist  append events for commands that the history has never seen
//!   4. advance  close the execution if the workflow is done and no activity is
//!               outstanding; otherwise run the outstanding activities, or fire
//!               the earliest timer, and append their results
//!   5. discard  throw the coroutine away, go to 1
//! ```
//!
//! Here stands what each step does to the worker and the log. User code enters
//! in two places only: the pass that replay yields, and the reports of the
//! activities.

use vstd::prelude::*;

use crate::activity::{may_report, RegistryView};
use crate::command::CommandView;
use crate::coroutine::{Coroutine, Poll, Workflow};
use crate::driver::{CompletionOrder, CrashPolicy, Progress, RunOutcomeView, ACTIVITY_LATENCY_MS};
use crate::history::{
    appended, commands_of, final_result_of, is_resolved, last_time_of, EventView, HistoryEventView,
    Payload, SeqNo,
};
use crate::replay::{replays, PassView};
use crate::text::{decimal, Text};

verus! {

/// The mathematical content of a worker.
pub struct WorkerView<F> {
    pub registry: RegistryView<F>,
    pub crash: CrashPolicy,
    pub completion_order: CompletionOrder,
    pub trace: bool,
    pub trace_lines: Seq<Text>,
    pub activities_run: usize,
    pub clock_ms: u64,
}

/// A worker together with the log that it drives.
pub struct Engine<F> {
    pub worker: WorkerView<F>,
    pub history: Seq<HistoryEventView>,
}

/// The worker `worker` on the log `history`.
pub open spec fn engine<F>(worker: WorkerView<F>, history: Seq<HistoryEventView>) -> Engine<F> {
    Engine { worker, history }
}

impl<F> WorkerView<F> {
    /// After the clock has moved by `ms`.
    pub open spec fn ticked(self, ms: u64) -> WorkerView<F> {
        WorkerView { clock_ms: (self.clock_ms + ms) as u64, ..self }
    }

    /// After tracing `lines`, which are kept only if tracing is on.
    pub open spec fn traced(self, lines: Seq<Text>) -> WorkerView<F> {
        if self.trace {
            WorkerView { trace_lines: self.trace_lines + lines, ..self }
        } else {
            self
        }
    }

    /// After an activity has really run.
    pub open spec fn executed(self, activity_type: Text, input: Text) -> WorkerView<F> {
        WorkerView {
            registry: self.registry.executed(activity_type, input),
            activities_run: (self.activities_run + 1) as usize,
            ..self
        }
    }

    /// After picking a log up whose last event is of time `t`: the clock never
    /// runs behind it.
    pub open spec fn resumed(self, t: u64) -> WorkerView<F> {
        WorkerView { clock_ms: if t > self.clock_ms { t } else { self.clock_ms }, ..self }
    }
}

impl<F> Engine<F> {
    /// After the clock has moved by `ms`.
    pub open spec fn ticked(self, ms: u64) -> Engine<F> {
        Engine { worker: self.worker.ticked(ms), ..self }
    }

    /// The clock can move by `ms`.
    pub open spec fn can_tick(self, ms: u64) -> bool {
        self.worker.clock_ms + ms <= u64::MAX
    }

    /// The crash policy kills the worker before the next activity's result is
    /// recorded.
    pub open spec fn will_lose_result(self) -> bool {
        self.worker.crash == CrashPolicy::BeforeRecording((self.worker.activities_run + 1) as usize)
    }

    /// One more activity can run: the count of activities has room, and so has
    /// the clock, if there will be a result to record.
    pub open spec fn can_run_activity(self) -> bool {
        &&& self.worker.activities_run < usize::MAX
        &&& self.will_lose_result() || self.can_tick(ACTIVITY_LATENCY_MS)
    }

    /// After writing one event, stamped with the clock.
    pub open spec fn wrote(self, attrs: EventView) -> Engine<F> {
        Engine { history: appended(self.history, self.worker.clock_ms, attrs), ..self }
    }

    /// After tracing `lines`.
    pub open spec fn traced(self, lines: Seq<Text>) -> Engine<F> {
        Engine { worker: self.worker.traced(lines), ..self }
    }

    /// After tracing one line.
    pub open spec fn said(self, line: Text) -> Engine<F> {
        self.traced(seq![line])
    }

    /// After an activity has really run.
    pub open spec fn executed(self, activity_type: Text, input: Text) -> Engine<F> {
        Engine { worker: self.worker.executed(activity_type, input), ..self }
    }

    /// After the worker has picked the log up.
    pub open spec fn resumed(self) -> Engine<F> {
        Engine { worker: self.worker.resumed(last_time_of(self.history)), ..self }
    }
}

/// What the trace says at the start of a workflow task: the commands derived
/// again from the history, then what the workflow logged.
pub open spec fn task_lines(attempt: u32, recorded: nat, pass: PassView) -> Seq<Text> {
    let replayed = if pass.commands.len() < recorded {
        pass.commands.len()
    } else {
        recorded
    };
    let head = seq!["\n-- workflow task (attempt "@ + decimal(attempt as nat) + ") --"@];
    let again = if replayed > 0 {
        seq![
            "   replayed "@ + decimal(replayed)
                + " command(s) from history (no side effects):"@,
        ] + pass.commands.take(replayed as int).map_values(
            |c: CommandView| "      = "@ + c.describe(),
        )
    } else {
        Seq::empty()
    };
    head + again + pass.logs.map_values(|l: Text| "   [wf log] "@ + l)
}

/// Every new command lines up with the recorded one in its place, as far as both
/// lists go.
pub open spec fn agree(commands: Seq<CommandView>, recorded: Seq<CommandView>) -> bool {
    forall|i: int|
        0 <= i < commands.len() && i < recorded.len() ==> (#[trigger] commands[i]).matches(
            recorded[i],
        )
}

/// The two lists part at position `i`, and not before.
pub open spec fn diverge_at(
    commands: Seq<CommandView>,
    recorded: Seq<CommandView>,
    i: int,
) -> bool {
    &&& 0 <= i < commands.len()
    &&& i < recorded.len()
    &&& !commands[i].matches(recorded[i])
    &&& agree(commands.take(i), recorded)
}

/// The commands that the history has never seen.
pub open spec fn fresh_commands(
    commands: Seq<CommandView>,
    recorded: Seq<CommandView>,
) -> Seq<CommandView> {
    if commands.len() > recorded.len() {
        commands.skip(recorded.len() as int)
    } else {
        Seq::empty()
    }
}

/// After writing the events for `fresh`, in order.
pub open spec fn persisted<F>(s: Engine<F>, fresh: Seq<CommandView>) -> Engine<F>
    decreases fresh.len(),
{
    if fresh.len() == 0 {
        s
    } else {
        let c = fresh.last();
        persisted(s, fresh.drop_last()).wrote(c.to_event()).said("      + "@ + c.describe())
    }
}

/// The commands that wait for an answer, in the order in which the answers come.
pub open spec fn pending_of(
    h: Seq<HistoryEventView>,
    order: CompletionOrder,
) -> Seq<CommandView> {
    let waiting = commands_of(h).filter(
        |c: CommandView| c.is_blocking() && !is_resolved(h, c.seq()),
    );
    match order {
        CompletionOrder::InOrder => waiting,
        CompletionOrder::Reversed => waiting.reverse(),
    }
}

/// The world's turn, under way: whether anything was recorded, and why it ended
/// early, if it did.
pub struct Advance<F> {
    pub engine: Engine<F>,
    pub made: bool,
    pub stop: Option<Progress>,
}

/// The worker will run the activity behind `c`: `c` asks for one, nothing has
/// ended the turn, and there is room.
pub open spec fn will_run<F>(s: Advance<F>, c: CommandView) -> bool {
    c is ScheduleActivity && s.stop is None && s.engine.can_run_activity()
}

/// After recording what an activity reported.
pub open spec fn reported<F>(s: Engine<F>, seq: SeqNo, report: Result<Text, Text>) -> Engine<F> {
    let later = s.ticked(ACTIVITY_LATENCY_MS);
    match report {
        Ok(result) => later.said(
            "   << ActivityTaskCompleted ["@ + decimal(seq as nat) + "] -> "@ + result,
        ).wrote(EventView::ActivityTaskCompleted { seq, result }),
        Err(failure) => later.said(
            "   << ActivityTaskFailed ["@ + decimal(seq as nat) + "] !! "@ + failure,
        ).wrote(EventView::ActivityTaskFailed { seq, failure }),
    }
}

/// An activity gets its turn: it runs, and what it reports is recorded. The
/// crash policy may kill the worker just before or just after that. The second
/// component says why the world's turn ends here, if it does.
pub open spec fn activity_turn<F>(
    s: Engine<F>,
    seq: SeqNo,
    activity_type: Text,
    input: Text,
    report: Result<Text, Text>,
) -> (Engine<F>, Option<Progress>) {
    if !s.can_run_activity() {
        (s, Some(Progress::Exhausted))
    } else {
        let ran = s.said(
            "   >> RUN "@ + activity_type + "("@ + input + ")   *** REAL SIDE EFFECT ***"@,
        ).executed(activity_type, input);
        let n = ran.worker.activities_run;
        if s.will_lose_result() {
            (
                ran.said(
                    "   !! WORKER DIED after side effect #"@ + decimal(n as nat)
                        + ", before recording its result"@,
                ),
                Some(Progress::Crashed { after_activity: n, result_recorded: false }),
            )
        } else if ran.worker.crash == CrashPolicy::AfterRecording(n) {
            (
                reported(ran, seq, report).said(
                    "   !! WORKER DIED after side effect #"@ + decimal(n as nat)
                        + ", result already durable"@,
                ),
                Some(Progress::Crashed { after_activity: n, result_recorded: true }),
            )
        } else {
            (reported(ran, seq, report), None)
        }
    }
}

/// The turn of one pending command. Only activities move here, and only while
/// nothing has ended the world's turn.
pub open spec fn activity_step<F>(
    s: Advance<F>,
    c: CommandView,
    report: Result<Text, Text>,
) -> Advance<F> {
    match c {
        CommandView::ScheduleActivity { seq, activity_type, input } if s.stop is None => {
            let t = activity_turn(s.engine, seq, activity_type, input, report);
            Advance { engine: t.0, made: s.made || t.1 is None, stop: t.1 }
        },
        _ => s,
    }
}

/// The turns of all pending commands, in order. `reports[i]` is what the
/// activity behind `pending[i]` reports, if it runs.
pub open spec fn activities_done<F>(
    s: Engine<F>,
    pending: Seq<CommandView>,
    reports: Seq<Result<Text, Text>>,
) -> Advance<F>
    decreases pending.len(),
{
    if pending.len() == 0 {
        Advance { engine: s, made: false, stop: None }
    } else {
        activity_step(
            activities_done(s, pending.drop_last(), reports.drop_last()),
            pending.last(),
            reports.last(),
        )
    }
}

/// Every activity that runs reports what its function may return.
pub open spec fn reports_possible<F: Fn(Payload) -> Result<Payload, String>>(
    s: Engine<F>,
    pending: Seq<CommandView>,
    reports: Seq<Result<Text, Text>>,
) -> bool
    decreases pending.len(),
{
    &&& pending.len() == reports.len()
    &&& pending.len() > 0 ==> {
        &&& reports_possible(s, pending.drop_last(), reports.drop_last())
        &&& match pending.last() {
            CommandView::ScheduleActivity { activity_type, input, .. } => will_run(
                activities_done(s, pending.drop_last(), reports.drop_last()),
                pending.last(),
            ) ==> may_report(s.worker.registry.fns, activity_type, input, reports.last()),
            _ => true,
        }
    }
}

/// One timer is due before another: less delay, or the same and asked for first.
pub open spec fn sooner(a: (u64, SeqNo), b: (u64, SeqNo)) -> bool {
    a.0 < b.0 || (a.0 == b.0 && a.1 < b.1)
}

/// Delay and sequence number of the timer that is due first.
pub open spec fn earliest_timer(pending: Seq<CommandView>) -> Option<(u64, SeqNo)>
    decreases pending.len(),
{
    if pending.len() == 0 {
        None
    } else {
        let before = earliest_timer(pending.drop_last());
        match pending.last() {
            CommandView::StartTimer { seq, fire_after_ms } => match before {
                Some(b) if !sooner((fire_after_ms, seq), b) => Some(b),
                _ => Some((fire_after_ms, seq)),
            },
            _ => before,
        }
    }
}

/// The world's turn: every outstanding activity runs. A timer fires only where
/// none did, and then the earliest one.
pub open spec fn advanced<F>(s: Engine<F>, reports: Seq<Result<Text, Text>>) -> (
    Engine<F>,
    Progress,
) {
    let pending = pending_of(s.history, s.worker.completion_order);
    let a = activities_done(s, pending, reports);
    match a.stop {
        Some(p) => (a.engine, p),
        None => if a.made {
            (a.engine, Progress::Made)
        } else {
            match earliest_timer(pending) {
                None => (a.engine, Progress::Stuck),
                Some((fire_after_ms, seq)) => if !a.engine.can_tick(fire_after_ms) {
                    (a.engine, Progress::Exhausted)
                } else {
                    let due = a.engine.ticked(fire_after_ms);
                    (
                        due.said(
                            "   ~~ clock -> "@ + decimal(due.worker.clock_ms as nat)
                                + "ms, TimerFired ["@ + decimal(seq as nat) + "]"@,
                        ).wrote(EventView::TimerFired { seq }),
                        Progress::Made,
                    )
                },
            }
        },
    }
}

/// What the world's turn means for the run. `None` is another workflow task.
pub open spec fn after_advance(p: Progress, attempt: u32) -> Option<RunOutcomeView> {
    match p {
        Progress::Made => if attempt == u32::MAX {
            Some(RunOutcomeView::Exhausted)
        } else {
            None
        },
        Progress::Stuck => Some(RunOutcomeView::Deadlocked),
        Progress::Crashed { after_activity, result_recorded } => Some(
            RunOutcomeView::Crashed { after_activity, result_recorded },
        ),
        Progress::Exhausted => Some(RunOutcomeView::Exhausted),
    }
}

/// An activity is among the pending commands.
pub open spec fn has_activity(pending: Seq<CommandView>) -> bool {
    exists|i: int| 0 <= i < pending.len() && (#[trigger] pending[i]) is ScheduleActivity
}

/// Every activity that the log asks for has been attempted, and has reported.
pub open spec fn all_attempted(h: Seq<HistoryEventView>) -> bool {
    forall|i: int|
        0 <= i < commands_of(h).len() && (#[trigger] commands_of(h)[i]) is ScheduleActivity
            ==> is_resolved(h, commands_of(h)[i].seq())
}

/// What a workflow did that stopped short of a recorded command.
pub open spec fn instead_of_issuing(poll: Poll<Result<Text, Text>>) -> Text {
    match poll {
        Poll::Ready(_) => "<workflow finished without issuing it>"@,
        Poll::Pending => "<workflow blocked without issuing it>"@,
    }
}

/// The terminal event of a workflow that returned `result`.
pub open spec fn ending(result: Result<Text, Text>) -> EventView {
    match result {
        Ok(result) => EventView::WorkflowExecutionCompleted { result },
        Err(failure) => EventView::WorkflowExecutionFailed { failure },
    }
}

/// The outcome of a run whose workflow returned `result`.
pub open spec fn ended(result: Result<Text, Text>) -> RunOutcomeView {
    match result {
        Ok(result) => RunOutcomeView::Completed(result),
        Err(failure) => RunOutcomeView::Failed(failure),
    }
}

/// The rest of a workflow task, once a pass that came to rest lines up with the
/// log as far as it goes. A pass that stopped short of a recorded command has
/// diverged. Otherwise fresh commands are written. Then the execution is closed,
/// if the workflow is done and no activity is outstanding; if not, the world has
/// its turn.
pub open spec fn task_continues<F: Fn(Payload) -> Result<Payload, String>>(
    s: Engine<F>,
    recorded: Seq<CommandView>,
    attempt: u32,
    pass: PassView,
    e: Engine<F>,
    out: Option<RunOutcomeView>,
) -> bool {
    if pass.commands.len() < recorded.len() {
        &&& e == s
        &&& out == Some(
            RunOutcomeView::NonDeterminism {
                index: pass.commands.len() as usize,
                expected: recorded[pass.commands.len() as int].describe(),
                actual: instead_of_issuing(pass.poll),
            },
        )
    } else {
        let p = persisted(s, fresh_commands(pass.commands, recorded));
        let pending = pending_of(p.history, p.worker.completion_order);
        match pass.poll {
            Poll::Ready(result) if !has_activity(pending) => {
                &&& e == p.wrote(ending(result))
                &&& out == Some(ended(result))
            },
            _ => exists|reports: Seq<Result<Text, Text>>|
                {
                    &&& #[trigger] reports_possible(p, pending, reports)
                    &&& e == advanced(p, reports).0
                    &&& out == after_advance(advanced(p, reports).1, attempt)
                },
        }
    }
}

/// What a workflow task does with the pass that replay yielded.
pub open spec fn task_ends<F: Fn(Payload) -> Result<Payload, String>>(
    s: Engine<F>,
    attempt: u32,
    pass: PassView,
    e: Engine<F>,
    out: Option<RunOutcomeView>,
) -> bool {
    let recorded = commands_of(s.history);
    let t = s.traced(task_lines(attempt, recorded.len(), pass));
    if pass.deadlocked {
        e == t && out == Some(RunOutcomeView::Deadlocked)
    } else if agree(pass.commands, recorded) {
        task_continues(t, recorded, attempt, pass, e, out)
    } else {
        exists|i: int|
            {
                &&& #[trigger] diverge_at(pass.commands, recorded, i)
                &&& e == t
                &&& out == Some(
                    RunOutcomeView::NonDeterminism {
                        index: i as usize,
                        expected: recorded[i].describe(),
                        actual: pass.commands[i].describe(),
                    },
                )
            }
    }
}

/// The engine at the start of a workflow task: one tick, one event.
pub open spec fn task_begun<F>(s: Engine<F>, attempt: u32) -> Engine<F> {
    s.ticked(1).wrote(EventView::WorkflowTaskStarted { attempt })
}

/// One workflow task takes the engine from `s` to `e`. Either the run ends with
/// `out`, or another task follows.
pub open spec fn task<
    T: Coroutine<T, ()>,
    R: Coroutine<T, Result<Payload, String>>,
    W: Workflow<T, R>,
    F: Fn(Payload) -> Result<Payload, String>,
>(wf: W, s: Engine<F>, attempt: u32, e: Engine<F>, out: Option<RunOutcomeView>) -> bool {
    if !s.can_tick(1) {
        e == s && out == Some(RunOutcomeView::Exhausted)
    } else {
        let begun = task_begun(s, attempt);
        exists|pass: PassView|
            {
                &&& #[trigger] replays::<T, R, W>(wf, begun.history, pass)
                &&& task_ends(begun, attempt, pass, e, out)
            }
    }
}

/// The attempts before `attempt` take the engine from `s` to `e`, and each calls
/// for another one.
pub open spec fn tasks_made<
    T: Coroutine<T, ()>,
    R: Coroutine<T, Result<Payload, String>>,
    W: Workflow<T, R>,
    F: Fn(Payload) -> Result<Payload, String>,
>(wf: W, s: Engine<F>, attempt: u32, e: Engine<F>) -> bool
    decreases attempt,
{
    if attempt <= 1 {
        e == s
    } else {
        exists|mid: Engine<F>|
            {
                &&& tasks_made::<T, R, W, F>(wf, s, (attempt - 1) as u32, mid)
                &&& #[trigger] task::<T, R, W, F>(wf, mid, (attempt - 1) as u32, e, None)
            }
    }
}

/// A whole run takes the engine from `s` to `e` and ends with `out`. A closed
/// log is left alone; its result stands.
pub open spec fn ran<
    T: Coroutine<T, ()>,
    R: Coroutine<T, Result<Payload, String>>,
    W: Workflow<T, R>,
    F: Fn(Payload) -> Result<Payload, String>,
>(wf: W, s: Engine<F>, e: Engine<F>, out: RunOutcomeView) -> bool {
    match final_result_of(s.history) {
        Some(Ok(result)) => e == s && out == RunOutcomeView::Completed(result),
        Some(Err(failure)) => e == s && out == RunOutcomeView::Failed(failure),
        None => exists|attempt: u32, mid: Engine<F>|
            {
                &&& attempt >= 1
                &&& #[trigger] tasks_made::<T, R, W, F>(wf, s.resumed(), attempt, mid)
                &&& #[trigger] task::<T, R, W, F>(wf, mid, attempt, e, Some(out))
            },
    }
}

} // verus!
