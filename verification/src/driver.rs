//! # The driver: replay, verify, persist, advance
//!
//! One struct plays three roles: it appends to the history, it decides what is
//! outstanding, and it replays workflow code and runs activities.

use vstd::prelude::*;
use vstd::string::*;

use crate::activity::{may_report, ActivityRegistry};
use crate::command::{command_views, Command, CommandView};
use crate::coroutine::{Coroutine, Observe, Poll, Workflow};
use crate::engine::{
    activities_done, activity_step, activity_turn, advanced, after_advance, agree, all_attempted,
    diverge_at, earliest_timer, ended, ending, engine, fresh_commands, has_activity, pending_of,
    persisted, ran, reported, reports_possible, task, task_begun, task_continues, task_ends,
    task_lines, tasks_made, Advance, WorkerView,
};
use crate::history::{commands_of, final_result_of, is_resolved, Event, History, Payload, SeqNo};
use crate::laws::effects::lemma_closing_task;
use crate::laws::log::lemma_prefix_trans;
use crate::replay::{replay_once, Pass};
use crate::text::{decimal_string, texts, Text};

verus! {

/// Simulated activity latency, so that history timestamps advance.
pub const ACTIVITY_LATENCY_MS: u64 = 10;

/// Where to kill the worker, to show what survives.
#[derive(Debug, Clone, Copy, PartialEq, Eq, Structural)]
pub enum CrashPolicy {
    Never,
    /// Die right after the Nth activity's result is durably recorded. On
    /// recovery that activity does not run again.
    AfterRecording(usize),
    /// Die after the Nth activity's side effect but *before* its result reaches
    /// the history. On recovery that activity does run again.
    BeforeRecording(usize),
}

impl Default for CrashPolicy {
    fn default() -> (r: CrashPolicy)
        ensures
            r == CrashPolicy::Never,
    {
        CrashPolicy::Never
    }
}

/// The order in which outstanding activities report back.
///
/// The engine does not care which one it is, but it *records* the order it got:
/// replay reproduces it.
#[derive(Debug, Clone, Copy, PartialEq, Eq, Structural)]
pub enum CompletionOrder {
    InOrder,
    Reversed,
}

impl Default for CompletionOrder {
    fn default() -> (r: CompletionOrder)
        ensures
            r == CompletionOrder::InOrder,
    {
        CompletionOrder::InOrder
    }
}

/// How a run ended.
#[derive(Debug, PartialEq)]
pub enum RunOutcome {
    Completed(Payload),
    Failed(String),
    /// Simulated process death. The history is intact; run again with a fresh
    /// worker to recover.
    Crashed { after_activity: usize, result_recorded: bool },
    /// The replayed commands diverged from the history: the workflow code was
    /// changed while executions were in flight.
    NonDeterminism { index: usize, expected: String, actual: String },
    /// The workflow is blocked but nothing is outstanding, or it never comes to
    /// rest.
    Deadlocked,
    /// The virtual clock, the count of workflow tasks or the count of activities
    /// has no next value. The history is intact.
    Exhausted,
}

/// The mathematical content of a [`RunOutcome`].
pub enum RunOutcomeView {
    Completed(Text),
    Failed(Text),
    Crashed { after_activity: usize, result_recorded: bool },
    NonDeterminism { index: usize, expected: Text, actual: Text },
    Deadlocked,
    Exhausted,
}

impl View for RunOutcome {
    type V = RunOutcomeView;

    open spec fn view(&self) -> RunOutcomeView {
        match self {
            RunOutcome::Completed(r) => RunOutcomeView::Completed(r@),
            RunOutcome::Failed(f) => RunOutcomeView::Failed(f@),
            RunOutcome::Crashed { after_activity, result_recorded } => RunOutcomeView::Crashed {
                after_activity: *after_activity,
                result_recorded: *result_recorded,
            },
            RunOutcome::NonDeterminism { index, expected, actual } =>
                RunOutcomeView::NonDeterminism {
                index: *index,
                expected: expected@,
                actual: actual@,
            },
            RunOutcome::Deadlocked => RunOutcomeView::Deadlocked,
            RunOutcome::Exhausted => RunOutcomeView::Exhausted,
        }
    }
}

impl Clone for RunOutcome {
    fn clone(&self) -> (r: RunOutcome)
        ensures
            r@ == self@,
    {
        match self {
            RunOutcome::Completed(r) => RunOutcome::Completed(r.clone()),
            RunOutcome::Failed(f) => RunOutcome::Failed(f.clone()),
            RunOutcome::Crashed { after_activity, result_recorded } => RunOutcome::Crashed {
                after_activity: *after_activity,
                result_recorded: *result_recorded,
            },
            RunOutcome::NonDeterminism { index, expected, actual } => RunOutcome::NonDeterminism {
                index: *index,
                expected: expected.clone(),
                actual: actual.clone(),
            },
            RunOutcome::Deadlocked => RunOutcome::Deadlocked,
            RunOutcome::Exhausted => RunOutcome::Exhausted,
        }
    }
}

/// What the world's turn came to.
#[derive(Debug, Clone, Copy, PartialEq, Eq, Structural)]
pub enum Progress {
    /// Something was recorded.
    Made,
    /// Nothing is outstanding.
    Stuck,
    /// The worker died.
    Crashed { after_activity: usize, result_recorded: bool },
    /// The clock or the count of activities has no room left.
    Exhausted,
}

/// Where trace lines go as they come.
pub trait TraceSink: Observe {
    /// What taking a line may do: a sink in state `before` becomes `after`.
    open spec fn took(before: Self::Obs, line: Text, after: Self::Obs) -> bool {
        true
    }

    /// Takes one line.
    fn line(&mut self, line: &str)
        ensures
            Self::took(old(self).observed(), line@, final(self).observed()),
    ;
}

/// A sink in state `before` takes `lines`, one after the other, and becomes `after`.
pub open spec fn took_all<S: TraceSink>(
    before: S::Obs,
    lines: Seq<Text>,
    after: S::Obs,
) -> bool
    decreases lines.len(),
{
    if lines.len() == 0 {
        after == before
    } else {
        exists|mid: S::Obs|
            {
                &&& took_all::<S>(before, lines.drop_last(), mid)
                &&& #[trigger] S::took(mid, lines.last(), after)
            }
    }
}

/// The sink of a worker whose trace is only collected.
pub struct Silent;

impl Observe for Silent {
    type Obs = ();

    open spec fn observed(&self) -> () {
        ()
    }
}

impl TraceSink for Silent {
    fn line(&mut self, line: &str) {
    }
}

/// Taking lines in two goes is taking them all.
proof fn lemma_took_more<S: TraceSink>(
    a: S::Obs,
    lines: Seq<Text>,
    b: S::Obs,
    more: Seq<Text>,
    c: S::Obs,
)
    requires
        took_all::<S>(a, lines, b),
        took_all::<S>(b, more, c),
    ensures
        took_all::<S>(a, lines + more, c),
    decreases more.len(),
{
    if more.len() == 0 {
        assert(lines + more =~= lines);
    } else {
        let mid = choose|mid: S::Obs|
            {
                &&& took_all::<S>(b, more.drop_last(), mid)
                &&& #[trigger] S::took(mid, more.last(), c)
            };
        lemma_took_more::<S>(a, lines, b, more.drop_last(), mid);
        assert((lines + more).drop_last() =~= lines + more.drop_last());
        assert((lines + more).last() == more.last());
    }
}

/// Drives workflows against a history. `F` is the type of the activities, `S` that
/// of the sink for trace lines. No decision of the worker depends on the sink: the
/// worker's view leaves it out, and [`Worker::sink`] is its content.
#[verifier::reject_recursive_types(F)]
#[verifier::reject_recursive_types(S)]
pub struct Worker<F: Fn(Payload) -> Result<Payload, String>, S: TraceSink = Silent> {
    sink: S,
    activities: ActivityRegistry<F>,
    crash: CrashPolicy,
    completion_order: CompletionOrder,
    trace: bool,
    trace_lines: Vec<String>,
    activities_run: usize,
    /// Virtual clock. Timers do not sleep; the driver moves the clock forward.
    clock_ms: u64,
}

impl<F: Fn(Payload) -> Result<Payload, String>, S: TraceSink> View for Worker<F, S> {
    type V = WorkerView<F>;

    closed spec fn view(&self) -> WorkerView<F> {
        WorkerView {
            registry: self.activities@,
            crash: self.crash,
            completion_order: self.completion_order,
            trace: self.trace,
            trace_lines: texts(self.trace_lines@),
            activities_run: self.activities_run,
            clock_ms: self.clock_ms,
        }
    }
}

impl<F: Fn(Payload) -> Result<Payload, String>, S: TraceSink> Worker<F, S> {
    /// The content of the sink for trace lines.
    pub closed spec fn sink(&self) -> S::Obs {
        self.sink.observed()
    }

    /// From `before` to this worker lines were added to the trace, and the sink took
    /// each of them once, in that order.
    pub open spec fn spoke_since(&self, before: Worker<F, S>) -> bool {
        let n = before@.trace_lines.len() as int;
        &&& before@.trace_lines.is_prefix_of(self@.trace_lines)
        &&& took_all::<S>(before.sink(), self@.trace_lines.skip(n), self.sink())
    }
}

/// A worker that said nothing.
proof fn lemma_silence<F: Fn(Payload) -> Result<Payload, String>, S: TraceSink>(
    a: Worker<F, S>,
    b: Worker<F, S>,
)
    requires
        b@.trace_lines == a@.trace_lines,
        b.sink() == a.sink(),
    ensures
        b.spoke_since(a),
{
    let n = a@.trace_lines.len() as int;
    assert(b@.trace_lines.subrange(0, n) =~= a@.trace_lines);
    assert(b@.trace_lines.skip(n) =~= Seq::empty());
}

proof fn lemma_spoke_on<F: Fn(Payload) -> Result<Payload, String>, S: TraceSink>(
    a: Worker<F, S>,
    b: Worker<F, S>,
    c: Worker<F, S>,
)
    requires
        b.spoke_since(a),
        c.spoke_since(b),
    ensures
        c.spoke_since(a),
{
    let n = a@.trace_lines.len() as int;
    let m = b@.trace_lines.len() as int;
    lemma_prefix_trans(a@.trace_lines, b@.trace_lines, c@.trace_lines);
    let first = b@.trace_lines.skip(n);
    let second = c@.trace_lines.skip(m);
    lemma_took_more::<S>(a.sink(), first, b.sink(), second, c.sink());
    assert(b@.trace_lines =~= c@.trace_lines.subrange(0, m));
    assert(first + second =~= c@.trace_lines.skip(n));
}

/// Whatever was said until `a`, by `b` it and all that came since has been said.
spec fn speaks_on<F: Fn(Payload) -> Result<Payload, String>, S: TraceSink>(
    a: Worker<F, S>,
    b: Worker<F, S>,
) -> bool {
    forall|w: Worker<F, S>| #[trigger] a.spoke_since(w) ==> b.spoke_since(w)
}

proof fn lemma_speaks_on<F: Fn(Payload) -> Result<Payload, String>, S: TraceSink>(
    a: Worker<F, S>,
    b: Worker<F, S>,
)
    requires
        b.spoke_since(a),
    ensures
        speaks_on(a, b),
{
    assert forall|w: Worker<F, S>| #[trigger] a.spoke_since(w) implies b.spoke_since(w) by {
        lemma_spoke_on(w, a, b);
    }
}

impl<F: Fn(Payload) -> Result<Payload, String>> Worker<F> {
    /// A worker that never crashes, reports in order and does not trace.
    pub fn new(activities: ActivityRegistry<F>) -> (r: Worker<F>)
        ensures
            r@ == (WorkerView::<F> {
                registry: activities@,
                crash: CrashPolicy::Never,
                completion_order: CompletionOrder::InOrder,
                trace: false,
                trace_lines: Seq::empty(),
                activities_run: 0,
                clock_ms: 0,
            }),
    {
        let r = Worker {
            sink: Silent,
            activities,
            crash: CrashPolicy::Never,
            completion_order: CompletionOrder::InOrder,
            trace: false,
            trace_lines: Vec::new(),
            activities_run: 0,
            clock_ms: 0,
        };
        proof {
            assert(r@.trace_lines =~= Seq::empty());
        }
        r
    }

    /// Hands every trace line to `sink` as it comes, beside collecting it.
    pub fn with_sink<S: TraceSink>(self, sink: S) -> (r: Worker<F, S>)
        ensures
            r@ == self@,
            r.sink() == sink.observed(),
    {
        Worker {
            sink,
            activities: self.activities,
            crash: self.crash,
            completion_order: self.completion_order,
            trace: self.trace,
            trace_lines: self.trace_lines,
            activities_run: self.activities_run,
            clock_ms: self.clock_ms,
        }
    }
}

impl<F: Fn(Payload) -> Result<Payload, String>, S: TraceSink> Worker<F, S> {
    /// Sets where the worker dies.
    pub fn with_crash(self, crash: CrashPolicy) -> (r: Worker<F, S>)
        ensures
            r@ == (WorkerView::<F> { crash, ..self@ }),
            r.sink() == self.sink(),
    {
        let mut w = self;
        w.crash = crash;
        w
    }

    /// Sets the order in which outstanding activities report back.
    pub fn with_completion_order(self, order: CompletionOrder) -> (r: Worker<F, S>)
        ensures
            r@ == (WorkerView::<F> { completion_order: order, ..self@ }),
            r.sink() == self.sink(),
    {
        let mut w = self;
        w.completion_order = order;
        w
    }

    /// Turns tracing on or off.
    pub fn with_trace(self, trace: bool) -> (r: Worker<F, S>)
        ensures
            r@ == (WorkerView::<F> { trace, ..self@ }),
            r.sink() == self.sink(),
    {
        let mut w = self;
        w.trace = trace;
        w
    }

    /// The registry, with the log of what was really executed.
    pub fn activities(&self) -> (r: &ActivityRegistry<F>)
        ensures
            r@ == self@.registry,
    {
        &self.activities
    }

    /// Hands out the trace so far, line by line, and starts it afresh.
    pub fn take_trace(&mut self) -> (r: Vec<String>)
        ensures
            texts(r@) == old(self)@.trace_lines,
            final(self)@ == (WorkerView::<F> { trace_lines: Seq::empty(), ..old(self)@ }),
            final(self).sink() == old(self).sink(),
    {
        let mut lines: Vec<String> = Vec::new();
        std::mem::swap(&mut lines, &mut self.trace_lines);
        proof {
            assert(self@.trace_lines =~= Seq::empty());
        }
        lines
    }

    fn tick(&mut self, ms: u64) -> (t: u64)
        requires
            old(self)@.clock_ms + ms <= u64::MAX,
        ensures
            final(self)@ == old(self)@.ticked(ms),
            final(self).sink() == old(self).sink(),
            t == final(self)@.clock_ms,
    {
        self.clock_ms = self.clock_ms + ms;
        self.clock_ms
    }

    fn say(&mut self, line: String)
        ensures
            final(self)@ == old(self)@.traced(seq![line@]),
            speaks_on(*old(self), *final(self)),
    {
        let ghost before = self.sink();
        if self.trace {
            self.sink.line(line.as_str());
            self.trace_lines.push(line);
            proof {
                let lines = old(self)@.trace_lines;
                let n = lines.len() as int;
                assert(self@.trace_lines =~= lines + seq![line@]);
                assert(self@.trace_lines.subrange(0, n) =~= lines);
                assert(self@.trace_lines.skip(n) =~= seq![line@]);
                assert(seq![line@].drop_last() =~= Seq::empty());
                assert(took_all::<S>(before, seq![line@].drop_last(), before));
                assert(S::took(before, seq![line@].last(), self.sink()));
                assert(took_all::<S>(before, seq![line@], self.sink()));
            }
        } else {
            proof {
                lemma_silence(*old(self), *self);
            }
        }
        proof {
            lemma_speaks_on(*old(self), *self);
        }
    }

    /// The commands that wait for an answer, in the order in which the answers
    /// come.
    fn pending(&self, history: &History) -> (r: Vec<Command>)
        ensures
            command_views(r@) == pending_of(history@, self@.completion_order),
    {
        broadcast use vstd::std_specs::hash::group_hash_axioms;

        let resolved = history.resolved_seqs();
        let recorded = history.recorded_commands();
        let ghost all = commands_of(history@);
        let ghost p = |c: CommandView| c.is_blocking() && !is_resolved(history@, c.seq());
        let mut waiting: Vec<Command> = Vec::new();
        proof {
            reveal(Seq::filter);
            assert(command_views(waiting@) =~= all.take(0).filter(p));
        }
        let mut i: usize = 0;
        while i < recorded.len()
            invariant
                i <= recorded.len(),
                command_views(recorded@) == all,
                p == (|c: CommandView| c.is_blocking() && !is_resolved(history@, c.seq())),
                forall|s: SeqNo| #[trigger] resolved@.contains(s) <==> is_resolved(history@, s),
                command_views(waiting@) == all.take(i as int).filter(p),
            decreases recorded.len() - i,
        {
            let c = &recorded[i];
            let ghost before = waiting@;
            proof {
                reveal(Seq::filter);
                assert(all.take(i + 1).drop_last() =~= all.take(i as int));
                assert(all[i as int] == c@);
            }
            if c.is_blocking() && !resolved.contains(&c.seq()) {
                waiting.push(c.clone());
                proof {
                    assert(command_views(waiting@) =~= command_views(before).push(c@));
                }
            }
            i = i + 1;
        }
        proof {
            assert(all.take(i as int) =~= all);
        }
        match self.completion_order {
            CompletionOrder::InOrder => waiting,
            CompletionOrder::Reversed => reversed(waiting),
        }
    }
}

/// The same commands, last one first.
fn reversed(commands: Vec<Command>) -> (r: Vec<Command>)
    ensures
        command_views(r@) == command_views(commands@).reverse(),
{
    let mut rest = commands;
    let mut r: Vec<Command> = Vec::new();
    while rest.len() > 0
        invariant
            rest@.len() + r@.len() == commands@.len(),
            rest@ == commands@.take(rest@.len() as int),
            forall|j: int|
                0 <= j < r@.len() ==> #[trigger] r@[j] == commands@[commands@.len() - 1 - j],
        decreases rest.len(),
    {
        match rest.pop() {
            Some(c) => {
                r.push(c);
            },
            None => {},
        }
    }
    proof {
        assert(command_views(r@) =~= command_views(commands@).reverse());
    }
    r
}

/// Delay and sequence number of the timer that is due first.
fn find_earliest_timer(pending: &Vec<Command>) -> (r: Option<(u64, SeqNo)>)
    ensures
        r == earliest_timer(command_views(pending@)),
{
    let ghost all = command_views(pending@);
    let mut earliest: Option<(u64, SeqNo)> = None;
    let mut i: usize = 0;
    while i < pending.len()
        invariant
            i <= pending.len(),
            all == command_views(pending@),
            earliest == earliest_timer(all.take(i as int)),
        decreases pending.len() - i,
    {
        proof {
            assert(all.take(i + 1).drop_last() =~= all.take(i as int));
            assert(all.take(i + 1).last() == pending@[i as int]@);
        }
        match &pending[i] {
            Command::StartTimer { seq, fire_after_ms } => {
                let replace: bool = match earliest {
                    Some((ms, first)) => *fire_after_ms < ms || (*fire_after_ms == ms && *seq
                        < first),
                    None => true,
                };
                if replace {
                    earliest = Some((*fire_after_ms, *seq));
                }
            },
            _ => {},
        }
        i = i + 1;
    }
    proof {
        assert(all.take(i as int) =~= all);
    }
    earliest
}

impl<F: Fn(Payload) -> Result<Payload, String>, S: TraceSink> Worker<F, S> {
    /// Runs one activity and records what it reports. Returns why the turn ends
    /// here, if it does.
    fn run_activity(
        &mut self,
        history: &mut History,
        seq: SeqNo,
        activity_type: &String,
        input: &Payload,
    ) -> (stop: Option<Progress>)
        requires
            final_result_of(old(history)@) is None,
        ensures
            speaks_on(*old(self), *final(self)),
            final_result_of(final(history)@) is None,
            exists|report: Result<Text, Text>|
                {
                    &&& engine(old(self)@, old(history)@).can_run_activity() ==> may_report(
                        old(self)@.registry.fns,
                        activity_type@,
                        input@,
                        report,
                    )
                    &&& #[trigger] activity_turn(
                        engine(old(self)@, old(history)@),
                        seq,
                        activity_type@,
                        input@,
                        report,
                    ) == (engine(final(self)@, final(history)@), stop)
                },
    {
        let ghost s = engine(self@, history@);
        proof {
            lemma_silence(*self, *self);
            lemma_speaks_on(*self, *self);
        }
        let room: bool = self.activities_run < usize::MAX && (self.crash
            == CrashPolicy::BeforeRecording(self.activities_run + 1) || self.clock_ms <= u64::MAX
            - ACTIVITY_LATENCY_MS);
        if !room {
            proof {
                let any = Err::<Text, Text>(Seq::empty());
                assert(activity_turn(s, seq, activity_type@, input@, any) == (
                    s,
                    Some(Progress::Exhausted),
                ));
            }
            return Some(Progress::Exhausted);
        }
        let mut line = "   >> RUN ".to_owned();
        line.append(activity_type.as_str());
        line.append("(");
        line.append(input.as_str());
        line.append(")   *** REAL SIDE EFFECT ***");
        self.say(line);
        self.activities_run = self.activities_run + 1;
        let n: usize = self.activities_run;
        let report = self.activities.invoke(activity_type.as_str(), input);
        let ghost seen = report.observed();
        let ghost ran = engine(self@, history@);
        proof {
            assert(self.spoke_since(*old(self)));
        }

        if self.crash == CrashPolicy::BeforeRecording(n) {
            let mut line = "   !! WORKER DIED after side effect #".to_owned();
            line.append(decimal_string(n as u64).as_str());
            line.append(", before recording its result");
            self.say(line);
            let stop = Some(Progress::Crashed { after_activity: n, result_recorded: false });
            proof {
                lemma_speaks_on(*old(self), *self);
                assert(activity_turn(s, seq, activity_type@, input@, seen) == (
                    engine(self@, history@),
                    stop,
                ));
            }
            return stop;
        }
        let t: u64 = self.tick(ACTIVITY_LATENCY_MS);
        proof {
            assert(self.spoke_since(*old(self)));
        }
        match report {
            Ok(result) => {
                let mut line = "   << ActivityTaskCompleted [".to_owned();
                line.append(decimal_string(seq as u64).as_str());
                line.append("] -> ");
                line.append(result.as_str());
                self.say(line);
                history.append(t, Event::ActivityTaskCompleted { seq, result });
            },
            Err(failure) => {
                let mut line = "   << ActivityTaskFailed [".to_owned();
                line.append(decimal_string(seq as u64).as_str());
                line.append("] !! ");
                line.append(failure.as_str());
                self.say(line);
                history.append(t, Event::ActivityTaskFailed { seq, failure });
            },
        }
        proof {
            lemma_speaks_on(*old(self), *self);
            assert(engine(self@, history@) == reported(ran, seq, seen));
        }
        if self.crash == CrashPolicy::AfterRecording(n) {
            let mut line = "   !! WORKER DIED after side effect #".to_owned();
            line.append(decimal_string(n as u64).as_str());
            line.append(", result already durable");
            self.say(line);
            let stop = Some(Progress::Crashed { after_activity: n, result_recorded: true });
            proof {
                lemma_speaks_on(*old(self), *self);
                assert(activity_turn(s, seq, activity_type@, input@, seen) == (
                    engine(self@, history@),
                    stop,
                ));
            }
            return stop;
        }
        proof {
            assert(activity_turn(s, seq, activity_type@, input@, seen) == (
                engine(self@, history@),
                None::<Progress>,
            ));
        }
        None
    }

    /// The non-deterministic half of the system. Everything that touches the
    /// real world happens here, and every outcome is written to the history
    /// before the workflow is allowed to observe it.
    fn advance(&mut self, history: &mut History) -> (progress: Progress)
        requires
            final_result_of(old(history)@) is None,
        ensures
            speaks_on(*old(self), *final(self)),
            final_result_of(final(history)@) is None,
            exists|reports: Seq<Result<Text, Text>>|
                {
                    &&& #[trigger] reports_possible(
                        engine(old(self)@, old(history)@),
                        pending_of(old(history)@, old(self)@.completion_order),
                        reports,
                    )
                    &&& advanced(engine(old(self)@, old(history)@), reports) == (
                        engine(final(self)@, final(history)@),
                        progress,
                    )
                },
    {
        let ghost s = engine(self@, history@);
        let pending = self.pending(history);
        let ghost all = command_views(pending@);
        let ghost mut reports: Seq<Result<Text, Text>> = Seq::empty();
        let mut made: bool = false;
        let mut stop: Option<Progress> = None;
        let mut i: usize = 0;
        proof {
            lemma_silence(*self, *self);
            assert(all.take(0) =~= Seq::empty());
        }
        while i < pending.len()
            invariant
                i <= pending.len(),
                all == command_views(pending@),
                reports.len() == i,
                activities_done(s, all.take(i as int), reports) == (Advance {
                    engine: engine(self@, history@),
                    made,
                    stop,
                }),
                reports_possible(s, all.take(i as int), reports),
                self@.registry.fns == s.worker.registry.fns,
                self.spoke_since(*old(self)),
                final_result_of(history@) is None,
            decreases pending.len() - i,
        {
            let ghost before = activities_done(s, all.take(i as int), reports);
            let ghost mut report: Result<Text, Text> = Err(Seq::empty());
            if stop.is_none() {
                match &pending[i] {
                    Command::ScheduleActivity { seq, activity_type, input } => {
                        let ghost w = self@;
                        let ghost h = history@;
                        stop = self.run_activity(history, *seq, activity_type, input);
                        if stop.is_none() {
                            made = true;
                        }
                        proof {
                            report = choose|report: Result<Text, Text>|
                                {
                                    &&& engine(w, h).can_run_activity() ==> may_report(
                                        w.registry.fns,
                                        activity_type@,
                                        input@,
                                        report,
                                    )
                                    &&& #[trigger] activity_turn(
                                        engine(w, h),
                                        *seq,
                                        activity_type@,
                                        input@,
                                        report,
                                    ) == (engine(self@, history@), stop)
                                };
                        }
                    },
                    _ => {},
                }
            }
            proof {
                let next = all.take(i + 1);
                assert(next.drop_last() =~= all.take(i as int));
                assert(next.last() == pending@[i as int]@);
                assert(reports.push(report).drop_last() =~= reports);
                reports = reports.push(report);
                assert(activities_done(s, next, reports) == activity_step(
                    before,
                    next.last(),
                    report,
                ));
            }
            i = i + 1;
        }
        proof {
            lemma_speaks_on(*old(self), *self);
            assert(all.take(i as int) =~= all);
        }
        match stop {
            Some(p) => {
                return p;
            },
            None => {},
        }
        if made {
            return Progress::Made;
        }
        // A timer fires only when nothing else could move, so a timer used as a
        // timeout loses the race against an activity that is ready.
        match find_earliest_timer(&pending) {
            None => Progress::Stuck,
            Some((fire_after_ms, seq)) => {
                if self.clock_ms > u64::MAX - fire_after_ms {
                    return Progress::Exhausted;
                }
                let t: u64 = self.tick(fire_after_ms);
                proof {
                    assert(self.spoke_since(*old(self)));
                }
                let mut line = "   ~~ clock -> ".to_owned();
                line.append(decimal_string(t).as_str());
                line.append("ms, TimerFired [");
                line.append(decimal_string(seq as u64).as_str());
                line.append("]");
                self.say(line);
                history.append(t, Event::TimerFired { seq });
                proof {
                    lemma_speaks_on(*old(self), *self);
                }
                Progress::Made
            },
        }
    }

    /// Traces the start of a workflow task: the commands derived again from the
    /// history, then what the workflow logged.
    fn trace_task(&mut self, attempt: u32, recorded: usize, pass: &Pass)
        ensures
            speaks_on(*old(self), *final(self)),
            final(self)@ == old(self)@.traced(task_lines(attempt, recorded as nat, pass@)),
    {
        proof {
            lemma_silence(*self, *self);
            lemma_speaks_on(*self, *self);
        }
        if !self.trace {
            return;
        }
        let ghost w = self@;
        let ghost cs = pass@.commands;
        let ghost ls = pass@.logs;
        let mut head = "\n-- workflow task (attempt ".to_owned();
        head.append(decimal_string(attempt as u64).as_str());
        head.append(") --");
        let ghost mut lines = seq![head@];
        self.say(head);
        let replayed: usize = if pass.commands.len() < recorded {
            pass.commands.len()
        } else {
            recorded
        };
        if replayed > 0 {
            let mut note = "   replayed ".to_owned();
            note.append(decimal_string(replayed as u64).as_str());
            note.append(" command(s) from history (no side effects):");
            self.say(note);
            proof {
                lines = lines + seq![note@];
                assert(self@.trace_lines =~= w.trace_lines + lines);
            }
            let ghost top = lines;
            let mut i: usize = 0;
            while i < replayed
                invariant
                    i <= replayed,
                    replayed <= pass.commands@.len(),
                    w.trace,
                    self.spoke_since(*old(self)),
                    cs == command_views(pass.commands@),
                    self@ == w.traced(
                        top + cs.take(i as int).map_values(
                            |c: CommandView| "      = "@ + c.describe(),
                        ),
                    ),
                decreases replayed - i,
            {
                let ghost f = |c: CommandView| "      = "@ + c.describe();
                let mut line = "      = ".to_owned();
                line.append(pass.commands[i].describe().as_str());
                self.say(line);
                proof {
                    assert(top + cs.take(i + 1).map_values(f) =~= top + cs.take(
                        i as int,
                    ).map_values(f) + seq![line@]);
                    assert(self@.trace_lines =~= w.trace_lines + (top + cs.take(
                        i + 1,
                    ).map_values(f)));
                }
                i = i + 1;
            }
            proof {
                lines = top + cs.take(replayed as int).map_values(
                    |c: CommandView| "      = "@ + c.describe(),
                );
            }
        }
        let ghost top = lines;
        let mut k: usize = 0;
        proof {
            assert(top + ls.take(0).map_values(|l: Text| "   [wf log] "@ + l) =~= top);
        }
        while k < pass.logs.len()
            invariant
                k <= pass.logs.len(),
                w.trace,
                self.spoke_since(*old(self)),
                ls == texts(pass.logs@),
                self@ == w.traced(
                    top + ls.take(k as int).map_values(|l: Text| "   [wf log] "@ + l),
                ),
            decreases pass.logs.len() - k,
        {
            let ghost f = |l: Text| "   [wf log] "@ + l;
            let mut line = "   [wf log] ".to_owned();
            line.append(pass.logs[k].as_str());
            self.say(line);
            proof {
                assert(top + ls.take(k + 1).map_values(f) =~= top + ls.take(
                    k as int,
                ).map_values(f) + seq![line@]);
                assert(self@.trace_lines =~= w.trace_lines + (top + ls.take(
                    k + 1,
                ).map_values(f)));
            }
            k = k + 1;
        }
        proof {
            lemma_speaks_on(*old(self), *self);
            assert(ls.take(k as int) =~= ls);
            assert(top + ls.map_values(|l: Text| "   [wf log] "@ + l) =~= task_lines(
                attempt,
                recorded as nat,
                pass@,
            ));
        }
    }

    /// Writes the events for the commands from position `from` on.
    fn persist(&mut self, history: &mut History, commands: &Vec<Command>, from: usize)
        requires
            from <= commands@.len(),
            final_result_of(old(history)@) is None,
        ensures
            speaks_on(*old(self), *final(self)),
            final_result_of(final(history)@) is None,
            engine(final(self)@, final(history)@) == persisted(
                engine(old(self)@, old(history)@),
                command_views(commands@).skip(from as int),
            ),
    {
        let ghost s = engine(self@, history@);
        let ghost fresh = command_views(commands@).skip(from as int);
        let mut i: usize = from;
        proof {
            lemma_silence(*self, *self);
            assert(fresh.take(0) =~= Seq::empty());
        }
        while i < commands.len()
            invariant
                from <= i <= commands.len(),
                fresh == command_views(commands@).skip(from as int),
                engine(self@, history@) == persisted(s, fresh.take(i - from)),
                final_result_of(history@) is None,
                self.spoke_since(*old(self)),
            decreases commands.len() - i,
        {
            let c = &commands[i];
            let t: u64 = self.clock_ms;
            history.append(t, c.to_event());
            let mut line = "      + ".to_owned();
            line.append(c.describe().as_str());
            self.say(line);
            proof {
                let next = fresh.take(i + 1 - from);
                assert(next.drop_last() =~= fresh.take(i - from));
                assert(next.last() == c@);
            }
            i = i + 1;
        }
        proof {
            lemma_speaks_on(*old(self), *self);
            assert(fresh.take(i - from) =~= fresh);
        }
    }

    /// Is an activity recorded that has no result yet?
    fn owes_activity(&self, history: &History) -> (r: bool)
        ensures
            r == has_activity(pending_of(history@, self@.completion_order)),
    {
        let pending = self.pending(history);
        let ghost all = command_views(pending@);
        let mut i: usize = 0;
        while i < pending.len()
            invariant
                i <= pending.len(),
                all == command_views(pending@),
                all == pending_of(history@, self@.completion_order),
                forall|j: int| 0 <= j < i ==> !((#[trigger] all[j]) is ScheduleActivity),
            decreases pending.len() - i,
        {
            match &pending[i] {
                Command::ScheduleActivity { .. } => {
                    proof {
                        assert(all[i as int] is ScheduleActivity);
                    }
                    return true;
                },
                _ => {
                    proof {
                        assert(all[i as int] == pending@[i as int]@);
                    }
                },
            }
            i = i + 1;
        }
        false
    }

    /// Writes the terminal event.
    fn close(&mut self, history: &mut History, result: Result<Payload, String>) -> (out:
        RunOutcome)
        requires
            final_result_of(old(history)@) is None,
        ensures
            *final(self) == *old(self),
            engine(final(self)@, final(history)@) == engine(old(self)@, old(history)@).wrote(
                ending(result.observed()),
            ),
            out@ == ended(result.observed()),
    {
        let t: u64 = self.clock_ms;
        match result {
            Ok(result) => {
                let out = result.clone();
                history.append(t, Event::WorkflowExecutionCompleted { result });
                RunOutcome::Completed(out)
            },
            Err(failure) => {
                let out = failure.clone();
                history.append(t, Event::WorkflowExecutionFailed { failure });
                RunOutcome::Failed(out)
            },
        }
    }

    /// One workflow task: replay, verify, persist, advance. Returns how the run
    /// ends here, or nothing if another task follows.
    fn workflow_task<
        T: Coroutine<T, ()>,
        R: Coroutine<T, Result<Payload, String>>,
        W: Workflow<T, R>,
    >(&mut self, wf: &W, history: &mut History, attempt: u32) -> (out: Option<RunOutcome>)
        requires
            final_result_of(old(history)@) is None,
        ensures
            speaks_on(*old(self), *final(self)),
            out is None ==> final_result_of(final(history)@) is None,
            task::<T, R, W, F>(
                *wf,
                engine(old(self)@, old(history)@),
                attempt,
                engine(final(self)@, final(history)@),
                outcome_view(out),
            ),
    {
        let ghost s = engine(self@, history@);
        proof {
            lemma_silence(*self, *self);
            lemma_speaks_on(*self, *self);
        }
        if self.clock_ms == u64::MAX {
            return Some(RunOutcome::Exhausted);
        }
        let t: u64 = self.tick(1);
        history.append(t, Event::WorkflowTaskStarted { attempt });
        let ghost begun = engine(self@, history@);
        let recorded = history.recorded_commands();
        let ghost rec = commands_of(history@);
        proof {
            assert(self.spoke_since(*old(self)));
            assert(begun == task_begun(s, attempt));
            assert(rec.len() == recorded@.len());
        }

        // Replay.
        let pass = replay_once::<T, R, W>(wf, history);
        let ghost p = pass@;
        self.trace_task(attempt, recorded.len(), &pass);
        let ghost traced = engine(self@, history@);
        proof {
            lemma_speaks_on(*old(self), *self);
        }
        if pass.deadlocked {
            proof {
                assert(task_ends(begun, attempt, p, traced, Some(RunOutcomeView::Deadlocked)));
            }
            return Some(RunOutcome::Deadlocked);
        }

        // Verify.
        match find_divergence(&pass.commands, &recorded) {
            Some(i) => {
                let expected = recorded[i].describe();
                let actual = pass.commands[i].describe();
                let out = RunOutcome::NonDeterminism { index: i, expected, actual };
                proof {
                    assert(diverge_at(p.commands, rec, i as int));
                    assert(!agree(p.commands, rec)) by {
                        assert(!p.commands[i as int].matches(rec[i as int]));
                    }
                    assert(task_ends(begun, attempt, p, traced, Some(out@)));
                }
                return Some(out);
            },
            None => {},
        }

        let issued: usize = pass.commands.len();
        if issued < recorded.len() {
            let expected = recorded[issued].describe();
            let actual = if pass.poll.is_ready() {
                "<workflow finished without issuing it>".to_owned()
            } else {
                "<workflow blocked without issuing it>".to_owned()
            };
            let out = RunOutcome::NonDeterminism { index: issued, expected, actual };
            proof {
                assert(rec[issued as int] == recorded@[issued as int]@);
                assert(task_continues(traced, rec, attempt, p, traced, Some(out@)));
            }
            return Some(out);
        }

        // Persist.
        if issued > recorded.len() {
            self.persist(history, &pass.commands, recorded.len());
        }
        let ghost kept = engine(self@, history@);
        proof {
            lemma_speaks_on(*old(self), *self);
            assert(kept == persisted(traced, fresh_commands(p.commands, rec)));
        }

        // Close, once the workflow is done and nothing that it asked for is left
        // to be attempted.
        match pass.poll {
            Poll::Ready(result) => {
                if !self.owes_activity(history) {
                    let out = self.close(history, result);
                    proof {
                        assert(task_continues(
                            traced,
                            rec,
                            attempt,
                            p,
                            engine(self@, history@),
                            Some(out@),
                        ));
                    }
                    return Some(out);
                }
            },
            Poll::Pending => {},
        }

        // Advance the world.
        let progress = self.advance(history);
        let ghost e = engine(self@, history@);
        let out = match progress {
            Progress::Made => if attempt == u32::MAX {
                Some(RunOutcome::Exhausted)
            } else {
                None
            },
            Progress::Stuck => Some(RunOutcome::Deadlocked),
            Progress::Crashed { after_activity, result_recorded } => Some(
                RunOutcome::Crashed { after_activity, result_recorded },
            ),
            Progress::Exhausted => Some(RunOutcome::Exhausted),
        };
        proof {
            lemma_speaks_on(*old(self), *self);
            assert(outcome_view(out) == after_advance(progress, attempt));
            assert(task_continues(traced, rec, attempt, p, e, outcome_view(out)));
        }
        out
    }

    /// Drives `wf` against `history` until it completes, crashes or blocks. The
    /// history is the durable state; everything else here is disposable. An
    /// execution ends only once every activity that it asked for was attempted.
    pub fn run<
        T: Coroutine<T, ()>,
        R: Coroutine<T, Result<Payload, String>>,
        W: Workflow<T, R>,
    >(&mut self, wf: W, history: &mut History) -> (out: RunOutcome)
        ensures
            final_result_of(old(history)@) is None && (out is Completed || out is Failed)
                ==> all_attempted(final(history)@),
            final(self).spoke_since(*old(self)),
            ran::<T, R, W, F>(
                wf,
                engine(old(self)@, old(history)@),
                engine(final(self)@, final(history)@),
                out@,
            ),
    {
        proof {
            lemma_silence(*self, *self);
        }
        match history.result() {
            Some(Ok(r)) => {
                return RunOutcome::Completed(r);
            },
            Some(Err(f)) => {
                return RunOutcome::Failed(f);
            },
            None => {},
        }
        // A recovering worker takes the clock from the log, so time never goes
        // backwards across a restart.
        let ghost s = engine(self@, history@).resumed();
        let t: u64 = history.last_time_ms();
        if t > self.clock_ms {
            self.clock_ms = t;
        }
        let ghost mut now = s;
        proof {
            assert(self.spoke_since(*old(self)));
            assert(now == engine(self@, history@));
        }
        let mut attempt: u32 = 1;
        loop
            invariant
                attempt >= 1,
                now == engine(self@, history@),
                tasks_made::<T, R, W, F>(wf, s, attempt, now),
                s == engine(old(self)@, old(history)@).resumed(),
                final_result_of(old(history)@) is None,
                final_result_of(history@) is None,
                self.spoke_since(*old(self)),
            decreases u32::MAX - attempt,
        {
            let out = self.workflow_task::<T, R, W>(&wf, history, attempt);
            let ghost next = engine(self@, history@);
            proof {
                assert(task::<T, R, W, F>(wf, now, attempt, next, outcome_view(out)));
            }
            match out {
                Some(o) => {
                    proof {
                        assert(task::<T, R, W, F>(wf, now, attempt, next, Some(o@)));
                        if o is Completed || o is Failed {
                            lemma_closing_task::<T, R, W, F>(wf, now, attempt, next, o@);
                        }
                    }
                    return o;
                },
                None => {},
            }
            proof {
                assert(attempt < u32::MAX);
                let then_on: u32 = (attempt + 1) as u32;
                assert(task::<T, R, W, F>(wf, now, (then_on - 1) as u32, next, None));
                assert(tasks_made::<T, R, W, F>(wf, s, then_on, next));
                now = next;
            }
            attempt = attempt + 1;
        }
    }
}

/// The content of what a workflow task returns.
pub open spec fn outcome_view(out: Option<RunOutcome>) -> Option<RunOutcomeView> {
    match out {
        Some(o) => Some(o@),
        None => None,
    }
}

/// The first position where a new command does not line up with the recorded
/// one.
fn find_divergence(commands: &Vec<Command>, recorded: &Vec<Command>) -> (r: Option<usize>)
    ensures
        match r {
            None => agree(command_views(commands@), command_views(recorded@)),
            Some(i) => diverge_at(command_views(commands@), command_views(recorded@), i as int),
        },
{
    let ghost cs = command_views(commands@);
    let ghost rec = command_views(recorded@);
    let mut i: usize = 0;
    while i < commands.len() && i < recorded.len()
        invariant
            i <= commands.len(),
            cs == command_views(commands@),
            rec == command_views(recorded@),
            agree(cs.take(i as int), rec),
        decreases commands.len() - i,
    {
        if !commands[i].matches(&recorded[i]) {
            return Some(i);
        }
        proof {
            assert(cs[i as int].matches(rec[i as int]));
            assert forall|j: int| 0 <= j < i + 1 && j < rec.len() implies (#[trigger] cs.take(
                i + 1,
            )[j]).matches(rec[j]) by {
                if j < i {
                    assert(cs.take(i as int)[j].matches(rec[j]));
                }
            }
        }
        i = i + 1;
    }
    proof {
        assert forall|j: int| 0 <= j < cs.len() && j < rec.len() implies (
        #[trigger] cs[j]).matches(rec[j]) by {
            assert(cs.take(i as int)[j].matches(rec[j]));
        }
    }
    None
}

} // verus!
