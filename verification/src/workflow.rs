//! # The workflow side of the boundary
//!
//! Two separate guarantees live here.
//!
//! ## 1. Identity: which await point is this?
//!
//! [`WfContext::activity`] takes the next [`SeqNo`] at **call** time, so identity
//! follows the evaluation order of the workflow code. Assigning it on the first
//! poll would tie it to whichever order a combinator polls its branches in. The
//! price is that these futures are not lazy: creating one issues the command
//! even if it is never awaited.
//!
//! ## 2. Values: is everything this code reads a function of the history?
//!
//! Every source of non-determinism needs a replacement that is backed by the
//! history: [`WfContext::now_ms`], [`WfContext::random_u64`], and the general
//! escape hatch [`WfContext::side_effect`].

use vstd::prelude::*;
use vstd::string::*;

use std::collections::{HashMap, HashSet};

use crate::command::{command_views, Command, CommandView};
use crate::coroutine::{Coroutine, Observe, Poll};
use crate::history::{
    commands_of, input_of, markers_of, seed_of, shown_results_of, History, HistoryEventView,
    Outcome, OutcomeView, Payload, RecordedResult, RecordedResultView, SeqNo,
};
use crate::text::{texts, Text};

verus! {

/// An activity reported failure instead of a result.
#[derive(Debug, PartialEq)]
pub struct ActivityFailure(pub String);

impl Clone for ActivityFailure {
    fn clone(&self) -> (r: ActivityFailure)
        ensures
            r == *self,
    {
        ActivityFailure(self.0.clone())
    }
}

impl Observe for ActivityFailure {
    type Obs = Text;

    open spec fn observed(&self) -> Text {
        self.0@
    }
}

impl ActivityFailure {
    /// The failure, for a reader.
    pub fn to_string(&self) -> (r: String)
        ensures
            r@ == "activity failed: "@ + self.0@,
    {
        let mut s = "activity failed: ".to_owned();
        s.append(self.0.as_str());
        s
    }
}

/// Command `i` of a workflow carries sequence number `i`.
pub open spec fn in_sequence(commands: Seq<CommandView>) -> bool {
    forall|i: int| 0 <= i < commands.len() ==> (#[trigger] commands[i]).seq() == i
}

/// The latest of the times at which results were observed; zero if there are
/// none.
pub open spec fn latest(observed: Seq<(SeqNo, u64)>) -> u64
    decreases observed.len(),
{
    if observed.len() == 0 {
        0
    } else {
        let before = latest(observed.drop_last());
        if observed.last().1 > before {
            observed.last().1
        } else {
            before
        }
    }
}

/// The result of command `seq` is among the observed ones.
pub open spec fn is_among(observed: Seq<(SeqNo, u64)>, seq: SeqNo) -> bool {
    exists|i: int| 0 <= i < observed.len() && (#[trigger] observed[i]).0 == seq
}

/// What a workflow can see and touch during one pass.
pub struct CtxView<T> {
    /// The input of the execution.
    pub input: Text,
    /// The seed of the workflow's randomness.
    pub seed: u64,
    /// How many random numbers were drawn so far.
    pub draws: nat,
    /// The results that the workflow is allowed to observe so far, with their
    /// timestamps.
    pub resolved: Map<SeqNo, (OutcomeView, u64)>,
    /// The results that the workflow has observed, with their timestamps, in the
    /// order of the observations.
    pub observed: Seq<(SeqNo, u64)>,
    /// The values that earlier side effects froze.
    pub markers: Map<SeqNo, Text>,
    /// The commands issued so far.
    pub commands: Seq<CommandView>,
    /// How many commands the history already records.
    pub recorded_command_count: nat,
    /// The lines logged so far.
    pub lines: Seq<Text>,
    /// How many deliveries are still ahead until the workflow sees something that
    /// no earlier task has shown to it.
    pub muted: nat,
    /// How many of the lines are old.
    pub old_lines: nat,
    /// The detached tasks that wait to be polled.
    pub tasks: Seq<T>,
    /// Something moved since the flag was last cleared.
    pub progressed: bool,
}

/// The context at the start of a pass over the log `h`: nothing delivered,
/// nothing issued.
pub open spec fn fresh_ctx<T>(h: Seq<HistoryEventView>) -> CtxView<T> {
    CtxView {
        input: input_of(h),
        seed: seed_of(h),
        draws: 0,
        resolved: Map::empty(),
        observed: Seq::empty(),
        markers: markers_of(h),
        commands: Seq::empty(),
        recorded_command_count: commands_of(h).len(),
        lines: Seq::empty(),
        muted: muted_at(h),
        old_lines: 0,
        tasks: Seq::empty(),
        progressed: false,
    }
}

/// How many deliveries a pass over the log `h` begins with that only repeat what
/// an earlier task has shown, and one more. In the first task nothing repeats.
pub open spec fn muted_at(h: Seq<HistoryEventView>) -> nat {
    match shown_results_of(h) {
        None => 0,
        Some(n) => n + 1,
    }
}

impl<T> CtxView<T> {
    /// The sequence number of the next command.
    pub open spec fn next_seq(self) -> SeqNo {
        self.commands.len() as SeqNo
    }

    /// There is a sequence number left for one more command.
    pub open spec fn can_issue(self) -> bool {
        self.commands.len() < SeqNo::MAX
    }

    /// Workflow time: that of the latest result observed.
    pub open spec fn now_ms(self) -> u64 {
        latest(self.observed)
    }

    /// After issuing the command `c`.
    pub open spec fn issued(self, c: CommandView) -> CtxView<T> {
        CtxView { commands: self.commands.push(c), progressed: true, ..self }
    }

    /// After observing the result of command `seq`, which is there. The first
    /// observation counts as progress.
    pub open spec fn saw(self, seq: SeqNo) -> CtxView<T> {
        CtxView {
            observed: self.observed.push((seq, self.resolved[seq].1)),
            progressed: self.progressed || !is_among(self.observed, seq),
            ..self
        }
    }

    /// After the delivery of a recorded result.
    pub open spec fn delivered(self, r: RecordedResultView) -> CtxView<T> {
        CtxView {
            resolved: self.resolved.insert(r.seq, (r.outcome, r.time_ms)),
            muted: if self.muted > 0 {
                (self.muted - 1) as nat
            } else {
                0
            },
            ..self
        }
    }

    /// After handing a detached task over.
    pub open spec fn spawned(self, t: T) -> CtxView<T> {
        CtxView { tasks: self.tasks.push(t), progressed: true, ..self }
    }

    /// The same context with the given tasks waiting.
    pub open spec fn with_tasks(self, tasks: Seq<T>) -> CtxView<T> {
        CtxView { tasks, ..self }
    }

    /// The same context with the progress flag at `progressed`.
    pub open spec fn with_progress(self, progressed: bool) -> CtxView<T> {
        CtxView { progressed, ..self }
    }

    /// The pass is deriving commands again that the history already records.
    pub open spec fn is_replaying(self) -> bool {
        self.commands.len() < self.recorded_command_count
    }

    /// The workflow has not got further than an earlier task: it has seen nothing
    /// that is new, or there are recorded commands still to derive again.
    pub open spec fn is_behind(self) -> bool {
        self.muted > 0 || self.is_replaying()
    }

    /// After logging `msg`. As long as the workflow is behind, its lines are old.
    pub open spec fn logged(self, msg: Text) -> CtxView<T> {
        CtxView {
            lines: self.lines.push(msg),
            old_lines: if self.is_behind() {
                self.lines.len() + 1
            } else {
                self.old_lines
            },
            ..self
        }
    }

    /// The lines that are not old.
    pub open spec fn new_lines(self) -> Seq<Text> {
        self.lines.skip(self.old_lines as int)
    }

    /// After drawing a random number.
    pub open spec fn drawn(self) -> CtxView<T> {
        CtxView { draws: self.draws + 1, ..self }
    }
}

/// The generator's step: a fixed odd increment.
pub open spec fn next_rng(rng: u64) -> u64 {
    rng.wrapping_add(0x9E37_79B9_7F4A_7C15)
}

/// The number that the generator gives in state `rng`: its bits, mixed.
pub open spec fn mixed(rng: u64) -> u64 {
    let a = (rng ^ (rng >> 30)).wrapping_mul(0xBF58_476D_1CE4_E5B9);
    let b = (a ^ (a >> 27)).wrapping_mul(0x94D0_49BB_1331_11EB);
    b ^ (b >> 31)
}

/// The generator's state, `n` steps from the seed.
pub open spec fn rng_after(seed: u64, n: nat) -> u64
    decreases n,
{
    if n == 0 {
        seed
    } else {
        next_rng(rng_after(seed, (n - 1) as nat))
    }
}

/// The random number with index `n`, counted from zero, of an execution with the
/// given seed.
pub open spec fn nth_random(seed: u64, n: nat) -> u64 {
    mixed(rng_after(seed, n + 1))
}

/// A random number generator that knows where it began.
struct Generator {
    rng: u64,
    seed: Ghost<u64>,
    draws: Ghost<nat>,
}

impl Generator {
    #[verifier::type_invariant]
    spec fn inv(self) -> bool {
        self.rng == rng_after(self.seed@, self.draws@)
    }

    fn new(seed: u64) -> (r: Generator)
        ensures
            r.seed@ == seed,
            r.draws@ == 0,
    {
        Generator { rng: seed, seed: Ghost(seed), draws: Ghost(0) }
    }

    fn draw(&mut self) -> (r: u64)
        ensures
            r == nth_random(old(self).seed@, old(self).draws@),
            final(self).seed@ == old(self).seed@,
            final(self).draws@ == old(self).draws@ + 1,
    {
        proof {
            use_type_invariant(&*self);
        }
        let rng: u64 = self.rng.wrapping_add(0x9E37_79B9_7F4A_7C15);
        *self = Generator { rng, seed: self.seed, draws: Ghost((self.draws@ + 1) as nat) };
        let mut z: u64 = rng;
        z = (z ^ (z >> 30)).wrapping_mul(0xBF58_476D_1CE4_E5B9);
        z = (z ^ (z >> 27)).wrapping_mul(0x94D0_49BB_1331_11EB);
        z ^ (z >> 31)
    }
}

/// Workflow time, and which results were observed.
struct Clock {
    now_ms: u64,
    seen: HashSet<SeqNo>,
    observed: Ghost<Seq<(SeqNo, u64)>>,
}

impl Clock {
    #[verifier::type_invariant]
    spec fn inv(self) -> bool {
        &&& self.now_ms == latest(self.observed@)
        &&& forall|q: SeqNo| #[trigger]
            self.seen@.contains(q) <==> is_among(self.observed@, q)
    }

    fn new() -> (r: Clock)
        ensures
            r.observed@ == Seq::<(SeqNo, u64)>::empty(),
    {
        broadcast use vstd::std_specs::hash::group_hash_axioms;

        Clock { now_ms: 0, seen: HashSet::new(), observed: Ghost(Seq::empty()) }
    }

    /// Takes note of an observation. Returns whether it is the first of its kind.
    fn observe(&mut self, seq: SeqNo, at_ms: u64) -> (first: bool)
        ensures
            final(self).observed@ == old(self).observed@.push((seq, at_ms)),
            first == !is_among(old(self).observed@, seq),
    {
        broadcast use vstd::std_specs::hash::group_hash_axioms;

        proof {
            use_type_invariant(&*self);
        }
        let ghost before = self.observed@;
        let ghost after = before.push((seq, at_ms));
        let mut clock = Clock::new();
        std::mem::swap(&mut clock, self);
        let Clock { now_ms, seen: set, observed: _ } = clock;
        let mut seen = set;
        let first: bool = !seen.contains(&seq);
        seen.insert(seq);
        proof {
            assert(after.drop_last() =~= before);
            assert forall|q: SeqNo| #[trigger] seen@.contains(q) <==> is_among(after, q) by {
                if q == seq {
                    assert(after[before.len() as int].0 == q);
                }
                if is_among(before, q) {
                    let i = choose|i: int|
                        0 <= i < before.len() && (#[trigger] before[i]).0 == q;
                    assert(after[i].0 == q);
                }
                if is_among(after, q) && q != seq {
                    let i = choose|i: int| 0 <= i < after.len() && (#[trigger] after[i]).0 == q;
                    assert(before[i].0 == q);
                }
            }
        }
        let later: u64 = if at_ms > now_ms {
            at_ms
        } else {
            now_ms
        };
        proof {
            assert(now_ms == latest(before));
            assert(later == latest(after));
        }
        *self = Clock { now_ms: later, seen, observed: Ghost(after) };
        first
    }
}

/// The results in `m`, each by its content.
pub open spec fn resolution_views(m: Map<SeqNo, (Outcome, u64)>) -> Map<SeqNo, (OutcomeView, u64)> {
    m.map_values(|p: (Outcome, u64)| (p.0@, p.1))
}

/// The only thing that a workflow function is given. If it is not on here, the
/// workflow should not be doing it.
pub struct WfContext<T> {
    input: Payload,
    resolved: HashMap<SeqNo, (Outcome, u64)>,
    markers: HashMap<SeqNo, Payload>,
    commands: Vec<Command>,
    recorded_command_count: usize,
    lines: Vec<String>,
    muted: usize,
    old_lines: usize,
    clock: Clock,
    generator: Generator,
    tasks: Vec<T>,
    progressed: bool,
}

impl<T: Observe> View for WfContext<T> {
    type V = CtxView<T::Obs>;

    closed spec fn view(&self) -> CtxView<T::Obs> {
        CtxView {
            input: self.input@,
            seed: self.generator.seed@,
            draws: self.generator.draws@,
            resolved: resolution_views(self.resolved@),
            observed: self.clock.observed@,
            markers: self.markers@.map_values(|p: Payload| p@),
            commands: command_views(self.commands@),
            recorded_command_count: self.recorded_command_count as nat,
            lines: texts(self.lines@),
            muted: self.muted as nat,
            old_lines: self.old_lines as nat,
            tasks: self.tasks.observed(),
            progressed: self.progressed,
        }
    }
}

impl<T> WfContext<T> {
    #[verifier::type_invariant]
    spec fn inv(self) -> bool {
        &&& in_sequence(command_views(self.commands@))
        &&& self.commands@.len() <= SeqNo::MAX
        &&& self.old_lines <= self.lines@.len()
    }
}

impl<T: Observe> WfContext<T> {
    /// The context at the start of a pass over `history`.
    pub fn new(history: &History) -> (r: WfContext<T>)
        ensures
            r@ == fresh_ctx::<T::Obs>(history@),
    {
        let recorded = history.recorded_commands();
        let muted: usize = match history.shown_results() {
            Some(n) => n + 1,
            None => 0,
        };
        let r = WfContext {
            input: history.input(),
            resolved: HashMap::new(),
            markers: history.markers(),
            commands: Vec::new(),
            recorded_command_count: recorded.len(),
            lines: Vec::new(),
            muted,
            old_lines: 0,
            clock: Clock::new(),
            generator: Generator::new(history.randomness_seed()),
            tasks: Vec::new(),
            progressed: false,
        };
        proof {
            let v = fresh_ctx::<T::Obs>(history@);
            assert(command_views(recorded@).len() == recorded@.len());
            assert(r@.resolved =~= v.resolved);
            assert(r@.commands =~= v.commands);
            assert(r@.lines =~= v.lines);
            assert(r@.tasks =~= v.tasks);
        }
        r
    }

    /// The input of the execution.
    pub fn input(&self) -> (r: Payload)
        ensures
            r@ == self@.input,
    {
        self.input.clone()
    }

    /// Asks for an activity. Returns a future that only ever resolves from the
    /// history.
    pub fn activity(&mut self, activity_type: &str, input: &str) -> (r: ActivityFuture)
        requires
            old(self)@.can_issue(),
        ensures
            r.observed() == old(self)@.next_seq(),
            final(self)@ == old(self)@.issued(
                CommandView::ScheduleActivity {
                    seq: old(self)@.next_seq(),
                    activity_type: activity_type@,
                    input: input@,
                },
            ),
    {
        let seq: SeqNo = self.commands.len() as SeqNo;
        self.issue(
            Command::ScheduleActivity {
                seq,
                activity_type: activity_type.to_owned(),
                input: input.to_owned(),
            },
        );
        ActivityFuture { seq }
    }

    /// Asks for a durable timer. Its start is a command and its firing is an
    /// event, so it survives a restart.
    pub fn timer(&mut self, fire_after_ms: u64) -> (r: TimerFuture)
        requires
            old(self)@.can_issue(),
        ensures
            r.observed() == old(self)@.next_seq(),
            final(self)@ == old(self)@.issued(
                CommandView::StartTimer { seq: old(self)@.next_seq(), fire_after_ms },
            ),
    {
        let seq: SeqNo = self.commands.len() as SeqNo;
        self.issue(Command::StartTimer { seq, fire_after_ms });
        TimerFuture { seq }
    }

    /// Workflow-visible time.
    ///
    /// Not the wall clock: the timestamp of the latest event that this pass has
    /// observed. It never goes back and is the same on every replay.
    pub fn now_ms(&self) -> (r: u64)
        ensures
            r == self@.now_ms(),
    {
        proof {
            use_type_invariant(&self.clock);
        }
        self.clock.now_ms
    }

    /// Deterministic randomness, seeded from the history: the same sequence on
    /// every replay.
    pub fn random_u64(&mut self) -> (r: u64)
        ensures
            r == nth_random(old(self)@.seed, old(self)@.draws),
            final(self)@ == old(self)@.drawn(),
    {
        proof {
            use_type_invariant(&*self);
        }
        let mut generator = Generator::new(0);
        std::mem::swap(&mut generator, &mut self.generator);
        let r: u64 = generator.draw();
        self.generator = generator;
        r
    }

    /// Runs `f` once and records its result for good: the general escape hatch
    /// for non-determinism that is not worth an activity.
    ///
    /// It does **not** block: the value is computed inline and shipped out as a
    /// `RecordMarker` command. On every later replay the recorded value is
    /// returned and `f` is not called. If the worker dies before the marker is
    /// persisted, `f` runs again.
    pub fn side_effect<F: FnOnce() -> Payload>(&mut self, marker_name: &str, f: F) -> (r: Payload)
        requires
            old(self)@.can_issue(),
            !old(self)@.markers.contains_key(old(self)@.next_seq()) ==> call_requires(f, ()),
        ensures
            old(self)@.markers.contains_key(old(self)@.next_seq()) ==> r@
                == old(self)@.markers[old(self)@.next_seq()],
            !old(self)@.markers.contains_key(old(self)@.next_seq()) ==> call_ensures(f, (), r),
            final(self)@ == old(self)@.issued(
                CommandView::RecordMarker {
                    seq: old(self)@.next_seq(),
                    marker_name: marker_name@,
                    value: r@,
                },
            ),
    {
        broadcast use vstd::std_specs::hash::group_hash_axioms;

        let seq: SeqNo = self.commands.len() as SeqNo;
        let value = match self.markers.get(&seq) {
            Some(recorded) => recorded.clone(),
            None => f(),
        };
        self.issue(
            Command::RecordMarker {
                seq,
                marker_name: marker_name.to_owned(),
                value: value.clone(),
            },
        );
        value
    }

    /// Starts a detached workflow task. The driver polls the root and every
    /// spawned task in creation order, over and over, until nothing can move.
    pub fn spawn(&mut self, task: T)
        ensures
            final(self)@ == old(self)@.spawned(task.observed()),
    {
        proof {
            use_type_invariant(&*self);
        }
        let mut tasks: Vec<T> = Vec::new();
        std::mem::swap(&mut tasks, &mut self.tasks);
        tasks.push(task);
        self.tasks = tasks;
        self.progressed = true;
        proof {
            assert(self@.tasks =~= old(self)@.tasks.push(task.observed()));
        }
    }

    /// True while this pass is deriving commands again that the history already
    /// has.
    ///
    /// The one legitimate use is to suppress effects that are not under the
    /// engine's control, such as logs. Branching workflow *logic* on this is
    /// non-deterministic by construction.
    pub fn is_replaying(&self) -> (r: bool)
        ensures
            r == self@.is_replaying(),
    {
        self.commands.len() < self.recorded_command_count
    }

    /// Logs once per logical execution rather than once per replay: of the lines
    /// of a pass, only those are handed out that no earlier task has logged.
    ///
    /// What an earlier task has logged is told by the log of the execution, which
    /// does not name the code that the task ran. A task counts as one of this code,
    /// unless it left nothing behind where this code would have: then it was a task
    /// of other code, and its lines are not these. So once is promised to code that
    /// stays the same. If it was changed while the execution was in flight, and the
    /// changed code was not found out in this way, a line can count as logged that
    /// only the changed code had the chance to log.
    pub fn log(&mut self, msg: &str)
        ensures
            final(self)@ == old(self)@.logged(msg@),
    {
        proof {
            use_type_invariant(&*self);
        }
        let behind: bool = self.muted > 0 || self.is_replaying();
        let mut lines: Vec<String> = Vec::new();
        let mut old_lines: usize = self.old_lines;
        self.old_lines = 0;
        std::mem::swap(&mut lines, &mut self.lines);
        lines.push(msg.to_owned());
        if behind {
            old_lines = lines.len();
        }
        self.lines = lines;
        self.old_lines = old_lines;
        proof {
            assert(self@.lines =~= old(self)@.lines.push(msg@));
        }
    }

    /// How many commands the workflow has issued in this pass. Requests go
    /// through as long as this is below the largest sequence number.
    pub fn commands_issued(&self) -> (r: usize)
        ensures
            r == self@.commands.len(),
    {
        self.commands.len()
    }

    fn issue(&mut self, command: Command)
        requires
            old(self)@.can_issue(),
            command@.seq() == old(self)@.next_seq(),
        ensures
            final(self)@ == old(self)@.issued(command@),
    {
        proof {
            use_type_invariant(&*self);
        }
        let mut commands: Vec<Command> = Vec::new();
        std::mem::swap(&mut commands, &mut self.commands);
        commands.push(command);
        proof {
            assert(command_views(commands@) =~= old(self)@.commands.push(command@));
        }
        self.commands = commands;
        self.progressed = true;
    }
}

impl<T: Observe> WfContext<T> {
    /// Takes note that the workflow observes the result of command `seq`.
    fn observe(&mut self, seq: SeqNo, at_ms: u64)
        requires
            old(self)@.resolved[seq].1 == at_ms,
        ensures
            final(self)@ == old(self)@.saw(seq),
    {
        proof {
            use_type_invariant(&*self);
        }
        let mut clock = Clock::new();
        std::mem::swap(&mut clock, &mut self.clock);
        let first: bool = clock.observe(seq, at_ms);
        self.clock = clock;
        if first {
            self.progressed = true;
        }
    }

    /// What the workflow may see of command `seq`.
    fn resolution(&self, seq: SeqNo) -> (r: Option<(Outcome, u64)>)
        ensures
            match r {
                Some((outcome, at_ms)) => self@.resolved.contains_key(seq) && self@.resolved[seq]
                    == (outcome@, at_ms),
                None => !self@.resolved.contains_key(seq),
            },
    {
        broadcast use vstd::std_specs::hash::group_hash_axioms;

        match self.resolved.get(&seq) {
            Some(found) => Some((found.0.clone(), found.1)),
            None => None,
        }
    }

    /// Lets the workflow see one more recorded result.
    pub(crate) fn deliver(&mut self, result: &RecordedResult)
        ensures
            final(self)@ == old(self)@.delivered(result@),
    {
        broadcast use vstd::std_specs::hash::group_hash_axioms;

        proof {
            use_type_invariant(&*self);
        }
        let mut resolved: HashMap<SeqNo, (Outcome, u64)> = HashMap::new();
        std::mem::swap(&mut resolved, &mut self.resolved);
        resolved.insert(result.seq, (result.outcome.clone(), result.time_ms));
        self.resolved = resolved;
        if self.muted > 0 {
            self.muted = self.muted - 1;
        }
        proof {
            assert(self@.resolved =~= old(self)@.delivered(result@).resolved);
        }
    }

    /// Has anything moved since the flag was last cleared?
    pub(crate) fn progressed(&self) -> (r: bool)
        ensures
            r == self@.progressed,
    {
        self.progressed
    }

    /// Sets or clears the progress flag.
    pub(crate) fn set_progressed(&mut self, progressed: bool)
        ensures
            final(self)@ == old(self)@.with_progress(progressed),
    {
        proof {
            use_type_invariant(&*self);
        }
        self.progressed = progressed;
    }

    /// Takes all waiting tasks out.
    pub(crate) fn take_tasks(&mut self) -> (r: Vec<T>)
        ensures
            r.observed() == old(self)@.tasks,
            final(self)@ == old(self)@.with_tasks(Seq::empty()),
    {
        proof {
            use_type_invariant(&*self);
        }
        let mut tasks: Vec<T> = Vec::new();
        std::mem::swap(&mut tasks, &mut self.tasks);
        proof {
            assert(self@.tasks =~= Seq::empty());
        }
        tasks
    }

    /// Puts `first` in front of the waiting tasks.
    pub(crate) fn return_tasks(&mut self, first: Vec<T>)
        ensures
            final(self)@ == old(self)@.with_tasks(first.observed() + old(self)@.tasks),
    {
        proof {
            use_type_invariant(&*self);
        }
        let mut tasks = first;
        let mut later: Vec<T> = Vec::new();
        std::mem::swap(&mut later, &mut self.tasks);
        tasks.append(&mut later);
        self.tasks = tasks;
        proof {
            assert(self@.tasks =~= first.observed() + old(self)@.tasks);
        }
    }

    /// Ends the pass: everything is dropped but the commands and the new log
    /// lines.
    pub(crate) fn finish(self) -> (r: (Vec<Command>, Vec<String>))
        ensures
            command_views(r.0@) == self@.commands,
            texts(r.1@) == self@.new_lines(),
            in_sequence(self@.commands),
            self@.commands.len() <= SeqNo::MAX,
    {
        proof {
            use_type_invariant(&self);
        }
        let WfContext { commands, lines: all, old_lines, .. } = self;
        let mut lines = all;
        let fresh = lines.split_off(old_lines);
        proof {
            assert(texts(fresh@) =~= self@.new_lines());
        }
        (commands, fresh)
    }
}

/// Resolves from the completion or failure of an activity in the history.
pub struct ActivityFuture {
    seq: SeqNo,
}

impl Observe for ActivityFuture {
    type Obs = SeqNo;

    closed spec fn observed(&self) -> SeqNo {
        self.seq
    }
}

impl ActivityFuture {
    /// The sequence number of the command behind this future.
    pub fn seq(&self) -> (r: SeqNo)
        ensures
            r == self.observed(),
    {
        self.seq
    }
}

/// What an activity's outcome is to the workflow that awaits it.
pub open spec fn activity_result(outcome: OutcomeView) -> Result<Text, Text> {
    match outcome {
        OutcomeView::Completed(p) => Ok(p),
        OutcomeView::Failed(f) => Err(f),
    }
}

/// Hands an outcome to the workflow that awaits it.
fn to_activity_result(outcome: Outcome) -> (r: Result<Payload, ActivityFailure>)
    ensures
        r.observed() == activity_result(outcome@),
{
    match outcome {
        Outcome::Completed(p) => Ok(p),
        Outcome::Failed(f) => Err(ActivityFailure(f)),
    }
}

impl<T: Observe> Coroutine<T, Result<Payload, ActivityFailure>> for ActivityFuture {
    /// Waits until a result for its sequence number is delivered; then gives
    /// that result, which is thereby observed.
    open spec fn polled(
        before: SeqNo,
        ctx: CtxView<T::Obs>,
        after: SeqNo,
        ctx_after: CtxView<T::Obs>,
        out: Poll<Result<Text, Text>>,
    ) -> bool {
        &&& after == before
        &&& if ctx.resolved.contains_key(before) {
            &&& out == Poll::Ready(activity_result(ctx.resolved[before].0))
            &&& ctx_after == ctx.saw(before)
        } else {
            &&& out == Poll::<Result<Text, Text>>::Pending
            &&& ctx_after == ctx
        }
    }

    fn poll(&mut self, ctx: &mut WfContext<T>) -> (out: Poll<Result<Payload, ActivityFailure>>) {
        match ctx.resolution(self.seq) {
            Some((outcome, at_ms)) => {
                ctx.observe(self.seq, at_ms);
                Poll::Ready(to_activity_result(outcome))
            },
            None => Poll::Pending,
        }
    }
}

/// Resolves from the firing of a timer in the history.
pub struct TimerFuture {
    seq: SeqNo,
}

impl Observe for TimerFuture {
    type Obs = SeqNo;

    closed spec fn observed(&self) -> SeqNo {
        self.seq
    }
}

impl<T: Observe> Coroutine<T, ()> for TimerFuture {
    /// Waits until the firing is delivered, which is thereby observed.
    open spec fn polled(
        before: SeqNo,
        ctx: CtxView<T::Obs>,
        after: SeqNo,
        ctx_after: CtxView<T::Obs>,
        out: Poll<()>,
    ) -> bool {
        &&& after == before
        &&& if ctx.resolved.contains_key(before) {
            &&& out == Poll::Ready(())
            &&& ctx_after == ctx.saw(before)
        } else {
            &&& out == Poll::<()>::Pending
            &&& ctx_after == ctx
        }
    }

    fn poll(&mut self, ctx: &mut WfContext<T>) -> (out: Poll<()>) {
        match ctx.resolution(self.seq) {
            Some((_, at_ms)) => {
                ctx.observe(self.seq, at_ms);
                Poll::Ready(())
            },
            None => Poll::Pending,
        }
    }
}

} // verus!
