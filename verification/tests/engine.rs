//! The engine on small hand-written coroutines.

use mini_temporal::activity::ActivityRegistry;
use mini_temporal::combinators::{join2, join_all, select2, Either, Join2, JoinAll, Select2};
use mini_temporal::coroutine::{Coroutine, NoTask, Observe, Poll, Workflow};
use mini_temporal::driver::{CompletionOrder, CrashPolicy, RunOutcome, TraceSink, Worker};
use mini_temporal::history::{Event, History, Payload};
use mini_temporal::replay::replay_once;
use mini_temporal::workflow::{ActivityFailure, ActivityFuture, TimerFuture, WfContext};
use std::cell::{Cell, RefCell};
use std::rc::Rc;

type Answer = Poll<Result<Payload, String>>;
type Reply = Result<Payload, ActivityFailure>;
type Activity = fn(Payload) -> Result<Payload, String>;

/// A coroutine that calls a closure at every poll.
struct Script(Box<dyn FnMut(&mut WfContext<NoTask>) -> Answer>);

impl Observe for Script {
    type Obs = ();
    fn observed(&self) {}
}

impl Coroutine<NoTask, Result<Payload, String>> for Script {
    fn poll(&mut self, ctx: &mut WfContext<NoTask>) -> Answer {
        (self.0)(ctx)
    }
}

/// A workflow that builds a script for every pass.
struct Play<F>(F);

impl<F, S> Workflow<NoTask, Script> for Play<F>
where
    F: Fn() -> S,
    S: FnMut(&mut WfContext<NoTask>) -> Answer + 'static,
{
    fn start(&self, _ctx: &mut WfContext<NoTask>) -> Script {
        Script(Box::new((self.0)()))
    }
}

fn echo(input: Payload) -> Result<Payload, String> {
    Ok(format!("<{input}>"))
}

fn refuse(input: Payload) -> Result<Payload, String> {
    Err(format!("no {input}"))
}

fn worker() -> Worker<Activity> {
    let mut reg: ActivityRegistry<Activity> = ActivityRegistry::new();
    reg.register("echo", echo).register("refuse", refuse);
    Worker::new(reg)
}

fn run<F, S>(w: &mut Worker<Activity>, f: F, h: &mut History) -> RunOutcome
where
    F: Fn() -> S,
    S: FnMut(&mut WfContext<NoTask>) -> Answer + 'static,
{
    w.run::<NoTask, Script, Play<F>>(Play(f), h)
}

fn done(s: String) -> Answer {
    Poll::Ready(Ok(s))
}

fn text(r: Reply) -> String {
    match r {
        Ok(p) => p,
        Err(f) => f.to_string(),
    }
}

fn fired(h: &History) -> Vec<(u32, u64)> {
    h.events()
        .iter()
        .filter_map(|e| match e.attrs {
            Event::TimerFired { seq } => Some((seq, e.time_ms)),
            _ => None,
        })
        .collect()
}

fn reported(h: &History) -> Vec<u32> {
    h.results_in_order().iter().map(|r| r.seq).collect()
}

// ===========================================================================
// How a run can end
// ===========================================================================

#[test]
fn a_workflow_that_waits_for_nothing_is_deadlocked() {
    let mut h = History::start("x");
    let mut w = worker();
    let out = run(&mut w, || |_: &mut WfContext<NoTask>| Poll::Pending, &mut h);
    assert_eq!(out, RunOutcome::Deadlocked);
    assert!(!h.is_closed());
    assert_eq!(h.len(), 2);
}

/// A detached task that is done at once but leaves another one behind.
struct Relay;

impl Observe for Relay {
    type Obs = ();
    fn observed(&self) {}
}

impl Coroutine<Relay, ()> for Relay {
    fn poll(&mut self, ctx: &mut WfContext<Relay>) -> Poll<()> {
        ctx.spawn(Relay);
        Poll::Ready(())
    }
}

struct Never;

impl Observe for Never {
    type Obs = ();
    fn observed(&self) {}
}

impl Coroutine<Relay, Result<Payload, String>> for Never {
    fn poll(&mut self, _ctx: &mut WfContext<Relay>) -> Answer {
        Poll::Pending
    }
}

struct RelayRace;

impl Workflow<Relay, Never> for RelayRace {
    fn start(&self, ctx: &mut WfContext<Relay>) -> Never {
        ctx.spawn(Relay);
        Never
    }
}

#[test]
fn a_workflow_that_never_comes_to_rest_is_deadlocked() {
    let mut h = History::start("x");
    assert!(replay_once::<Relay, Never, RelayRace>(&RelayRace, &h).deadlocked);
    let mut w = worker();
    assert_eq!(w.run::<Relay, Never, RelayRace>(RelayRace, &mut h), RunOutcome::Deadlocked);
    assert_eq!(h.len(), 2);
}

#[test]
fn a_timer_beyond_the_end_of_time_exhausts_the_clock() {
    let script = || {
        let mut t: Option<TimerFuture> = None;
        move |ctx: &mut WfContext<NoTask>| {
            if t.is_none() {
                t = Some(ctx.timer(u64::MAX));
            }
            match t.as_mut().unwrap().poll(ctx) {
                Poll::Ready(()) => done("fired".to_string()),
                Poll::Pending => Poll::Pending,
            }
        }
    };
    let mut h = History::start("x");
    let mut w = worker();
    assert_eq!(run(&mut w, script, &mut h), RunOutcome::Exhausted);
    assert_eq!(h.recorded_commands().len(), 1);
    assert!(fired(&h).is_empty());
}

/// Asks for one activity and returns its reply.
fn one(name: &'static str) -> impl Fn() -> Box<dyn FnMut(&mut WfContext<NoTask>) -> Answer> {
    move || {
        let mut a: Option<ActivityFuture> = None;
        Box::new(move |ctx: &mut WfContext<NoTask>| {
            if a.is_none() {
                let input = ctx.input();
                a = Some(ctx.activity(name, &input));
            }
            match a.as_mut().unwrap().poll(ctx) {
                Poll::Ready(Ok(p)) => Poll::Ready(Ok(p)),
                Poll::Ready(Err(f)) => Poll::Ready(Err(f.to_string())),
                Poll::Pending => Poll::Pending,
            }
        })
    }
}

#[test]
fn the_end_of_the_clock_stops_a_run_before_it_does_anything() {
    let mut h = History::start("x");
    h.append(u64::MAX, Event::WorkflowTaskStarted { attempt: 1 });
    let mut w = worker();
    assert_eq!(run(&mut w, one("echo"), &mut h), RunOutcome::Exhausted);
    assert_eq!(h.len(), 2);
}

#[test]
fn an_activity_runs_near_the_end_of_the_clock_only_if_its_result_has_room() {
    let mut h = History::start("x");
    h.append(u64::MAX - 5, Event::WorkflowTaskStarted { attempt: 1 });
    let mut w = worker();
    assert_eq!(run(&mut w, one("echo"), &mut h.clone()), RunOutcome::Exhausted);
    assert!(w.activities().executions().is_empty());

    let mut dying = worker().with_crash(CrashPolicy::BeforeRecording(1));
    assert_eq!(
        run(&mut dying, one("echo"), &mut h),
        RunOutcome::Crashed { after_activity: 1, result_recorded: false }
    );
    assert_eq!(dying.activities().execution_count("echo"), 1);
}

#[test]
fn results_and_failures_end_the_run() {
    let mut h = History::start("in");
    let out = run(&mut worker(), one("echo"), &mut h);
    assert_eq!(out, RunOutcome::Completed("<in>".to_string()));
    assert_eq!(out.clone(), out);
    assert_eq!(h.result(), Some(Ok("<in>".to_string())));

    let mut g = History::start("in");
    let out = run(&mut worker(), one("refuse"), &mut g);
    assert_eq!(out, RunOutcome::Failed("activity failed: no in".to_string()));
    assert_eq!(g.result(), Some(Err("activity failed: no in".to_string())));
}

#[test]
fn blocking_without_a_recorded_command_is_non_determinism() {
    let mut h = History::start("x");
    let mut first = worker().with_crash(CrashPolicy::AfterRecording(1));
    run(&mut first, one("echo"), &mut h);
    let n = h.len();
    let mut second = worker();
    assert_eq!(
        run(&mut second, || |_: &mut WfContext<NoTask>| Poll::Pending, &mut h),
        RunOutcome::NonDeterminism {
            index: 0,
            expected: "[0] ScheduleActivity echo(x)".to_string(),
            actual: "<workflow blocked without issuing it>".to_string(),
        }
    );
    assert_eq!(h.len(), n + 1);
    assert!(second.activities().executions().is_empty());
}

#[test]
fn finishing_without_a_recorded_command_is_non_determinism() {
    for result in [Ok("early".to_string()), Err("early".to_string())] {
        let mut h = History::start("x");
        let mut first = worker().with_crash(CrashPolicy::AfterRecording(1));
        run(&mut first, one("echo"), &mut h);
        let n = h.len();
        let mut second = worker();
        let script = || {
            let result = result.clone();
            move |_: &mut WfContext<NoTask>| Poll::Ready(result.clone())
        };
        assert_eq!(
            run(&mut second, script, &mut h),
            RunOutcome::NonDeterminism {
                index: 0,
                expected: "[0] ScheduleActivity echo(x)".to_string(),
                actual: "<workflow finished without issuing it>".to_string(),
            }
        );
        assert_eq!(h.len(), n + 1);
        assert!(!h.is_closed());
        assert!(second.activities().executions().is_empty());
    }
}

/// Asks for two activities, awaits neither and returns.
fn impatient() -> Box<dyn FnMut(&mut WfContext<NoTask>) -> Answer> {
    Box::new(|ctx: &mut WfContext<NoTask>| {
        ctx.activity("echo", "a");
        ctx.activity("refuse", "b");
        ctx.timer(5);
        done("done".to_string())
    })
}

#[test]
fn an_activity_that_nobody_awaits_is_attempted_all_the_same() {
    let mut h = History::start("x");
    let mut w = worker();
    assert_eq!(run(&mut w, impatient, &mut h), RunOutcome::Completed("done".to_string()));
    assert_eq!(w.activities().execution_count("echo"), 1);
    assert_eq!(w.activities().execution_count("refuse"), 1);
    assert_eq!(reported(&h), vec![0, 1]);
    assert!(fired(&h).is_empty());
}

#[test]
fn a_crash_does_not_spare_an_activity_that_nobody_awaits() {
    let mut clean = History::start("x");
    run(&mut worker(), impatient, &mut clean);

    let mut h = History::start("x");
    let mut first = worker().with_crash(CrashPolicy::AfterRecording(2));
    assert_eq!(
        run(&mut first, impatient, &mut h),
        RunOutcome::Crashed { after_activity: 2, result_recorded: true }
    );
    assert!(!h.is_closed());
    let mut second = worker();
    assert_eq!(run(&mut second, impatient, &mut h), RunOutcome::Completed("done".to_string()));
    assert!(second.activities().executions().is_empty());
    assert_eq!(h.len(), clean.len());
    assert_eq!(h.last_time_ms(), clean.last_time_ms());

    let mut g = History::start("x");
    let mut dying = worker().with_crash(CrashPolicy::BeforeRecording(1));
    run(&mut dying, impatient, &mut g);
    let mut third = worker();
    assert_eq!(run(&mut third, impatient, &mut g), RunOutcome::Completed("done".to_string()));
    assert_eq!(third.activities().execution_count("echo"), 1);
}

/// A detached task that waits for an activity and then raises a flag, for good.
struct Watcher {
    activity: ActivityFuture,
    flag: Rc<Cell<bool>>,
}

impl Observe for Watcher {
    type Obs = ();
    fn observed(&self) {}
}

impl Coroutine<Watcher, ()> for Watcher {
    fn poll(&mut self, ctx: &mut WfContext<Watcher>) -> Poll<()> {
        let polled: Poll<Reply> = self.activity.poll(ctx);
        if polled.is_ready() {
            self.flag.set(true);
        }
        Poll::Pending
    }
}

struct Flagged(Rc<Cell<bool>>);

impl Observe for Flagged {
    type Obs = ();
    fn observed(&self) {}
}

impl Coroutine<Watcher, Result<Payload, String>> for Flagged {
    fn poll(&mut self, _ctx: &mut WfContext<Watcher>) -> Answer {
        if self.0.get() {
            done("done".to_string())
        } else {
            Poll::Pending
        }
    }
}

struct Watch;

impl Workflow<Watcher, Flagged> for Watch {
    fn start(&self, ctx: &mut WfContext<Watcher>) -> Flagged {
        let flag: Rc<Cell<bool>> = Rc::default();
        let activity = ctx.activity("echo", "x");
        ctx.spawn(Watcher { activity, flag: flag.clone() });
        Flagged(flag)
    }
}

#[test]
fn the_root_is_polled_again_once_a_task_has_seen_a_result() {
    let mut h = History::start("x");
    let mut w = worker();
    assert_eq!(
        w.run::<Watcher, Flagged, Watch>(Watch, &mut h),
        RunOutcome::Completed("done".to_string())
    );
}

#[test]
fn a_worker_counts_its_activities_over_all_its_runs() {
    let mut w = worker().with_crash(CrashPolicy::AfterRecording(2));
    let mut h = History::start("x");
    assert_eq!(run(&mut w, one("echo"), &mut h), RunOutcome::Completed("<x>".to_string()));
    let mut g = History::start("y");
    assert_eq!(
        run(&mut w, one("echo"), &mut g),
        RunOutcome::Crashed { after_activity: 2, result_recorded: true }
    );
}

// ===========================================================================
// The world's turn
// ===========================================================================

#[test]
fn the_earliest_timer_fires_first_and_ties_go_to_the_older_one() {
    let script = || {
        let mut all: Option<JoinAll<TimerFuture, ()>> = None;
        move |ctx: &mut WfContext<NoTask>| {
            if all.is_none() {
                let futs = vec![ctx.timer(50), ctx.timer(20), ctx.timer(20)];
                all = Some(join_all::<NoTask, (), TimerFuture>(futs));
            }
            match all.as_mut().unwrap().poll(ctx) {
                Poll::Ready(v) => done(format!("{} at {}", v.len(), ctx.now_ms())),
                Poll::Pending => Poll::Pending,
            }
        }
    };
    let mut h = History::start("x");
    assert_eq!(run(&mut worker(), script, &mut h), RunOutcome::Completed("3 at 93".to_string()));
    assert_eq!(fired(&h), vec![(1, 21), (2, 42), (0, 93)]);
}

/// Races an activity against a timer.
fn timeout() -> Box<dyn FnMut(&mut WfContext<NoTask>) -> Answer> {
    let mut race: Option<Select2<TimerFuture, ActivityFuture>> = None;
    Box::new(move |ctx: &mut WfContext<NoTask>| {
        if race.is_none() {
            let t = ctx.timer(1);
            let a = ctx.activity("echo", "x");
            race = Some(select2(t, a));
        }
        let polled: Poll<Either<(), Reply>> = race.as_mut().unwrap().poll(ctx);
        match polled {
            Poll::Ready(Either::Left(())) => done("timeout".to_string()),
            Poll::Ready(Either::Right(r)) => done(text(r)),
            Poll::Pending => Poll::Pending,
        }
    })
}

#[test]
fn a_timeout_loses_against_an_activity_that_is_ready() {
    let mut h = History::start("x");
    assert_eq!(run(&mut worker(), timeout, &mut h), RunOutcome::Completed("<x>".to_string()));
    assert!(fired(&h).is_empty());
}

/// Races two activities.
fn race() -> Box<dyn FnMut(&mut WfContext<NoTask>) -> Answer> {
    let mut race: Option<Select2<ActivityFuture, ActivityFuture>> = None;
    Box::new(move |ctx: &mut WfContext<NoTask>| {
        if race.is_none() {
            let a = ctx.activity("echo", "a");
            let b = ctx.activity("echo", "b");
            assert_eq!((a.seq(), b.seq()), (0, 1));
            race = Some(select2(a, b));
        }
        let polled: Poll<Either<Reply, Reply>> = race.as_mut().unwrap().poll(ctx);
        match polled {
            Poll::Ready(Either::Left(r)) => done(format!("left {}", text(r))),
            Poll::Ready(Either::Right(r)) => done(format!("right {}", text(r))),
            Poll::Pending => Poll::Pending,
        }
    })
}

#[test]
fn the_completion_order_is_recorded_and_decides_the_race() {
    let mut h = History::start("x");
    assert_eq!(run(&mut worker(), race, &mut h), RunOutcome::Completed("left <a>".to_string()));
    assert_eq!(reported(&h), vec![0, 1]);

    let mut g = History::start("x");
    let mut w = worker().with_completion_order(CompletionOrder::Reversed);
    assert_eq!(run(&mut w, race, &mut g), RunOutcome::Completed("right <b>".to_string()));
    assert_eq!(reported(&g), vec![1, 0]);
}

#[test]
fn a_recovered_race_has_the_same_winner() {
    let mut h = History::start("x");
    let mut first = worker()
        .with_completion_order(CompletionOrder::Reversed)
        .with_crash(CrashPolicy::AfterRecording(2));
    run(&mut first, race, &mut h);
    assert_eq!(run(&mut worker(), race, &mut h), RunOutcome::Completed("right <b>".to_string()));
}

// ===========================================================================
// Joins
// ===========================================================================

/// Joins two activities and tells the time when both are there.
fn both() -> Box<dyn FnMut(&mut WfContext<NoTask>) -> Answer> {
    let mut j: Option<Join2<ActivityFuture, ActivityFuture, Reply, Reply>> = None;
    Box::new(move |ctx: &mut WfContext<NoTask>| {
        if j.is_none() {
            let a = ctx.activity("echo", "a");
            let b = ctx.activity("refuse", "b");
            j = Some(join2::<NoTask, Reply, Reply, ActivityFuture, ActivityFuture>(a, b));
        }
        match j.as_mut().unwrap().poll(ctx) {
            Poll::Ready((a, b)) => done(format!("{} {} {}", text(a), text(b), ctx.now_ms())),
            Poll::Pending => Poll::Pending,
        }
    })
}

#[test]
fn a_join_waits_for_both_and_keeps_the_order() {
    for order in [CompletionOrder::InOrder, CompletionOrder::Reversed] {
        let mut h = History::start("x");
        let mut w = worker().with_completion_order(order);
        assert_eq!(
            run(&mut w, both, &mut h),
            RunOutcome::Completed("<a> activity failed: no b 21".to_string())
        );
    }
}

#[test]
fn a_crash_between_two_results_leaves_the_join_waiting() {
    let mut h = History::start("x");
    let mut first = worker().with_crash(CrashPolicy::AfterRecording(1));
    run(&mut first, both, &mut h);
    assert!(replay_once::<NoTask, Script, _>(&Play(both), &h).poll.is_pending());
    let mut second = worker();
    assert_eq!(
        run(&mut second, both, &mut h),
        RunOutcome::Completed("<a> activity failed: no b 22".to_string())
    );
    assert_eq!(second.activities().executions().len(), 1);
}

#[test]
fn join_all_keeps_the_order_of_its_branches() {
    let script = || {
        let mut all: Option<JoinAll<ActivityFuture, Reply>> = None;
        move |ctx: &mut WfContext<NoTask>| {
            if all.is_none() {
                let futs = vec![
                    ctx.activity("echo", "1"),
                    ctx.activity("echo", "2"),
                    ctx.activity("echo", "3"),
                ];
                all = Some(join_all::<NoTask, Reply, ActivityFuture>(futs));
            }
            match all.as_mut().unwrap().poll(ctx) {
                Poll::Ready(v) => done(v.into_iter().map(text).collect::<Vec<_>>().join("")),
                Poll::Pending => Poll::Pending,
            }
        }
    };
    let mut h = History::start("x");
    let mut w = worker().with_completion_order(CompletionOrder::Reversed);
    assert_eq!(run(&mut w, script, &mut h), RunOutcome::Completed("<1><2><3>".to_string()));
    assert_eq!(reported(&h), vec![2, 1, 0]);
}

#[test]
fn a_join_of_nothing_is_ready_at_once() {
    let mut ctx: WfContext<NoTask> = WfContext::new(&History::start("x"));
    let mut all = join_all::<NoTask, Reply, ActivityFuture>(Vec::new());
    assert_eq!(all.poll(&mut ctx), Poll::Ready(Vec::new()));
}

// ===========================================================================
// The context
// ===========================================================================

#[test]
fn the_context_hands_out_numbers_in_the_order_of_requests() {
    let mut ctx: WfContext<NoTask> = WfContext::new(&History::start("x"));
    let a = ctx.activity("echo", "1");
    ctx.timer(5);
    ctx.side_effect("m", || "v".to_string());
    let b = ctx.activity("echo", "2");
    assert_eq!((a.seq(), b.seq()), (0, 3));
    assert_eq!(ctx.commands_issued(), 4);
    assert_eq!(ctx.now_ms(), 0);
    assert_eq!(ctx.input(), "x");
    assert!(!ctx.is_replaying());
}

#[test]
fn randomness_is_a_function_of_the_start_event() {
    let mut ctx: WfContext<NoTask> = WfContext::new(&History::start("x"));
    assert_eq!(ctx.random_u64(), 4864352247557823499);
    assert_eq!(ctx.random_u64(), 6173141170527173794);
    assert_eq!(ctx.random_u64(), 2440305123891069610);
    let mut again: WfContext<NoTask> = WfContext::new(&History::start("x"));
    assert_eq!(again.random_u64(), 4864352247557823499);
    let mut bare: WfContext<NoTask> = WfContext::new(&History::default());
    assert_eq!(bare.random_u64(), 10451216379200822465);
    assert_eq!(bare.random_u64(), 13757245211066428519);
}

#[test]
fn a_recorded_side_effect_is_not_run_again() {
    let mut h = History::start("x");
    h.append(1, Event::MarkerRecorded {
        seq: 0,
        marker_name: "id".to_string(),
        value: "frozen".to_string(),
    });
    let mut ctx: WfContext<NoTask> = WfContext::new(&h);
    assert!(ctx.is_replaying());
    assert_eq!(ctx.side_effect("id", || unreachable!()), "frozen");
    assert!(!ctx.is_replaying());
    assert_eq!(ctx.side_effect("id", || "new".to_string()), "new");
}

/// An activity and a timer; a line in between, which no command follows.
fn talkative() -> Box<dyn FnMut(&mut WfContext<NoTask>) -> Answer> {
    let mut futs: Option<(ActivityFuture, TimerFuture)> = None;
    let mut got_a = false;
    Box::new(move |ctx: &mut WfContext<NoTask>| {
        if futs.is_none() {
            futs = Some((ctx.activity("echo", "x"), ctx.timer(5)));
            ctx.log("asked");
        }
        let (a, t) = futs.as_mut().unwrap();
        if !got_a {
            let polled: Poll<Reply> = a.poll(ctx);
            if polled.is_pending() {
                return Poll::Pending;
            }
            got_a = true;
            ctx.log("got a");
        }
        match t.poll(ctx) {
            Poll::Ready(()) => {
                ctx.log("got t");
                done("done".to_string())
            }
            Poll::Pending => Poll::Pending,
        }
    })
}

#[test]
fn a_line_is_logged_once_per_execution() {
    let mut h = History::start("x");
    let mut w = worker().with_trace(true);
    assert_eq!(run(&mut w, talkative, &mut h), RunOutcome::Completed("done".to_string()));
    let lines: Vec<String> =
        w.take_trace().into_iter().filter(|l| l.starts_with("   [wf log]")).collect();
    assert_eq!(lines, vec!["   [wf log] asked", "   [wf log] got a", "   [wf log] got t"]);
}

#[test]
fn a_line_is_logged_once_across_crashes() {
    for crash in [CrashPolicy::AfterRecording(1), CrashPolicy::BeforeRecording(1)] {
        let mut h = History::start("x");
        let mut first = worker().with_trace(true).with_crash(crash);
        run(&mut first, talkative, &mut h);
        let mut second = worker().with_trace(true);
        run(&mut second, talkative, &mut h);
        let mut all = first.take_trace();
        all.extend(second.take_trace());
        let lines: Vec<String> =
            all.into_iter().filter(|l| l.starts_with("   [wf log]")).collect();
        assert_eq!(lines, vec!["   [wf log] asked", "   [wf log] got a", "   [wf log] got t"]);
    }
}

#[test]
fn lines_before_recorded_commands_are_logged_once() {
    let script = || {
        let mut step = 0;
        let mut a: Option<ActivityFuture> = None;
        move |ctx: &mut WfContext<NoTask>| loop {
            if let Some(f) = a.as_mut() {
                let polled: Poll<Reply> = f.poll(ctx);
                if polled.is_pending() {
                    return Poll::Pending;
                }
            }
            if step == 2 {
                return done("ok".to_string());
            }
            ctx.log(&format!("step {step}"));
            a = Some(ctx.activity("echo", "x"));
            step += 1;
        }
    };
    let mut h = History::start("x");
    let mut w = worker().with_trace(true);
    assert_eq!(run(&mut w, script, &mut h), RunOutcome::Completed("ok".to_string()));
    let trace = w.take_trace();
    for line in ["   [wf log] step 0", "   [wf log] step 1"] {
        assert_eq!(trace.iter().filter(|l| l.as_str() == line).count(), 1);
    }
}

/// A line, an activity, a line.
fn reporter(name: &'static str) -> impl Fn() -> Box<dyn FnMut(&mut WfContext<NoTask>) -> Answer> {
    move || {
        let mut a: Option<ActivityFuture> = None;
        Box::new(move |ctx: &mut WfContext<NoTask>| {
            if a.is_none() {
                ctx.log("asking");
                a = Some(ctx.activity(name, "x"));
            }
            let polled: Poll<Reply> = a.as_mut().unwrap().poll(ctx);
            match polled {
                Poll::Ready(r) => {
                    ctx.log("told");
                    done(text(r))
                }
                Poll::Pending => Poll::Pending,
            }
        })
    }
}

fn logged(trace: Vec<String>) -> Vec<String> {
    trace.iter().filter_map(|l| l.strip_prefix("   [wf log] ")).map(|l| l.to_string()).collect()
}

#[test]
fn a_task_of_other_code_loses_no_line() {
    for times in 1..3 {
        let mut h = History::start("in");
        let mut w = worker().with_trace(true).with_crash(CrashPolicy::AfterRecording(1));
        run(&mut w, reporter("echo"), &mut h);
        assert_eq!(logged(w.take_trace()), ["asking"]);

        for _ in 0..times {
            let len = h.len();
            let outcome = run(&mut worker(), reporter("refuse"), &mut h);
            assert!(matches!(outcome, RunOutcome::NonDeterminism { index: 0, .. }));
            assert_eq!(h.len(), len + 1);
        }

        let mut w = worker().with_trace(true);
        assert_eq!(
            run(&mut w, reporter("echo"), &mut h),
            RunOutcome::Completed("<x>".to_string())
        );
        assert_eq!(logged(w.take_trace()), ["told"]);
    }
}

#[test]
fn a_task_that_died_without_a_trace_in_the_log_is_not_logged_again() {
    let script = || {
        let mut futs: Option<(ActivityFuture, ActivityFuture)> = None;
        let mut got_a = false;
        move |ctx: &mut WfContext<NoTask>| {
            if futs.is_none() {
                futs = Some((ctx.activity("echo", "a"), ctx.activity("echo", "b")));
            }
            let (a, b) = futs.as_mut().unwrap();
            if !got_a {
                let polled: Poll<Reply> = a.poll(ctx);
                if polled.is_pending() {
                    return Poll::Pending;
                }
                got_a = true;
                ctx.log("got a");
            }
            let polled: Poll<Reply> = b.poll(ctx);
            match polled {
                Poll::Ready(r) => {
                    ctx.log("got b");
                    done(text(r))
                }
                Poll::Pending => Poll::Pending,
            }
        }
    };
    let mut h = History::start("in");
    run(&mut worker().with_crash(CrashPolicy::AfterRecording(1)), script, &mut h);
    let mut lines = Vec::new();
    for crash in [CrashPolicy::BeforeRecording(1), CrashPolicy::BeforeRecording(1)] {
        let len = h.len();
        let mut w = worker().with_trace(true).with_crash(crash);
        run(&mut w, script, &mut h);
        assert_eq!(h.len(), len + 1);
        lines.extend(logged(w.take_trace()));
    }
    assert_eq!(lines, ["got a"]);
    let mut w = worker().with_trace(true);
    assert_eq!(run(&mut w, script, &mut h), RunOutcome::Completed("<b>".to_string()));
    assert_eq!(logged(w.take_trace()), ["got b"]);
}

#[test]
fn a_blocked_workflow_logs_nothing_again() {
    let script = || {
        let mut a: Option<ActivityFuture> = None;
        let mut told = false;
        move |ctx: &mut WfContext<NoTask>| {
            if a.is_none() {
                a = Some(ctx.activity("echo", "x"));
            }
            let polled: Poll<Reply> = a.as_mut().unwrap().poll(ctx);
            if polled.is_ready() && !told {
                told = true;
                ctx.log("told");
            }
            Poll::Pending
        }
    };
    let mut h = History::start("in");
    let mut w = worker().with_trace(true);
    assert_eq!(run(&mut w, script, &mut h), RunOutcome::Deadlocked);
    assert_eq!(logged(w.take_trace()), ["told"]);
    assert_eq!(run(&mut w, script, &mut h), RunOutcome::Deadlocked);
    assert!(logged(w.take_trace()).is_empty());
}

#[test]
fn lines_before_recorded_commands_are_old_in_a_log_without_tasks() {
    let mut h = History::start("in");
    h.append(
        1,
        Event::ActivityTaskScheduled {
            seq: 0,
            activity_type: "echo".to_string(),
            input: "x".to_string(),
        },
    );
    h.append(2, Event::ActivityTaskCompleted { seq: 0, result: "y".to_string() });
    let pass = replay_once::<NoTask, Script, _>(&Play(reporter("echo")), &h);
    assert_eq!(pass.logs, ["told"]);
}

/// Two activities, awaited in the opposite order of their results.
#[test]
fn workflow_time_never_goes_back() {
    let seen: Rc<Cell<u64>> = Rc::default();
    let inner = seen.clone();
    let script = move || {
        let seen = inner.clone();
        let mut futs: Option<(ActivityFuture, ActivityFuture)> = None;
        let mut first_done = false;
        move |ctx: &mut WfContext<NoTask>| {
            if futs.is_none() {
                futs = Some((ctx.activity("echo", "a"), ctx.activity("echo", "b")));
            }
            let (a, b) = futs.as_mut().unwrap();
            if !first_done {
                let polled: Poll<Reply> = b.poll(ctx);
                if polled.is_pending() {
                    return Poll::Pending;
                }
                first_done = true;
                seen.set(ctx.now_ms());
            }
            let polled: Poll<Reply> = a.poll(ctx);
            if polled.is_pending() {
                return Poll::Pending;
            }
            done(format!("{}", ctx.now_ms()))
        }
    };
    let mut h = History::start("x");
    assert_eq!(run(&mut worker(), script, &mut h), RunOutcome::Completed("21".to_string()));
    assert_eq!(seen.get(), 21);
}

#[test]
fn polls_and_choices_compare_by_content() {
    let r: Poll<u8> = Poll::Ready(1);
    assert!(r.is_ready() && !r.is_pending());
    let p: Poll<u8> = Poll::Pending;
    assert!(p.is_pending() && !p.is_ready());
    let l: Either<u8, String> = Either::Left(1);
    assert_eq!(l.clone(), l);
    let e: Either<u8, String> = Either::Right("r".to_string());
    assert_eq!(e.clone(), e);
    assert_ne!(l, e);
    assert_eq!(ActivityFailure("f".to_string()).to_string(), "activity failed: f");
    assert_eq!(CrashPolicy::default(), CrashPolicy::Never);
    assert_eq!(CompletionOrder::default(), CompletionOrder::InOrder);
}

#[test]
fn a_later_registration_takes_the_place_of_an_earlier_one() {
    let mut reg: ActivityRegistry<Activity> = ActivityRegistry::new();
    reg.register("echo", refuse).register("echo", echo);
    let mut w = Worker::new(reg);
    let mut h = History::start("x");
    assert_eq!(run(&mut w, one("echo"), &mut h), RunOutcome::Completed("<x>".to_string()));
    assert_eq!(w.activities().execution_count("echo"), 1);
    assert_eq!(w.activities().execution_count("other"), 0);
}

/// A sink that notes every line it is handed.
struct Notes(Rc<RefCell<Vec<String>>>);

impl Observe for Notes {
    type Obs = ();
    fn observed(&self) {}
}

impl TraceSink for Notes {
    fn line(&mut self, line: &str) {
        self.0.borrow_mut().push(line.to_string());
    }
}

#[test]
fn a_sink_is_handed_every_trace_line_as_it_comes() {
    let notes: Rc<RefCell<Vec<String>>> = Rc::new(RefCell::new(Vec::new()));
    let heard = Rc::new(Cell::new(0));
    let (seen, at_call) = (notes.clone(), heard.clone());
    let mut reg = ActivityRegistry::new();
    reg.register("look", move |p: Payload| {
        at_call.set(seen.borrow().len());
        Ok(p)
    });
    let mut w = Worker::new(reg).with_sink(Notes(notes.clone())).with_trace(true);
    let mut h = History::start("in");
    let script = || {
        let mut a: Option<ActivityFuture> = None;
        move |ctx: &mut WfContext<NoTask>| {
            if a.is_none() {
                a = Some(ctx.activity("look", "x"));
            }
            match a.as_mut().unwrap().poll(ctx) {
                Poll::Ready(r) => done(text(r)),
                Poll::Pending => Poll::Pending,
            }
        }
    };
    let outcome = w.run::<NoTask, Script, _>(Play(script), &mut h);
    assert_eq!(outcome, RunOutcome::Completed("x".to_string()));
    let trace = w.take_trace();
    assert_eq!(*notes.borrow(), trace);
    assert!(heard.get() > 0);
    assert!(heard.get() < trace.len());
}

#[test]
fn a_sink_hears_nothing_of_a_run_without_trace() {
    let notes: Rc<RefCell<Vec<String>>> = Rc::new(RefCell::new(Vec::new()));
    let mut w = worker().with_sink(Notes(notes.clone()));
    let mut h = History::start("in");
    let outcome = w.run::<NoTask, Script, _>(
        Play(|| |_ctx: &mut WfContext<NoTask>| done("out".to_string())),
        &mut h,
    );
    assert_eq!(outcome, RunOutcome::Completed("out".to_string()));
    assert!(notes.borrow().is_empty());
}
