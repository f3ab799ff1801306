//! Workflows written as async functions, run by the engine.
//!
//! The engine polls coroutines of its own kind. The first part of this file lets
//! an async function be one: while it is polled, the context sits in a cell that
//! its handles share.

use mini_temporal::combinators::Select2;
use mini_temporal::prelude::{
    select2, ActivityFailure, ActivityFuture, ActivityRegistry, CompletionOrder, Coroutine,
    CrashPolicy, Either, Event, Execution, History, Observe, Payload, Poll, RunOutcome,
    TimerFuture, WfContext, Worker, Workflow,
};
use std::cell::{Cell, RefCell};
use std::future::Future;
use std::marker::PhantomData;
use std::pin::Pin;
use std::rc::Rc;
use std::task::{Context, Waker};

type Shared = Rc<RefCell<WfContext<Task>>>;

type Boxed<O> = Pin<Box<dyn Future<Output = O>>>;

/// Lends the context to `fut` for one poll.
fn poll_async<O>(fut: &mut Boxed<O>, cell: &Shared, ctx: &mut WfContext<Task>) -> Poll<O> {
    std::mem::swap(ctx, &mut *cell.borrow_mut());
    let polled = fut.as_mut().poll(&mut Context::from_waker(Waker::noop()));
    std::mem::swap(ctx, &mut *cell.borrow_mut());
    match polled {
        std::task::Poll::Ready(o) => Poll::Ready(o),
        std::task::Poll::Pending => Poll::Pending,
    }
}

struct Task {
    fut: Boxed<()>,
    cell: Shared,
}

impl Observe for Task {
    type Obs = ();
    fn observed(&self) {}
}

impl Coroutine<Task, ()> for Task {
    fn poll(&mut self, ctx: &mut WfContext<Task>) -> Poll<()> {
        poll_async(&mut self.fut, &self.cell, ctx)
    }
}

struct Root {
    fut: Boxed<Result<Payload, String>>,
    cell: Shared,
}

impl Observe for Root {
    type Obs = ();
    fn observed(&self) {}
}

impl Coroutine<Task, Result<Payload, String>> for Root {
    fn poll(&mut self, ctx: &mut WfContext<Task>) -> Poll<Result<Payload, String>> {
        poll_async(&mut self.fut, &self.cell, ctx)
    }
}

struct AsyncWorkflow<F>(F);

impl<F, Fut> Workflow<Task, Root> for AsyncWorkflow<F>
where
    F: Fn(Ctx) -> Fut,
    Fut: Future<Output = Result<Payload, String>> + 'static,
{
    fn start(&self, ctx: &mut WfContext<Task>) -> Root {
        let cell: Shared = Rc::new(RefCell::new(WfContext::new(&History::default())));
        std::mem::swap(ctx, &mut *cell.borrow_mut());
        let fut = Box::pin((self.0)(Ctx { cell: cell.clone() }));
        std::mem::swap(ctx, &mut *cell.borrow_mut());
        Root { fut, cell }
    }
}

/// A coroutine of the library, awaited from async code.
struct Await<C, O> {
    inner: C,
    cell: Shared,
    out: PhantomData<fn() -> O>,
}

impl<C: Coroutine<Task, O> + Unpin, O: Observe> Future for Await<C, O> {
    type Output = O;
    fn poll(self: Pin<&mut Self>, _cx: &mut Context<'_>) -> std::task::Poll<O> {
        let this = self.get_mut();
        match this.inner.poll(&mut this.cell.borrow_mut()) {
            Poll::Ready(o) => std::task::Poll::Ready(o),
            Poll::Pending => std::task::Poll::Pending,
        }
    }
}

type ActivityAwait = Await<ActivityFuture, Result<Payload, ActivityFailure>>;

/// The handle that an async workflow holds.
#[derive(Clone)]
struct Ctx {
    cell: Shared,
}

impl Ctx {
    fn wait<C, O>(&self, inner: C) -> Await<C, O> {
        Await { inner, cell: self.cell.clone(), out: PhantomData }
    }
    fn activity(&self, activity_type: &str, input: impl Into<String>) -> ActivityAwait {
        let f = self.cell.borrow_mut().activity(activity_type, &input.into());
        self.wait(f)
    }
    fn timer(&self, ms: u64) -> Await<TimerFuture, ()> {
        let f = self.cell.borrow_mut().timer(ms);
        self.wait(f)
    }
    fn now_ms(&self) -> u64 {
        self.cell.borrow().now_ms()
    }
    fn random_u64(&self) -> u64 {
        self.cell.borrow_mut().random_u64()
    }
    fn side_effect(&self, name: &str, f: impl FnOnce() -> Payload) -> Payload {
        self.cell.borrow_mut().side_effect(name, f)
    }
    fn spawn(&self, fut: impl Future<Output = ()> + 'static) {
        let task = Task { fut: Box::pin(fut), cell: self.cell.clone() };
        self.cell.borrow_mut().spawn(task);
    }
    #[allow(clippy::type_complexity)]
    fn select(
        &self,
        a: ActivityAwait,
        b: ActivityAwait,
    ) -> Await<
        Select2<ActivityFuture, ActivityFuture>,
        Either<Result<Payload, ActivityFailure>, Result<Payload, ActivityFailure>>,
    > {
        self.wait(select2(a.inner, b.inner))
    }
}

type Log = Rc<RefCell<Vec<Execution>>>;

type ActivityFn = Box<dyn Fn(Payload) -> Result<Payload, String>>;

/// A worker whose execution log outlives it, as the outside world does.
struct TestWorker {
    worker: Worker<ActivityFn>,
    log: Log,
}

impl TestWorker {
    fn with_crash(self, crash: CrashPolicy) -> Self {
        TestWorker { worker: self.worker.with_crash(crash), log: self.log }
    }
    fn with_completion_order(self, order: CompletionOrder) -> Self {
        TestWorker { worker: self.worker.with_completion_order(order), log: self.log }
    }
    fn run<F, Fut>(mut self, wf: F, history: &mut History) -> RunOutcome
    where
        F: Fn(Ctx) -> Fut,
        Fut: Future<Output = Result<Payload, String>> + 'static,
    {
        let out = self.worker.run(AsyncWorkflow(wf), history);
        *self.log.borrow_mut() = self.worker.activities().executions().clone();
        out
    }
}

fn count(log: &Log, name: &str) -> usize {
    log.borrow().iter().filter(|e| e.activity_type == name).count()
}

fn scheduled(history: &History) -> Vec<String> {
    history
        .events()
        .iter()
        .filter_map(|e| match &e.attrs {
            Event::ActivityTaskScheduled { seq, activity_type, input } => {
                Some(format!("{seq}:{activity_type}({input})"))
            }
            _ => None,
        })
        .collect()
}

fn completed(history: &History) -> Vec<u32> {
    history
        .events()
        .iter()
        .filter_map(|e| match &e.attrs {
            Event::ActivityTaskCompleted { seq, .. } => Some(*seq),
            _ => None,
        })
        .collect()
}

// ===========================================================================
// Replay
// ===========================================================================

async fn three_steps(ctx: Ctx) -> Result<Payload, String> {
    let a = ctx.activity("a", "1").await.map_err(|e| e.to_string())?;
    let b = ctx.activity("b", a.as_str()).await.map_err(|e| e.to_string())?;
    ctx.timer(100).await;
    let c = ctx.activity("c", b.as_str()).await.map_err(|e| e.to_string())?;
    Ok(c)
}

async fn three_steps_reordered(ctx: Ctx) -> Result<Payload, String> {
    let b = ctx.activity("b", "1").await.map_err(|e| e.to_string())?;
    let a = ctx.activity("a", b.as_str()).await.map_err(|e| e.to_string())?;
    Ok(a)
}

async fn one_failing_step(ctx: Ctx) -> Result<Payload, String> {
    let v = ctx.activity("boom", "x").await.map_err(|e| e.to_string())?;
    Ok(v)
}

fn steps_worker(log: Log, crash: CrashPolicy) -> TestWorker {
    let mut reg: ActivityRegistry<ActivityFn> = ActivityRegistry::with_log(log.borrow().clone());
    reg.register("a", Box::new(|i| Ok(format!("a({i})"))))
        .register("b", Box::new(|i| Ok(format!("b({i})"))))
        .register("c", Box::new(|i| Ok(format!("c({i})"))))
        .register("boom", Box::new(|_| Err("card declined".to_string())));
    TestWorker { worker: Worker::new(reg).with_crash(crash), log }
}

/// The headline claim: replay serves recorded results instead of running work
/// again.
#[test]
fn recorded_activities_are_never_re_executed() {
    let log: Log = Rc::default();
    let mut history = History::start("in");

    let first =
        steps_worker(log.clone(), CrashPolicy::AfterRecording(2)).run(three_steps, &mut history);
    assert!(matches!(first, RunOutcome::Crashed { result_recorded: true, .. }));

    let second = steps_worker(log.clone(), CrashPolicy::Never).run(three_steps, &mut history);
    assert_eq!(second, RunOutcome::Completed("c(b(a(1)))".to_string()));

    // Across a crash and a full replay, every side effect happened once.
    assert_eq!(count(&log, "a"), 1);
    assert_eq!(count(&log, "b"), 1);
    assert_eq!(count(&log, "c"), 1);
}

/// Activities are at-least-once.
#[test]
fn a_crash_before_recording_re_executes_that_activity() {
    let log: Log = Rc::default();
    let mut history = History::start("in");

    let first =
        steps_worker(log.clone(), CrashPolicy::BeforeRecording(2)).run(three_steps, &mut history);
    assert!(matches!(first, RunOutcome::Crashed { result_recorded: false, .. }));

    let second = steps_worker(log.clone(), CrashPolicy::Never).run(three_steps, &mut history);
    assert_eq!(second, RunOutcome::Completed("c(b(a(1)))".to_string()));

    assert_eq!(count(&log, "a"), 1, "already recorded before the crash");
    assert_eq!(count(&log, "b"), 2, "side effect escaped, result did not");
    assert_eq!(count(&log, "c"), 1);
}

/// Divergence is caught at the exact command index, before it can do damage.
#[test]
fn changed_workflow_code_is_caught_as_non_determinism() {
    let log: Log = Rc::default();
    let mut history = History::start("in");

    steps_worker(log.clone(), CrashPolicy::AfterRecording(1)).run(three_steps, &mut history);
    let outcome =
        steps_worker(log.clone(), CrashPolicy::Never).run(three_steps_reordered, &mut history);

    match outcome {
        RunOutcome::NonDeterminism { index, expected, actual } => {
            assert_eq!(index, 0);
            assert!(expected.contains("a("), "{expected}");
            assert!(actual.contains("b("), "{actual}");
        }
        other => panic!("expected non-determinism, got {other:?}"),
    }
    // Nothing from the new code path was executed.
    assert_eq!(count(&log, "b"), 0);
}

/// An already closed history is immutable: replaying it does nothing at all.
#[test]
fn a_closed_history_is_terminal_and_replay_free() {
    let log: Log = Rc::default();
    let mut history = History::start("in");
    steps_worker(log.clone(), CrashPolicy::Never).run(three_steps, &mut history);

    let events_before = history.len();
    let again = steps_worker(log.clone(), CrashPolicy::Never).run(three_steps, &mut history);

    assert_eq!(again, RunOutcome::Completed("c(b(a(1)))".to_string()));
    assert_eq!(history.len(), events_before, "no new events");
    assert_eq!(count(&log, "a"), 1, "no new side effects");
}

/// Activity failures surface at the await point, as a normal error.
#[test]
fn activity_failure_reaches_the_workflow() {
    let log: Log = Rc::default();
    let mut history = History::start("in");
    let outcome = steps_worker(log, CrashPolicy::Never).run(one_failing_step, &mut history);

    match outcome {
        RunOutcome::Failed(f) => assert!(f.contains("card declined"), "{f}"),
        other => panic!("expected failure, got {other:?}"),
    }
    assert!(history.is_closed());
}

/// Timers are durable facts, not sleeping threads.
#[test]
fn timers_are_events() {
    let log: Log = Rc::default();
    let mut history = History::start("in");
    let start = std::time::Instant::now();
    steps_worker(log, CrashPolicy::Never).run(three_steps, &mut history);

    assert!(start.elapsed() < std::time::Duration::from_millis(50));
    assert!(history.events().iter().any(|e| matches!(e.attrs, Event::TimerStarted { .. })));
    assert!(history.events().iter().any(|e| matches!(e.attrs, Event::TimerFired { .. })));
}

/// Replaying the same history twice yields the same command stream.
#[test]
fn replay_is_a_pure_function_of_history() {
    let log: Log = Rc::default();
    let mut history = History::start("in");
    steps_worker(log.clone(), CrashPolicy::AfterRecording(2)).run(three_steps, &mut history);

    let mut h1 = history.clone();
    let mut h2 = history.clone();
    let log1: Log = Rc::default();
    let log2: Log = Rc::default();
    steps_worker(log1.clone(), CrashPolicy::Never).run(three_steps, &mut h1);
    steps_worker(log2.clone(), CrashPolicy::Never).run(three_steps, &mut h2);

    assert_eq!(h1.recorded_commands(), h2.recorded_commands());
    assert_eq!(h1.result(), h2.result());
    assert_eq!(log1.borrow().clone(), log2.borrow().clone());
}

// ===========================================================================
// Identity
// ===========================================================================

fn worker(log: Log) -> TestWorker {
    let mut reg: ActivityRegistry<ActivityFn> = ActivityRegistry::with_log(log.borrow().clone());
    reg.register("a", Box::new(|i| Ok(format!("a:{i}"))))
        .register("b", Box::new(|i| Ok(format!("b:{i}"))))
        .register("bg", Box::new(|i| Ok(format!("bg:{i}"))))
        .register("main", Box::new(|i| Ok(format!("main:{i}"))))
        .register("record", Box::new(|i| Ok(format!("recorded({i})"))));
    TestWorker { worker: Worker::new(reg), log }
}

/// Create `a` then `b`, but await `b` first. Sequence numbers follow the
/// *creation* order.
#[test]
fn seq_follows_creation_order_not_poll_order() {
    async fn wf(ctx: Ctx) -> Result<Payload, String> {
        let a = ctx.activity("a", "first-created");
        let b = ctx.activity("b", "second-created");
        let rb = b.await.map_err(|e| e.to_string())?; // awaited first
        let ra = a.await.map_err(|e| e.to_string())?;
        Ok(format!("{ra}|{rb}"))
    }

    let log: Log = Rc::default();
    let mut h = History::start("x");
    let outcome = worker(log).run(wf, &mut h);

    assert_eq!(outcome, RunOutcome::Completed("a:first-created|b:second-created".into()));
    assert_eq!(
        scheduled(&h),
        vec!["0:a(first-created)".to_string(), "1:b(second-created)".to_string()],
        "seq must follow creation order"
    );
}

/// `now_ms` reads the history, so a crash in the middle changes nothing.
#[test]
fn workflow_time_is_replay_stable() {
    async fn wf(ctx: Ctx) -> Result<Payload, String> {
        let t0 = ctx.now_ms();
        ctx.activity("a", "x").await.map_err(|e| e.to_string())?;
        let t1 = ctx.now_ms();
        ctx.timer(500).await;
        Ok(format!("{t0},{t1},{}", ctx.now_ms()))
    }

    let clean: Log = Rc::default();
    let mut h1 = History::start("x");
    let a = worker(clean).run(wf, &mut h1);

    let crashed: Log = Rc::default();
    let mut h2 = History::start("x");
    worker(crashed.clone()).with_crash(CrashPolicy::AfterRecording(1)).run(wf, &mut h2);
    let b = worker(crashed).run(wf, &mut h2);

    assert_eq!(a, b, "workflow-visible time must survive a crash unchanged");
    assert!(matches!(a, RunOutcome::Completed(ref s) if s.starts_with("0,")));
}

/// Same for randomness: the seed lives in the first event.
#[test]
fn workflow_randomness_is_replay_stable() {
    async fn wf(ctx: Ctx) -> Result<Payload, String> {
        let x = ctx.random_u64();
        ctx.activity("a", "x").await.map_err(|e| e.to_string())?;
        let y = ctx.random_u64();
        Ok(format!("{x},{y}"))
    }

    let l1: Log = Rc::default();
    let mut h1 = History::start("x");
    let clean = worker(l1).run(wf, &mut h1);

    let l2: Log = Rc::default();
    let mut h2 = History::start("x");
    worker(l2.clone()).with_crash(CrashPolicy::AfterRecording(1)).run(wf, &mut h2);
    let recovered = worker(l2).run(wf, &mut h2);

    assert_eq!(clean, recovered);
}

/// `side_effect` freezes a local computation into a marker event. The closure
/// runs once, not once per replay.
#[test]
fn side_effect_runs_once_and_is_frozen_in_history() {
    let impure: Rc<Cell<u32>> = Rc::default();
    let shared = impure.clone();
    let wf = move |ctx: Ctx| {
        let impure = shared.clone();
        async move {
            let id = ctx.side_effect("request_id", || {
                impure.set(impure.get() + 1);
                format!("req-{}", impure.get())
            });
            let r = ctx.activity("a", id.as_str()).await.map_err(|e| e.to_string())?;
            Ok(format!("{id}|{r}"))
        }
    };

    let log: Log = Rc::default();
    let mut h = History::start("x");
    worker(log.clone()).with_crash(CrashPolicy::AfterRecording(1)).run(&wf, &mut h);
    let outcome = worker(log).run(&wf, &mut h);

    assert_eq!(outcome, RunOutcome::Completed("req-1|a:req-1".into()));
    assert_eq!(impure.get(), 1, "closure must not re-run on replay");
    assert!(h.events().iter().any(|e| matches!(e.attrs, Event::MarkerRecorded { .. })));
}

/// The honest limit of the non-determinism check: state outside the history,
/// read by code that always emits the *same command shape*.
#[test]
fn impure_code_with_stable_command_shape_is_not_caught() {
    let impure: Rc<Cell<u32>> = Rc::default();
    let shared = impure.clone();
    let wf = move |ctx: Ctx| {
        let impure = shared.clone();
        async move {
            impure.set(impure.get() + 1);
            let n = impure.get();
            ctx.activity("a", "x").await.map_err(|e| e.to_string())?;
            Ok(format!("replay-pass={n}"))
        }
    };

    impure.set(0);
    let l1: Log = Rc::default();
    let mut h1 = History::start("x");
    let clean = worker(l1).run(&wf, &mut h1);

    impure.set(0);
    let l2: Log = Rc::default();
    let mut h2 = History::start("x");
    worker(l2.clone()).with_crash(CrashPolicy::BeforeRecording(1)).run(&wf, &mut h2);
    let recovered = worker(l2).run(&wf, &mut h2);

    assert!(matches!(clean, RunOutcome::Completed(_)));
    assert!(matches!(recovered, RunOutcome::Completed(_)), "no error is raised");
    assert_ne!(clean, recovered, "and yet the answers differ -- this is the known gap");
}

// ===========================================================================
// Runtime order
// ===========================================================================

async fn race(ctx: Ctx) -> Result<Payload, String> {
    let a = ctx.activity("a", "x");
    let b = ctx.activity("b", "x");
    let winner = match ctx.select(a, b).await {
        Either::Left(r) => format!("A:{}", r.map_err(|e| e.to_string())?),
        Either::Right(r) => format!("B:{}", r.map_err(|e| e.to_string())?),
    };
    ctx.activity("record", winner.as_str()).await.map_err(|e| e.to_string())
}

/// Flip which worker reports back first and the recorded interleaving flips with
/// it.
#[test]
fn the_recorded_interleaving_decides_the_winner() {
    let l1: Log = Rc::default();
    let mut h1 = History::start("x");
    let in_order = worker(l1).with_completion_order(CompletionOrder::InOrder).run(race, &mut h1);

    let l2: Log = Rc::default();
    let mut h2 = History::start("x");
    let reversed = worker(l2).with_completion_order(CompletionOrder::Reversed).run(race, &mut h2);

    assert_eq!(completed(&h1)[..2], [0, 1], "a reported first");
    assert_eq!(completed(&h2)[..2], [1, 0], "b reported first");
    assert_eq!(in_order, RunOutcome::Completed("recorded(A:a:x)".into()));
    assert_eq!(reversed, RunOutcome::Completed("recorded(B:b:x)".into()));
}

/// Worker 1 loses the race to `b` and dies. Worker 2 replays a history in which
/// BOTH racers are already resolved. It must still pick `b`: that is the order
/// the log records.
#[test]
fn replay_reproduces_the_recorded_race_not_the_poll_order() {
    let log: Log = Rc::default();
    let mut h = History::start("x");

    let first = worker(log.clone())
        .with_completion_order(CompletionOrder::Reversed)
        .with_crash(CrashPolicy::AfterRecording(2))
        .run(race, &mut h);
    assert!(matches!(first, RunOutcome::Crashed { .. }));
    assert_eq!(completed(&h), vec![1, 0], "b's result was written first");

    // Fresh worker, default (in-order) policy, both racers already resolved.
    let recovered = worker(log.clone()).run(race, &mut h);

    assert_eq!(recovered, RunOutcome::Completed("recorded(B:b:x)".into()));
    assert_eq!(count(&log, "a"), 1);
    assert_eq!(count(&log, "b"), 1);
}

/// The root and every spawned task are polled to quiescence in creation order,
/// so their commands interleave deterministically.
#[test]
fn spawned_tasks_run_until_all_blocked_in_creation_order() {
    async fn wf(ctx: Ctx) -> Result<Payload, String> {
        for i in 0..3u32 {
            let c = ctx.clone();
            ctx.spawn(async move {
                let _ = c.activity("bg", i.to_string()).await;
            });
        }
        ctx.activity("main", "x").await.map_err(|e| e.to_string())
    }

    let log: Log = Rc::default();
    let mut h = History::start("x");
    let outcome = worker(log.clone()).run(wf, &mut h);

    assert_eq!(outcome, RunOutcome::Completed("main:x".into()));
    // Root blocks first (seq 0), then the three detached tasks in spawn order.
    assert_eq!(
        scheduled(&h),
        vec![
            "0:main(x)".to_string(),
            "1:bg(0)".to_string(),
            "2:bg(1)".to_string(),
            "3:bg(2)".to_string(),
        ]
    );
    assert_eq!(count(&log, "bg"), 3);
}
