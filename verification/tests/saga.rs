//! The order saga under the engine: what survives a crash, and what does not.

use mini_temporal::activity::{ActivityRegistry, Execution};
use mini_temporal::coroutine::{NoTask, Poll, Workflow};
use mini_temporal::driver::{CompletionOrder, CrashPolicy, RunOutcome, Worker};
use mini_temporal::history::{Event, History, Payload};
use mini_temporal::replay::replay_once;
use mini_temporal::saga::{
    charge_card, checksum, reserve_inventory, ship_order, OrderSaga, SagaRun,
};
use mini_temporal::workflow::WfContext;

type Activity = fn(Payload) -> Result<Payload, String>;

const SAGA: OrderSaga = OrderSaga { edited: false };
const EDITED: OrderSaga = OrderSaga { edited: true };
const SHIPPED: &str = "shipped order-42 tracking=trk-72430";

fn worker(log: Vec<Execution>) -> Worker<Activity> {
    let mut reg: ActivityRegistry<Activity> = ActivityRegistry::with_log(log);
    reg.register("charge_card", charge_card)
        .register("reserve_inventory", reserve_inventory)
        .register("ship_order", ship_order);
    Worker::new(reg)
}

fn run(w: &mut Worker<Activity>, wf: OrderSaga, h: &mut History) -> RunOutcome {
    w.run::<NoTask, SagaRun, OrderSaga>(wf, h)
}

#[test]
fn checksums_are_exact() {
    assert_eq!(checksum(""), 7);
    assert_eq!(checksum("a"), 314);
    assert_eq!(checksum("order-42"), 75844);
    assert_eq!(charge_card("order-42".to_string()), Ok("pay-75844".to_string()));
    assert_eq!(reserve_inventory("order-42".to_string()), Ok("res-75844".to_string()));
    assert_eq!(
        ship_order("order-42|pay-75844|res-75844".to_string()),
        Ok("trk-72430".to_string())
    );
}

#[test]
fn the_happy_path_ships_the_order() {
    let mut h = History::start("order-42");
    let mut w = worker(Vec::new());
    assert_eq!(run(&mut w, SAGA, &mut h), RunOutcome::Completed(SHIPPED.to_string()));
    assert_eq!(
        h.pretty(),
        "  1  t=0      WorkflowExecutionStarted        input=order-42\n\
         \u{20} 2  t=1      WorkflowTaskStarted             attempt=1\n\
         \u{20} 3  t=1      ActivityTaskScheduled     [0]  charge_card(order-42)\n\
         \u{20} 4  t=11     ActivityTaskCompleted     [0]  -> pay-75844\n\
         \u{20} 5  t=12     WorkflowTaskStarted             attempt=2\n\
         \u{20} 6  t=12     ActivityTaskScheduled     [1]  reserve_inventory(order-42)\n\
         \u{20} 7  t=22     ActivityTaskCompleted     [1]  -> res-75844\n\
         \u{20} 8  t=23     WorkflowTaskStarted             attempt=3\n\
         \u{20} 9  t=23     TimerStarted              [2]  500ms\n\
         \u{20}10  t=523    TimerFired                [2]\n\
         \u{20}11  t=524    WorkflowTaskStarted             attempt=4\n\
         \u{20}12  t=524    ActivityTaskScheduled     [3]  ship_order(order-42|pay-75844|res-75844)\n\
         \u{20}13  t=534    ActivityTaskCompleted     [3]  -> trk-72430\n\
         \u{20}14  t=535    WorkflowTaskStarted             attempt=5\n\
         \u{20}15  t=535    WorkflowExecutionCompleted      -> shipped order-42 tracking=trk-72430\n"
    );
    assert_eq!(w.activities().execution_count("charge_card"), 1);
    assert_eq!(w.activities().executions().len(), 3);
}

#[test]
fn a_crash_after_recording_costs_nothing() {
    let mut h = History::start("order-42");
    let mut first = worker(Vec::new()).with_crash(CrashPolicy::AfterRecording(2));
    assert_eq!(
        run(&mut first, SAGA, &mut h),
        RunOutcome::Crashed { after_activity: 2, result_recorded: true }
    );
    let log = first.activities().executions().clone();
    assert_eq!(log.len(), 2);
    let mut second = worker(log);
    assert_eq!(run(&mut second, SAGA, &mut h), RunOutcome::Completed(SHIPPED.to_string()));
    for name in ["charge_card", "reserve_inventory", "ship_order"] {
        assert_eq!(second.activities().execution_count(name), 1);
    }
}

#[test]
fn a_crash_before_recording_repeats_that_activity() {
    let mut h = History::start("order-42");
    let mut first = worker(Vec::new()).with_crash(CrashPolicy::BeforeRecording(2));
    assert_eq!(
        run(&mut first, SAGA, &mut h),
        RunOutcome::Crashed { after_activity: 2, result_recorded: false }
    );
    assert_eq!(h.results_in_order().len(), 1);
    let mut second = worker(first.activities().executions().clone());
    assert_eq!(run(&mut second, SAGA, &mut h), RunOutcome::Completed(SHIPPED.to_string()));
    assert_eq!(second.activities().execution_count("charge_card"), 1);
    assert_eq!(second.activities().execution_count("reserve_inventory"), 2);
    assert_eq!(second.activities().execution_count("ship_order"), 1);
}

/// Each event of the log, without the numbers of attempts.
fn told(h: &History) -> Vec<String> {
    h.events()
        .iter()
        .map(|e| match &e.attrs {
            Event::WorkflowTaskStarted { .. } => format!("{} {}", e.event_id, e.time_ms),
            attrs => format!("{} {} {:?}", e.event_id, e.time_ms, attrs),
        })
        .collect()
}

#[test]
fn a_replaced_worker_leaves_the_log_that_the_first_one_would_have_left() {
    let mut clean = History::start("order-42");
    let expected = run(&mut worker(Vec::new()), SAGA, &mut clean);
    for n in 1..=3 {
        let mut h = History::start("order-42");
        let mut first = worker(Vec::new()).with_crash(CrashPolicy::AfterRecording(n));
        run(&mut first, SAGA, &mut h);
        assert_eq!(run(&mut worker(Vec::new()), SAGA, &mut h), expected);
        assert_eq!(told(&h), told(&clean));
    }
}

#[test]
fn edited_code_is_caught_before_it_does_damage() {
    let mut h = History::start("order-42");
    let mut first = worker(Vec::new()).with_crash(CrashPolicy::AfterRecording(1));
    run(&mut first, SAGA, &mut h);
    let before = h.clone();

    let mut second = worker(first.activities().executions().clone());
    assert_eq!(
        run(&mut second, EDITED, &mut h),
        RunOutcome::NonDeterminism {
            index: 0,
            expected: "[0] ScheduleActivity charge_card(order-42)".to_string(),
            actual: "[0] ScheduleActivity reserve_inventory(order-42)".to_string(),
        }
    );
    assert_eq!(h.len(), before.len() + 1);
    assert_eq!(h.events()[..before.len()], before.events()[..]);
    assert_eq!(h.events()[before.len()].attrs, Event::WorkflowTaskStarted { attempt: 1 });
    assert_eq!(second.activities().executions().len(), 1);

    // The old code still finishes what it began.
    let mut third = worker(second.activities().executions().clone());
    assert_eq!(run(&mut third, SAGA, &mut h), RunOutcome::Completed(SHIPPED.to_string()));
}

#[test]
fn the_edited_saga_runs_on_a_log_of_its_own() {
    let mut h = History::start("order-42");
    let mut w = worker(Vec::new());
    assert_eq!(run(&mut w, EDITED, &mut h), RunOutcome::Completed(SHIPPED.to_string()));
    assert_eq!(
        h.recorded_commands()[0].describe(),
        "[0] ScheduleActivity reserve_inventory(order-42)"
    );
    assert_eq!(
        h.recorded_commands()[3].describe(),
        "[3] ScheduleActivity ship_order(order-42|pay-75844|res-75844)"
    );
}

#[test]
fn a_failed_step_fails_the_saga() {
    let mut reg: ActivityRegistry<Activity> = ActivityRegistry::new();
    reg.register("charge_card", |_| Err("card declined".to_string()));
    let mut h = History::start("order-42");
    let mut w = Worker::new(reg);
    assert_eq!(
        run(&mut w, SAGA, &mut h),
        RunOutcome::Failed("activity failed: card declined".to_string())
    );
    assert_eq!(h.result(), Some(Err("activity failed: card declined".to_string())));
}

#[test]
fn an_unregistered_activity_is_a_failure() {
    let mut h = History::start("order-42");
    let mut w: Worker<Activity> = Worker::new(ActivityRegistry::default());
    assert_eq!(
        run(&mut w, SAGA, &mut h),
        RunOutcome::Failed(
            "activity failed: no activity registered for type `charge_card`".to_string()
        )
    );
    assert_eq!(w.activities().execution_count("charge_card"), 1);
}

#[test]
fn two_runs_from_one_state_are_the_same() {
    let mut h = History::start("order-42");
    let mut first = worker(Vec::new()).with_crash(CrashPolicy::AfterRecording(1));
    run(&mut first, SAGA, &mut h);
    let log = first.activities().executions().clone();
    let (mut h1, mut h2) = (h.clone(), h.clone());
    let (mut w1, mut w2) = (worker(log.clone()), worker(log));
    assert_eq!(run(&mut w1, SAGA, &mut h1), run(&mut w2, SAGA, &mut h2));
    assert_eq!(h1.events()[..], h2.events()[..]);
    assert_eq!(w1.activities().executions(), w2.activities().executions());
}

#[test]
fn a_finished_execution_stays_finished() {
    let mut h = History::start("order-42");
    let mut w = worker(Vec::new());
    run(&mut w, SAGA, &mut h);
    let n = h.len();
    let mut other = worker(Vec::new()).with_completion_order(CompletionOrder::Reversed);
    assert_eq!(run(&mut other, EDITED, &mut h), RunOutcome::Completed(SHIPPED.to_string()));
    assert_eq!(h.len(), n);
    assert!(other.activities().executions().is_empty());
}

#[test]
fn a_longer_log_is_replayed_from_where_the_shorter_one_stopped() {
    let mut h = History::start("order-42");
    let mut w = worker(Vec::new());
    run(&mut w, SAGA, &mut h);
    let mut prefix = History::default();
    let mut before: Vec<String> = Vec::new();
    for e in h.events() {
        prefix.append(e.time_ms, e.attrs.clone());
        let pass = replay_once::<NoTask, SagaRun, OrderSaga>(&SAGA, &prefix);
        let now: Vec<String> = pass.commands.iter().map(|c| c.describe()).collect();
        assert!(!pass.deadlocked);
        assert_eq!(now[..before.len()], before[..]);
        before = now;
    }
    assert_eq!(before.len(), 4);
}

#[test]
fn a_pass_sees_only_what_the_log_holds() {
    let h = History::start("order-42");
    let pass = replay_once::<NoTask, SagaRun, OrderSaga>(&SAGA, &h);
    assert_eq!(pass.poll, Poll::Pending);
    assert_eq!(pass.commands.len(), 1);
    assert_eq!(pass.logs, vec!["saga started for order-42".to_string()]);
    assert!(!pass.deadlocked);
}

#[test]
fn starting_the_saga_touches_nothing() {
    let mut ctx: WfContext<NoTask> = WfContext::new(&History::start("order-42"));
    let _run = SAGA.start(&mut ctx);
    assert_eq!(ctx.commands_issued(), 0);
}

#[test]
fn the_trace_tells_replayed_from_fresh() {
    let mut h = History::start("order-42");
    let mut first = worker(Vec::new()).with_trace(true).with_crash(CrashPolicy::AfterRecording(1));
    run(&mut first, SAGA, &mut h);
    assert_eq!(
        first.take_trace(),
        vec![
            "\n-- workflow task (attempt 1) --".to_string(),
            "   [wf log] saga started for order-42".to_string(),
            "      + [0] ScheduleActivity charge_card(order-42)".to_string(),
            "   >> RUN charge_card(order-42)   *** REAL SIDE EFFECT ***".to_string(),
            "   << ActivityTaskCompleted [0] -> pay-75844".to_string(),
            "   !! WORKER DIED after side effect #1, result already durable".to_string(),
        ]
    );
    assert!(first.take_trace().is_empty());

    let mut second = worker(first.activities().executions().clone())
        .with_trace(true)
        .with_crash(CrashPolicy::BeforeRecording(2));
    run(&mut second, SAGA, &mut h);
    assert_eq!(
        second.take_trace(),
        vec![
            "\n-- workflow task (attempt 1) --".to_string(),
            "   replayed 1 command(s) from history (no side effects):".to_string(),
            "      = [0] ScheduleActivity charge_card(order-42)".to_string(),
            "   [wf log] card charged: pay-75844".to_string(),
            "      + [1] ScheduleActivity reserve_inventory(order-42)".to_string(),
            "   >> RUN reserve_inventory(order-42)   *** REAL SIDE EFFECT ***".to_string(),
            "   << ActivityTaskCompleted [1] -> res-75844".to_string(),
            "\n-- workflow task (attempt 2) --".to_string(),
            "   replayed 2 command(s) from history (no side effects):".to_string(),
            "      = [0] ScheduleActivity charge_card(order-42)".to_string(),
            "      = [1] ScheduleActivity reserve_inventory(order-42)".to_string(),
            "   [wf log] inventory reserved: res-75844".to_string(),
            "      + [2] StartTimer 500ms".to_string(),
            "   ~~ clock -> 523ms, TimerFired [2]".to_string(),
            "\n-- workflow task (attempt 3) --".to_string(),
            "   replayed 3 command(s) from history (no side effects):".to_string(),
            "      = [0] ScheduleActivity charge_card(order-42)".to_string(),
            "      = [1] ScheduleActivity reserve_inventory(order-42)".to_string(),
            "      = [2] StartTimer 500ms".to_string(),
            "   [wf log] packing window elapsed".to_string(),
            "      + [3] ScheduleActivity ship_order(order-42|pay-75844|res-75844)".to_string(),
            "   >> RUN ship_order(order-42|pay-75844|res-75844)   *** REAL SIDE EFFECT ***"
                .to_string(),
            "   !! WORKER DIED after side effect #2, before recording its result".to_string(),
        ]
    );
}
