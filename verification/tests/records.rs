//! The log, the commands and the text they are shown in.

use mini_temporal::command::Command;
use mini_temporal::history::{Event, History, Outcome, RecordedResult};
use mini_temporal::text::{align_left, align_right, decimal_string};

fn activity(seq: u32, activity_type: &str, input: &str) -> Command {
    Command::ScheduleActivity {
        seq,
        activity_type: activity_type.to_string(),
        input: input.to_string(),
    }
}

fn marker(seq: u32, name: &str, value: &str) -> Command {
    Command::RecordMarker { seq, marker_name: name.to_string(), value: value.to_string() }
}

/// A log with one event of every kind but the failures.
fn sample() -> History {
    let mut h = History::start("x");
    h.append(1, Event::WorkflowTaskStarted { attempt: 1 });
    h.append(1, activity(0, "charge", "42").to_event());
    h.append(1, Command::StartTimer { seq: 1, fire_after_ms: 500 }.to_event());
    h.append(1, marker(2, "id", "req-1").to_event());
    h.append(11, Event::ActivityTaskCompleted { seq: 0, result: "ok".to_string() });
    h.append(511, Event::TimerFired { seq: 1 });
    h
}

#[test]
fn a_new_log_holds_the_start_event() {
    let h = History::start("x");
    assert_eq!(h.len(), 1);
    assert!(!h.is_empty());
    assert_eq!(h.events()[0].event_id, 1);
    assert_eq!(h.events()[0].time_ms, 0);
    assert_eq!(h.input(), "x");
    assert_eq!(h.last_time_ms(), 0);
    assert!(!h.is_closed());
    assert_eq!(h.result(), None);
}

#[test]
fn the_seed_is_a_hash_of_the_input_and_odd() {
    assert_eq!(History::start("").randomness_seed(), 14695981039346656037);
    assert_eq!(History::start("x").randomness_seed(), 12643407681764333319);
    assert_eq!(History::start("in").randomness_seed(), 4902636619453713343);
    assert_eq!(History::start("order-42").randomness_seed(), 6532710431739765461);
    assert_eq!(History::start("\u{e9}").randomness_seed(), 7257438682458103297);
}

#[test]
fn an_empty_log_has_defaults() {
    let h = History::default();
    assert_eq!(h.len(), 0);
    assert!(h.is_empty());
    assert_eq!(h.last_time_ms(), 0);
    assert_eq!(h.input(), "");
    assert_eq!(h.randomness_seed(), 1);
    assert!(!h.is_closed());
    assert_eq!(h.result(), None);
    assert_eq!(h.pretty(), "");
    assert!(h.recorded_commands().is_empty());
}

#[test]
fn a_log_that_does_not_begin_with_a_start_has_no_input() {
    let mut h = History::default();
    h.append(3, Event::TimerFired { seq: 0 });
    assert_eq!(h.input(), "");
    assert_eq!(h.randomness_seed(), 1);
    assert_eq!(h.last_time_ms(), 3);
}

#[test]
fn append_counts_ids_from_one() {
    let mut h = History::default();
    assert_eq!(h.append(5, Event::WorkflowTaskStarted { attempt: 1 }), 1);
    assert_eq!(h.append(6, Event::WorkflowTaskStarted { attempt: 2 }), 2);
    assert_eq!(h.events()[1].event_id, 2);
    assert_eq!(h.events()[1].time_ms, 6);
    assert_eq!(h.events()[1].attrs, Event::WorkflowTaskStarted { attempt: 2 });
}

#[test]
fn written_commands_are_read_back_in_order() {
    assert_eq!(
        sample().recorded_commands(),
        vec![
            activity(0, "charge", "42"),
            Command::StartTimer { seq: 1, fire_after_ms: 500 },
            marker(2, "id", "req-1"),
        ]
    );
}

#[test]
fn written_results_are_read_back_in_log_order() {
    let mut h = sample();
    h.append(600, Event::ActivityTaskFailed { seq: 7, failure: "no".to_string() });
    assert_eq!(
        h.results_in_order(),
        vec![
            RecordedResult { seq: 0, outcome: Outcome::Completed("ok".to_string()), time_ms: 11 },
            RecordedResult { seq: 1, outcome: Outcome::Completed(String::new()), time_ms: 511 },
            RecordedResult { seq: 7, outcome: Outcome::Failed("no".to_string()), time_ms: 600 },
        ]
    );
    let mut seqs: Vec<u32> = h.resolved_seqs().into_iter().collect();
    seqs.sort();
    assert_eq!(seqs, vec![0, 1, 7]);
}

#[test]
fn markers_are_kept_by_number_and_the_latest_counts() {
    let mut h = sample();
    h.append(600, marker(2, "id", "req-2").to_event());
    h.append(600, marker(3, "id", "other").to_event());
    let markers = h.markers();
    assert_eq!(markers.len(), 2);
    assert_eq!(markers.get(&2), Some(&"req-2".to_string()));
    assert_eq!(markers.get(&3), Some(&"other".to_string()));
}

#[test]
fn a_closed_log_is_immutable() {
    let mut h = sample();
    let n = h.len();
    assert_eq!(
        h.append(600, Event::WorkflowExecutionCompleted { result: "done".to_string() }),
        n as u64 + 1
    );
    assert!(h.is_closed());
    assert_eq!(h.result(), Some(Ok("done".to_string())));
    let before = h.clone();
    for late in [
        Event::WorkflowTaskStarted { attempt: 1 },
        Event::WorkflowExecutionFailed { failure: "late".to_string() },
        Event::TimerFired { seq: 1 },
    ] {
        assert_eq!(h.append(601, late), n as u64 + 1);
        assert_eq!(h.events()[..], before.events()[..]);
        assert!(h.is_closed());
        assert_eq!(h.result(), Some(Ok("done".to_string())));
    }

    let mut g = sample();
    g.append(600, Event::WorkflowExecutionFailed { failure: "broke".to_string() });
    g.append(601, Event::WorkflowTaskStarted { attempt: 1 });
    assert!(g.is_closed());
    assert_eq!(g.result(), Some(Err("broke".to_string())));
    assert_eq!(g.len(), n + 1);
}

#[test]
fn shown_results_are_those_before_the_last_task_that_left_something() {
    let mut h = History::start("x");
    assert_eq!(h.shown_results(), None);
    h.append(1, Event::WorkflowTaskStarted { attempt: 1 });
    assert_eq!(h.shown_results(), None);
    h.append(2, Event::TimerFired { seq: 0 });
    h.append(3, Event::WorkflowTaskStarted { attempt: 2 });
    assert_eq!(h.shown_results(), Some(0));
    h.append(4, Event::ActivityTaskCompleted { seq: 1, result: String::new() });
    h.append(4, Event::ActivityTaskFailed { seq: 2, failure: String::new() });
    h.append(5, Event::WorkflowTaskStarted { attempt: 3 });
    assert_eq!(h.shown_results(), Some(1));
    assert!(!h.follows_idle_task());
    h.append(6, Event::WorkflowTaskStarted { attempt: 4 });
    assert_eq!(h.shown_results(), Some(1));
    assert!(h.follows_idle_task());
    h.append(7, Event::TimerFired { seq: 3 });
    assert!(h.follows_idle_task());
    h.append(8, Event::WorkflowTaskStarted { attempt: 5 });
    assert_eq!(h.shown_results(), Some(3));
    assert!(!h.follows_idle_task());
}

#[test]
fn a_first_task_that_left_nothing_has_shown_nothing() {
    let mut h = History::start("x");
    h.append(1, Event::WorkflowTaskStarted { attempt: 1 });
    assert!(!h.follows_idle_task());
    h.append(2, Event::WorkflowTaskStarted { attempt: 1 });
    assert_eq!(h.shown_results(), None);
    assert!(h.follows_idle_task());
}

#[test]
fn a_clone_is_the_same_log() {
    let h = sample();
    let g = h.clone();
    assert_eq!(g.events()[..], h.events()[..]);
}

#[test]
fn pretty_prints_one_aligned_line_per_event() {
    let mut h = sample();
    h.append(1234567, Event::ActivityTaskFailed { seq: 3, failure: "no".to_string() });
    h.append(1234567, Event::WorkflowTaskStarted { attempt: 12 });
    h.append(1234567, Event::WorkflowTaskStarted { attempt: 13 });
    h.append(1234567, Event::WorkflowExecutionCompleted { result: "done".to_string() });
    assert_eq!(
        h.pretty(),
        "  1  t=0      WorkflowExecutionStarted        input=x\n\
         \u{20} 2  t=1      WorkflowTaskStarted             attempt=1\n\
         \u{20} 3  t=1      ActivityTaskScheduled     [0]  charge(42)\n\
         \u{20} 4  t=1      TimerStarted              [1]  500ms\n\
         \u{20} 5  t=1      MarkerRecorded            [2]  id=req-1\n\
         \u{20} 6  t=11     ActivityTaskCompleted     [0]  -> ok\n\
         \u{20} 7  t=511    TimerFired                [1]\n\
         \u{20} 8  t=1234567 ActivityTaskFailed        [3]  !! no\n\
         \u{20} 9  t=1234567 WorkflowTaskStarted             attempt=12\n\
         \u{20}10  t=1234567 WorkflowTaskStarted             attempt=13\n\
         \u{20}11  t=1234567 WorkflowExecutionCompleted      -> done\n"
    );
    let mut g = History::start("");
    g.append(7, Event::WorkflowExecutionFailed { failure: "broke".to_string() });
    assert_eq!(
        g.pretty(),
        "  1  t=0      WorkflowExecutionStarted        input=\n\
         \u{20} 2  t=7      WorkflowExecutionFailed         !! broke\n"
    );
}

#[test]
fn commands_say_what_they_are() {
    let a = activity(0, "charge", "42");
    let t = Command::StartTimer { seq: 1, fire_after_ms: 500 };
    let m = marker(2, "id", "req-1");
    assert_eq!((a.seq(), t.seq(), m.seq()), (0, 1, 2));
    assert_eq!(a.kind(), "ScheduleActivity");
    assert_eq!(t.kind(), "StartTimer");
    assert_eq!(m.kind(), "RecordMarker");
    assert!(a.is_blocking() && t.is_blocking() && !m.is_blocking());
    assert_eq!(a.describe(), "[0] ScheduleActivity charge(42)");
    assert_eq!(t.describe(), "[1] StartTimer 500ms");
    assert_eq!(m.describe(), "[2] RecordMarker id=req-1");
    assert_eq!(a.clone(), a);
}

#[test]
fn matching_compares_identity_and_not_the_payload() {
    assert!(activity(0, "a", "1").matches(&activity(0, "a", "2")));
    assert!(!activity(0, "a", "1").matches(&activity(1, "a", "1")));
    assert!(!activity(0, "a", "1").matches(&activity(0, "b", "1")));
    let t = Command::StartTimer { seq: 0, fire_after_ms: 1 };
    assert!(t.matches(&Command::StartTimer { seq: 0, fire_after_ms: 2 }));
    assert!(!t.matches(&Command::StartTimer { seq: 1, fire_after_ms: 1 }));
    assert!(marker(0, "n", "1").matches(&marker(0, "n", "2")));
    assert!(!marker(0, "n", "1").matches(&marker(0, "m", "1")));
    assert!(!activity(0, "a", "1").matches(&t));
    assert!(!t.matches(&marker(0, "a", "1")));
}

#[test]
fn numbers_and_padding() {
    assert_eq!(decimal_string(0), "0");
    assert_eq!(decimal_string(10), "10");
    assert_eq!(decimal_string(u64::MAX), "18446744073709551615");
    assert_eq!(align_right("7".to_string(), 3), "  7");
    assert_eq!(align_right("1234".to_string(), 3), "1234");
    assert_eq!(align_left("7".to_string(), 3), "7  ");
    assert_eq!(align_left("\u{e9}".to_string(), 3), "\u{e9}  ");
}
