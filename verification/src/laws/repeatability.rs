//! Running again from the same state.

use vstd::prelude::*;

use crate::activity::may_report;
use crate::command::CommandView;
use crate::coroutine::{Coroutine, Observe, Workflow};
use crate::driver::RunOutcomeView;
use crate::engine::{
    activities_done, agree, diverge_at, fresh_commands, has_activity, pending_of, persisted, ran,
    reports_possible, task, task_begun, task_ends, task_lines, tasks_made, will_run, Engine,
};
use crate::history::{commands_of, final_result_of, Payload};
use crate::laws::determinism::{deterministic_workflow, law_replay_is_a_function_of_the_history};
use crate::laws::identity::law_divergence_has_one_place;
use crate::laws::log::{
    is_open, law_a_closed_log_is_final, law_the_log_tells_the_outcome, lemma_persisted_extends,
    lemma_tasks_made_log, lemma_worlds_turn,
};
use crate::replay::{replays, PassView};
use crate::text::Text;

verus! {

/// Every registered activity has at most one report for each input.
pub open spec fn deterministic_activities<F: Fn(Payload) -> Result<Payload, String>>(
    fns: Map<Text, F>,
) -> bool {
    forall|t: Text, i1: Payload, o1: Result<Payload, String>, i2: Payload, o2: Result<
        Payload,
        String,
    >|
        fns.contains_key(t) && i1@ == i2@ && #[trigger] call_ensures(fns[t], (i1,), o1)
            && #[trigger] call_ensures(fns[t], (i2,), o2) ==> o1.observed() == o2.observed()
}

pub(crate) proof fn lemma_one_report<F: Fn(Payload) -> Result<Payload, String>>(
    fns: Map<Text, F>,
    activity_type: Text,
    input: Text,
    o1: Result<Text, Text>,
    o2: Result<Text, Text>,
)
    requires
        deterministic_activities(fns),
        may_report(fns, activity_type, input, o1),
        may_report(fns, activity_type, input, o2),
    ensures
        o1 == o2,
{
}

proof fn lemma_activities_repeat<F: Fn(Payload) -> Result<Payload, String>>(
    s: Engine<F>,
    pending: Seq<CommandView>,
    r1: Seq<Result<Text, Text>>,
    r2: Seq<Result<Text, Text>>,
)
    requires
        deterministic_activities(s.worker.registry.fns),
        reports_possible(s, pending, r1),
        reports_possible(s, pending, r2),
    ensures
        activities_done(s, pending, r1) == activities_done(s, pending, r2),
    decreases pending.len(),
{
    if pending.len() > 0 {
        let rest = pending.drop_last();
        lemma_activities_repeat(s, rest, r1.drop_last(), r2.drop_last());
        let before = activities_done(s, rest, r1.drop_last());
        match pending.last() {
            CommandView::ScheduleActivity { activity_type, input, .. } => {
                if will_run(before, pending.last()) {
                    lemma_one_report(
                        s.worker.registry.fns,
                        activity_type,
                        input,
                        r1.last(),
                        r2.last(),
                    );
                }
            },
            _ => {},
        }
    }
}

proof fn lemma_task_repeats<
    T: Coroutine<T, ()>,
    R: Coroutine<T, Result<Payload, String>>,
    W: Workflow<T, R>,
    F: Fn(Payload) -> Result<Payload, String>,
>(
    wf: W,
    s: Engine<F>,
    attempt: u32,
    e1: Engine<F>,
    o1: Option<RunOutcomeView>,
    e2: Engine<F>,
    o2: Option<RunOutcomeView>,
)
    requires
        deterministic_workflow::<T, R, W>(wf),
        deterministic_activities(s.worker.registry.fns),
        task::<T, R, W, F>(wf, s, attempt, e1, o1),
        task::<T, R, W, F>(wf, s, attempt, e2, o2),
    ensures
        e1 == e2,
        o1 == o2,
{
    if s.can_tick(1) {
        let begun = task_begun(s, attempt);
        let p1 = choose|pass: PassView|
            {
                &&& #[trigger] replays::<T, R, W>(wf, begun.history, pass)
                &&& task_ends(begun, attempt, pass, e1, o1)
            };
        let p2 = choose|pass: PassView|
            {
                &&& #[trigger] replays::<T, R, W>(wf, begun.history, pass)
                &&& task_ends(begun, attempt, pass, e2, o2)
            };
        law_replay_is_a_function_of_the_history::<T, R, W>(wf, begun.history, p1, p2);
        lemma_task_ends_repeats(begun, attempt, p1, e1, o1, e2, o2);
    }
}

proof fn lemma_task_ends_repeats<F: Fn(Payload) -> Result<Payload, String>>(
    s: Engine<F>,
    attempt: u32,
    pass: PassView,
    e1: Engine<F>,
    o1: Option<RunOutcomeView>,
    e2: Engine<F>,
    o2: Option<RunOutcomeView>,
)
    requires
        deterministic_activities(s.worker.registry.fns),
        task_ends(s, attempt, pass, e1, o1),
        task_ends(s, attempt, pass, e2, o2),
    ensures
        e1 == e2,
        o1 == o2,
{
    let recorded = commands_of(s.history);
    let t = s.traced(task_lines(attempt, recorded.len(), pass));
    if !pass.deadlocked {
        if agree(pass.commands, recorded) {
            let fresh = fresh_commands(pass.commands, recorded);
            let p = persisted(t, fresh);
            let pending = pending_of(p.history, p.worker.completion_order);
            if pass.commands.len() >= recorded.len() && !(pass.poll is Ready && !has_activity(
                pending,
            )) {
                let r1 = lemma_worlds_turn(t, recorded, attempt, pass, e1, o1);
                let r2 = lemma_worlds_turn(t, recorded, attempt, pass, e2, o2);
                lemma_persisted_extends(t, fresh);
                lemma_activities_repeat(p, pending, r1, r2);
            }
        } else {
            let i = choose|i: int|
                {
                    &&& #[trigger] diverge_at(pass.commands, recorded, i)
                    &&& e1 == t
                    &&& o1 == Some(
                        RunOutcomeView::NonDeterminism {
                            index: i as usize,
                            expected: recorded[i].describe(),
                            actual: pass.commands[i].describe(),
                        },
                    )
                };
            let j = choose|j: int|
                {
                    &&& #[trigger] diverge_at(pass.commands, recorded, j)
                    &&& e2 == t
                    &&& o2 == Some(
                        RunOutcomeView::NonDeterminism {
                            index: j as usize,
                            expected: recorded[j].describe(),
                            actual: pass.commands[j].describe(),
                        },
                    )
                };
            law_divergence_has_one_place(pass.commands, recorded, i, j);
        }
    }
}

/// The engine before the last of the tasks made.
pub(crate) proof fn lemma_last_task<
    T: Coroutine<T, ()>,
    R: Coroutine<T, Result<Payload, String>>,
    W: Workflow<T, R>,
    F: Fn(Payload) -> Result<Payload, String>,
>(wf: W, s: Engine<F>, attempt: u32, e: Engine<F>) -> (mid: Engine<F>)
    requires
        attempt > 1,
        tasks_made::<T, R, W, F>(wf, s, attempt, e),
    ensures
        tasks_made::<T, R, W, F>(wf, s, (attempt - 1) as u32, mid),
        task::<T, R, W, F>(wf, mid, (attempt - 1) as u32, e, None),
{
    choose|mid: Engine<F>|
        {
            &&& tasks_made::<T, R, W, F>(wf, s, (attempt - 1) as u32, mid)
            &&& #[trigger] task::<T, R, W, F>(wf, mid, (attempt - 1) as u32, e, None)
        }
}

/// Tasks that follow each other lead to one state.
pub(crate) proof fn lemma_tasks_repeat<
    T: Coroutine<T, ()>,
    R: Coroutine<T, Result<Payload, String>>,
    W: Workflow<T, R>,
    F: Fn(Payload) -> Result<Payload, String>,
>(wf: W, s: Engine<F>, attempt: u32, e1: Engine<F>, e2: Engine<F>)
    requires
        is_open(s.history),
        deterministic_workflow::<T, R, W>(wf),
        deterministic_activities(s.worker.registry.fns),
        tasks_made::<T, R, W, F>(wf, s, attempt, e1),
        tasks_made::<T, R, W, F>(wf, s, attempt, e2),
    ensures
        e1 == e2,
    decreases attempt,
{
    if attempt > 1 {
        let before = (attempt - 1) as u32;
        let m1 = lemma_last_task::<T, R, W, F>(wf, s, attempt, e1);
        let m2 = lemma_last_task::<T, R, W, F>(wf, s, attempt, e2);
        lemma_tasks_repeat::<T, R, W, F>(wf, s, before, m1, m2);
        lemma_tasks_made_log::<T, R, W, F>(wf, s, before, m1);
        lemma_task_repeats::<T, R, W, F>(wf, m1, before, e1, None, e2, None);
    }
}

/// The engine after the attempts before `k`.
pub(crate) proof fn lemma_first_tasks<
    T: Coroutine<T, ()>,
    R: Coroutine<T, Result<Payload, String>>,
    W: Workflow<T, R>,
    F: Fn(Payload) -> Result<Payload, String>,
>(wf: W, s: Engine<F>, k: u32, attempt: u32, e: Engine<F>) -> (mid: Engine<F>)
    requires
        1 <= k <= attempt,
        tasks_made::<T, R, W, F>(wf, s, attempt, e),
    ensures
        tasks_made::<T, R, W, F>(wf, s, k, mid),
    decreases attempt,
{
    if k == attempt {
        e
    } else {
        let m = lemma_last_task::<T, R, W, F>(wf, s, attempt, e);
        lemma_first_tasks::<T, R, W, F>(wf, s, k, (attempt - 1) as u32, m)
    }
}

/// No task follows one that ended the run.
pub(crate) proof fn lemma_run_ends_once<
    T: Coroutine<T, ()>,
    R: Coroutine<T, Result<Payload, String>>,
    W: Workflow<T, R>,
    F: Fn(Payload) -> Result<Payload, String>,
>(
    wf: W,
    s: Engine<F>,
    attempt: u32,
    mid: Engine<F>,
    e: Engine<F>,
    out: RunOutcomeView,
    more: u32,
    later: Engine<F>,
)
    requires
        is_open(s.history),
        deterministic_workflow::<T, R, W>(wf),
        deterministic_activities(s.worker.registry.fns),
        attempt >= 1,
        tasks_made::<T, R, W, F>(wf, s, attempt, mid),
        task::<T, R, W, F>(wf, mid, attempt, e, Some(out)),
        tasks_made::<T, R, W, F>(wf, s, more, later),
    ensures
        more <= attempt,
{
    if more > attempt {
        let next = (attempt + 1) as u32;
        let upto = lemma_first_tasks::<T, R, W, F>(wf, s, next, more, later);
        let before = lemma_last_task::<T, R, W, F>(wf, s, next, upto);
        assert((next - 1) as u32 == attempt);
        lemma_tasks_repeat::<T, R, W, F>(wf, s, attempt, mid, before);
        lemma_tasks_made_log::<T, R, W, F>(wf, s, attempt, mid);
        lemma_task_repeats::<T, R, W, F>(wf, mid, attempt, e, Some(out), upto, None);
    }
}

/// The engine is repeatable: with deterministic workflow code and deterministic
/// activities, two runs from the same worker state and the same log write the
/// same events, execute the same activities and end the same way.
pub proof fn law_a_run_is_repeatable<
    T: Coroutine<T, ()>,
    R: Coroutine<T, Result<Payload, String>>,
    W: Workflow<T, R>,
    F: Fn(Payload) -> Result<Payload, String>,
>(
    wf: W,
    s: Engine<F>,
    e1: Engine<F>,
    o1: RunOutcomeView,
    e2: Engine<F>,
    o2: RunOutcomeView,
)
    requires
        deterministic_workflow::<T, R, W>(wf),
        deterministic_activities(s.worker.registry.fns),
        ran::<T, R, W, F>(wf, s, e1, o1),
        ran::<T, R, W, F>(wf, s, e2, o2),
    ensures
        e1 == e2,
        o1 == o2,
{
    if is_open(s.history) {
        let s0 = s.resumed();
        let (a1, m1) = choose|attempt: u32, mid: Engine<F>|
            {
                &&& attempt >= 1
                &&& #[trigger] tasks_made::<T, R, W, F>(wf, s0, attempt, mid)
                &&& #[trigger] task::<T, R, W, F>(wf, mid, attempt, e1, Some(o1))
            };
        let (a2, m2) = choose|attempt: u32, mid: Engine<F>|
            {
                &&& attempt >= 1
                &&& #[trigger] tasks_made::<T, R, W, F>(wf, s0, attempt, mid)
                &&& #[trigger] task::<T, R, W, F>(wf, mid, attempt, e2, Some(o2))
            };
        lemma_run_ends_once::<T, R, W, F>(wf, s0, a1, m1, e1, o1, a2, m2);
        lemma_run_ends_once::<T, R, W, F>(wf, s0, a2, m2, e2, o2, a1, m1);
        lemma_tasks_repeat::<T, R, W, F>(wf, s0, a1, m1, m2);
        lemma_tasks_made_log::<T, R, W, F>(wf, s0, a1, m1);
        lemma_task_repeats::<T, R, W, F>(wf, m1, a1, e1, Some(o1), e2, Some(o2));
    }
}

/// A finished execution stays finished: whoever runs whatever workflow against
/// its log gets the same outcome, and the log does not change.
pub proof fn law_a_finished_execution_stays_finished<
    T: Coroutine<T, ()>,
    R: Coroutine<T, Result<Payload, String>>,
    W: Workflow<T, R>,
    F: Fn(Payload) -> Result<Payload, String>,
    T2: Coroutine<T2, ()>,
    R2: Coroutine<T2, Result<Payload, String>>,
    W2: Workflow<T2, R2>,
    F2: Fn(Payload) -> Result<Payload, String>,
>(
    wf: W,
    s: Engine<F>,
    e: Engine<F>,
    out: RunOutcomeView,
    wf2: W2,
    s2: Engine<F2>,
    e2: Engine<F2>,
    out2: RunOutcomeView,
)
    requires
        ran::<T, R, W, F>(wf, s, e, out),
        out is Completed || out is Failed,
        s2.history == e.history,
        ran::<T2, R2, W2, F2>(wf2, s2, e2, out2),
    ensures
        e2 == s2,
        out2 == out,
{
    law_the_log_tells_the_outcome::<T, R, W, F>(wf, s, e, out);
    let result = final_result_of(e.history).unwrap();
    law_a_closed_log_is_final::<T2, R2, W2, F2>(wf2, s2, e2, out2, result);
}

} // verus!
