//! A pass, step by step: how results come, and whose turn it is when.

use vstd::prelude::*;

use crate::coroutine::{Coroutine, Poll, Workflow};
use crate::history::{
    commands_of, follows_idle_task, is_resolved, results_of, HistoryEventView, Payload,
    RecordedResultView,
};
use crate::laws::passes::{
    lemma_ends_of_pass, lemma_first_delivery, lemma_first_rest, lemma_last_round, lemma_last_turn,
    lemma_settling_round, lemma_turns,
};
use crate::laws::records::{answers, law_a_result_resolves_its_command};
use crate::replay::{
    deliveries, lines_handed_out, owes_activity, owes_timer, replays, round, run_to_block,
    tasks_polled, unsettled_rounds, PassState, PassView,
};
use crate::text::Text;
use crate::workflow::{fresh_ctx, CtxView};

verus! {

/// Results come one at a time, in the order of the log. Each is delivered while the
/// root still waits, and the workflow runs until it rests before the next one comes.
/// The deliveries end early only if the root is done, or if the workflow does not come
/// to rest. Returns the states before, between and after them.
pub proof fn law_results_come_one_at_a_time<
    T: Coroutine<T, ()>,
    R: Coroutine<T, Result<Payload, String>>,
>(
    results: Seq<RecordedResultView>,
    s: PassState<R::Obs, T::Obs>,
    e: PassState<R::Obs, T::Obs>,
    ok: bool,
) -> (states: Seq<PassState<R::Obs, T::Obs>>)
    requires
        deliveries::<T, R>(results, s, e, ok),
    ensures
        1 <= states.len() <= results.len() + 1,
        states[0] == s,
        states.last() == e,
        forall|i: int|
            0 <= i < states.len() - 1 ==> {
                &&& states[i].poll is Pending
                &&& run_to_block::<T, R>(
                    states[i].delivered(#[trigger] results[i]),
                    states[i + 1],
                    ok || i < states.len() - 2,
                )
            },
        ok && e.poll is Pending ==> states.len() == results.len() + 1,
        !ok ==> states.len() > 1,
    decreases results.len(),
{
    if results.len() == 0 || s.poll is Ready {
        seq![s]
    } else {
        let (mid, blocked) = lemma_first_delivery::<T, R>(results, s, e, ok);
        if blocked {
            let rest = results.drop_first();
            let later = law_results_come_one_at_a_time::<T, R>(rest, mid, e, ok);
            let states = seq![s] + later;
            assert forall|i: int| 0 <= i < states.len() - 1 implies {
                &&& states[i].poll is Pending
                &&& run_to_block::<T, R>(
                    states[i].delivered(#[trigger] results[i]),
                    states[i + 1],
                    ok || i < states.len() - 2,
                )
            } by {
                if i > 0 {
                    assert(rest[i - 1] == results[i]);
                    assert(states[i] == later[i - 1]);
                    assert(states[i + 1] == later[i]);
                } else {
                    assert(states[1] == later[0]);
                    assert(ok || later.len() > 1);
                }
            }
            states
        } else {
            seq![s, mid]
        }
    }
}

proof fn lemma_row_of_rounds<T: Coroutine<T, ()>, R: Coroutine<T, Result<Payload, String>>>(
    n: nat,
    s: PassState<R::Obs, T::Obs>,
    e: PassState<R::Obs, T::Obs>,
) -> (states: Seq<PassState<R::Obs, T::Obs>>)
    requires
        unsettled_rounds::<T, R>(n, s, e),
    ensures
        states.len() == n + 1,
        states[0] == s,
        states[n as int] == e,
        forall|i: int|
            0 < i <= n ==> {
                &&& round::<T, R>(states[i - 1], #[trigger] states[i])
                &&& states[i].poll is Pending
                &&& states[i].ctx.progressed
            },
    decreases n,
{
    if n == 0 {
        seq![s]
    } else {
        let mid = lemma_last_round::<T, R>(n, s, e);
        let k = (n - 1) as nat;
        let first = lemma_row_of_rounds::<T, R>(k, s, mid);
        let states = first.push(e);
        assert forall|i: int| 0 < i <= n implies {
            &&& round::<T, R>(states[i - 1], #[trigger] states[i])
            &&& states[i].poll is Pending
            &&& states[i].ctx.progressed
        } by {
            assert(states[i - 1] == first[i - 1]);
            if i < n {
                assert(states[i] == first[i]);
            }
        }
        states
    }
}

/// The workflow runs in rounds, as long as something moves and the root is not done,
/// and rests after the first round of which that does not hold. A workflow that has not
/// come to rest after ten thousand rounds is given up. Returns the states before,
/// between and after the rounds.
pub proof fn law_a_workflow_runs_in_rounds<
    T: Coroutine<T, ()>,
    R: Coroutine<T, Result<Payload, String>>,
>(
    s: PassState<R::Obs, T::Obs>,
    e: PassState<R::Obs, T::Obs>,
    ok: bool,
) -> (states: Seq<PassState<R::Obs, T::Obs>>)
    requires
        run_to_block::<T, R>(s, e, ok),
    ensures
        2 <= states.len() <= 10001,
        states[0] == s,
        states.last() == e,
        forall|i: int|
            0 < i < states.len() ==> round::<T, R>(states[i - 1], #[trigger] states[i]),
        forall|i: int|
            0 < i < states.len() - 1 ==> (#[trigger] states[i]).poll is Pending
                && states[i].ctx.progressed,
        ok ==> e.poll is Ready || !e.ctx.progressed,
        !ok ==> states.len() == 10001 && e.poll is Pending && e.ctx.progressed,
{
    if ok {
        let (n, mid) = lemma_settling_round::<T, R>(s, e);
        let first = lemma_row_of_rounds::<T, R>(n, s, mid);
        let states = first.push(e);
        assert forall|i: int| 0 < i < states.len() implies round::<T, R>(
            states[i - 1],
            #[trigger] states[i],
        ) by {
            assert(states[i - 1] == first[i - 1]);
            if i <= n {
                assert(states[i] == first[i]);
            }
        }
        assert forall|i: int| 0 < i < states.len() - 1 implies (
        #[trigger] states[i]).poll is Pending && states[i].ctx.progressed by {
            assert(states[i] == first[i]);
        }
        states
    } else {
        lemma_row_of_rounds::<T, R>(10000, s, e)
    }
}

/// The turns that a round gives to the detached tasks.
pub struct TaskTurns<T> {
    /// The contexts before, between and after the turns.
    pub between: Seq<CtxView<T>>,
    /// The context right after each task was polled.
    pub right_after: Seq<CtxView<T>>,
    /// The tasks after their turns.
    pub after: Seq<T>,
    /// Which of them are done.
    pub done: Seq<bool>,
    /// The tasks that still wait, after each number of turns.
    pub kept: Seq<Seq<T>>,
}

/// Task `i` of `taken` has its turn: it is polled in the context that the one before it
/// left. If it is done, that is progress, and it is gone; else it stays behind those
/// that wait.
pub open spec fn task_has_its_turn<T: Coroutine<T, ()>>(
    taken: Seq<T::Obs>,
    t: TaskTurns<T::Obs>,
    i: int,
) -> bool {
    if t.done[i] {
        &&& T::polled(taken[i], t.between[i], t.after[i], t.right_after[i], Poll::Ready(()))
        &&& t.between[i + 1] == t.right_after[i].with_progress(true)
        &&& t.kept[i + 1] == t.kept[i]
    } else {
        &&& T::polled(taken[i], t.between[i], t.after[i], t.right_after[i], Poll::Pending)
        &&& t.between[i + 1] == t.right_after[i]
        &&& t.kept[i + 1] == t.kept[i].push(t.after[i])
    }
}

proof fn lemma_tasks_have_their_turns<T: Coroutine<T, ()>>(
    taken: Seq<T::Obs>,
    ctx: CtxView<T::Obs>,
    still: Seq<T::Obs>,
    ctx_after: CtxView<T::Obs>,
) -> (t: TaskTurns<T::Obs>)
    requires
        tasks_polled::<T>(taken, ctx, still, ctx_after),
    ensures
        t.between.len() == taken.len() + 1,
        t.right_after.len() == taken.len(),
        t.after.len() == taken.len(),
        t.done.len() == taken.len(),
        t.kept.len() == taken.len() + 1,
        t.between[0] == ctx,
        t.between[taken.len() as int] == ctx_after,
        t.kept[0].len() == 0,
        t.kept[taken.len() as int] == still,
        forall|i: int|
            0 <= i < taken.len() ==> #[trigger] task_has_its_turn::<T>(taken, t, i),
    decreases taken.len(),
{
    if taken.len() == 0 {
        TaskTurns {
            between: seq![ctx],
            right_after: Seq::empty(),
            after: Seq::empty(),
            done: Seq::empty(),
            kept: seq![still],
        }
    } else {
        let n = taken.len() - 1;
        let l = lemma_last_turn::<T>(taken, ctx, still, ctx_after);
        let b = lemma_tasks_have_their_turns::<T>(taken.drop_last(), ctx, l.kept, l.mid);
        let t = TaskTurns {
            between: b.between.push(ctx_after),
            right_after: b.right_after.push(l.end),
            after: b.after.push(l.after),
            done: b.done.push(l.out is Ready),
            kept: b.kept.push(still),
        };
        assert forall|i: int| 0 <= i < taken.len() implies #[trigger] task_has_its_turn::<T>(
            taken,
            t,
            i,
        ) by {
            if i < n {
                assert(task_has_its_turn::<T>(taken.drop_last(), b, i));
                assert(taken.drop_last()[i] == taken[i]);
            } else {
                assert(taken[i] == taken.last());
                match l.out {
                    Poll::Ready(u) => {
                        assert(u == ());
                    },
                    Poll::Pending => {},
                }
            }
        }
        t
    }
}

/// A round gives the root its turn, unless it is done, and then every task that waits,
/// in the order in which they were spawned. Tasks that still wait come first in the next
/// round, and those that tasks spawned come behind them. Whether anything moved is asked
/// of this round alone. Returns the context after the root's turn, and the turns of the
/// tasks.
pub proof fn law_a_round_polls_root_then_tasks<
    T: Coroutine<T, ()>,
    R: Coroutine<T, Result<Payload, String>>,
>(
    s: PassState<R::Obs, T::Obs>,
    e: PassState<R::Obs, T::Obs>,
) -> (r: (CtxView<T::Obs>, TaskTurns<T::Obs>))
    requires
        round::<T, R>(s, e),
    ensures
        ({
            let (mid, t) = r;
            let n = mid.tasks.len() as int;
            let end = t.between[n];
            &&& if s.poll is Ready {
                e.root == s.root && e.poll == s.poll && mid == s.ctx.with_progress(false)
            } else {
                R::polled(s.root, s.ctx.with_progress(false), e.root, mid, e.poll)
            }
            &&& t.between.len() == n + 1
            &&& t.kept.len() == n + 1
            &&& t.between[0] == mid.with_tasks(Seq::empty())
            &&& t.kept[0].len() == 0
            &&& forall|i: int|
                0 <= i < n ==> #[trigger] task_has_its_turn::<T>(mid.tasks, t, i)
            &&& e.ctx == end.with_tasks(t.kept[n] + end.tasks)
        }),
{
    let (mid, still, end) = lemma_turns::<T, R>(s, e);
    let t = lemma_tasks_have_their_turns::<T>(
        mid.tasks,
        mid.with_tasks(Seq::empty()),
        still,
        end,
    );
    (mid, t)
}

/// A pass starts the workflow afresh, lets it run until it rests, and then delivers all
/// that the log records, in log order. What it yields is what the root gave last, every
/// command that was issued, in order, and whether the workflow failed to come to rest.
/// Returns the states at its start, at its first rest, and at its end.
pub proof fn law_a_pass_starts_afresh_and_hears_the_log<
    T: Coroutine<T, ()>,
    R: Coroutine<T, Result<Payload, String>>,
    W: Workflow<T, R>,
>(wf: W, h: Seq<HistoryEventView>, pass: PassView) -> (r: (
    PassState<R::Obs, T::Obs>,
    PassState<R::Obs, T::Obs>,
    PassState<R::Obs, T::Obs>,
))
    requires
        replays::<T, R, W>(wf, h, pass),
    ensures
        ({
            let (s, m, e) = r;
            let at_once = s.poll is Pending && run_to_block::<T, R>(s, m, false) && e == m
                && pass.deadlocked;
            let hears = run_to_block::<T, R>(s, m, true) && deliveries::<T, R>(
                results_of(h),
                m,
                e,
                !pass.deadlocked,
            );
            &&& wf.started(fresh_ctx::<T::Obs>(h), s.root, s.ctx)
            &&& s.poll is Pending
            &&& at_once || hears
            &&& pass.poll == e.poll
            &&& pass.commands == e.ctx.commands
            &&& forall|i: int|
                0 <= i < pass.commands.len() ==> (#[trigger] pass.commands[i]).seq() == i
            &&& pass.logs == lines_handed_out(h, pass, e.ctx)
        }),
{
    let (s, e) = lemma_ends_of_pass::<T, R, W>(wf, h, pass);
    let (m, b) = lemma_first_rest::<T, R>(results_of(h), s, e, pass.deadlocked);
    (s, m, e)
}

/// A pass hands out no line exactly where it has none that is new, or where the task
/// before left nothing behind and this one may leave nothing either. It is sure to leave
/// something if the workflow came to rest and has a new command; or has none and issued
/// all recorded ones, no activity waits for its result, and either the workflow returned
/// or a timer waits.
pub proof fn law_a_pass_hands_out_new_lines<T>(
    h: Seq<HistoryEventView>,
    pass: PassView,
    ctx: CtxView<T>,
)
    ensures
        ({
            let recorded = commands_of(h);
            let waits = |i: int|
                0 <= i < recorded.len() && forall|k: int|
                    0 <= k < h.len() ==> !answers((#[trigger] h[k]).attrs, recorded[i].seq());
            let activity = exists|i: int|
                #[trigger] waits(i) && recorded[i] is ScheduleActivity;
            let timer = exists|i: int| #[trigger] waits(i) && recorded[i] is StartTimer;
            let leaves = !pass.deadlocked && (pass.commands.len() > recorded.len() || (
            pass.commands.len() == recorded.len() && !activity && (pass.poll is Ready || timer)));
            lines_handed_out(h, pass, ctx) == if follows_idle_task(h) && !leaves {
                Seq::<Text>::empty()
            } else {
                ctx.lines.skip(ctx.old_lines as int)
            }
        }),
{
    let recorded = commands_of(h);
    let waits = |i: int|
        0 <= i < recorded.len() && forall|k: int|
            0 <= k < h.len() ==> !answers((#[trigger] h[k]).attrs, recorded[i].seq());
    assert forall|i: int| 0 <= i < recorded.len() implies #[trigger] waits(i)
        == !is_resolved(h, recorded[i].seq()) by {
        law_a_result_resolves_its_command(h, recorded[i].seq());
    }
    if owes_activity(h) {
        let i = choose|i: int|
            {
                &&& 0 <= i < recorded.len()
                &&& (#[trigger] recorded[i]) is ScheduleActivity
                &&& !is_resolved(h, recorded[i].seq())
            };
        assert(waits(i));
    }
    if owes_timer(h) {
        let i = choose|i: int|
            {
                &&& 0 <= i < recorded.len()
                &&& (#[trigger] recorded[i]) is StartTimer
                &&& !is_resolved(h, recorded[i].seq())
            };
        assert(waits(i));
    }
}

} // verus!
