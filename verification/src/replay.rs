//! # Replay: one pass over the history
//!
//! A pass builds a brand-new workflow coroutine, feeds it the recorded results
//! and harvests the commands.
//!
//! ## Why results are delivered one at a time
//!
//! A lookup table (build a map from the history, poll once, let every resolved
//! await return) is wrong for workflows that use concurrency. Take `select2(a,
//! b)` where `b` finished first: live, the workflow saw only `b` resolved. Later
//! `a` finished too. With a table, the select polls `a` first, finds it resolved
//! and takes `a`'s branch: same code, same history, different answer. What was
//! thrown away is *the order in which the log was written*. So results are
//! delivered again in log order, and the workflow runs until it is blocked
//! before the next one becomes visible.

use vstd::prelude::*;

use crate::command::{command_views, Command, CommandView};
use crate::coroutine::{Coroutine, Observe, Poll, Workflow};
use crate::history::{
    commands_of, follows_idle_task, is_resolved, result_views, results_of, History,
    HistoryEventView, Payload, RecordedResultView, SeqNo,
};
use crate::text::{texts, Text};
use crate::workflow::{fresh_ctx, in_sequence, CtxView, WfContext};

verus! {

/// Guards against a workflow that spawns tasks forever without blocking.
pub const MAX_ROUNDS: usize = 10_000;

/// A pass under way: the root coroutine, what it last gave, and the context.
pub struct PassState<R, T> {
    pub root: R,
    pub poll: Poll<Result<Text, Text>>,
    pub ctx: CtxView<T>,
}

impl<R, T> PassState<R, T> {
    /// No further round is needed: the root is done, or nothing moved.
    pub open spec fn is_settled(self) -> bool {
        self.poll is Ready || !self.ctx.progressed
    }

    /// The next recorded result becomes visible.
    pub open spec fn delivered(self, r: RecordedResultView) -> PassState<R, T> {
        PassState { ctx: self.ctx.delivered(r), ..self }
    }
}

/// The root gets its turn: it is polled, unless it is done.
pub open spec fn root_polled<T: Observe, R: Coroutine<T, Result<Payload, String>>>(
    root: R::Obs,
    poll: Poll<Result<Text, Text>>,
    ctx: CtxView<T::Obs>,
    root_after: R::Obs,
    poll_after: Poll<Result<Text, Text>>,
    ctx_after: CtxView<T::Obs>,
) -> bool {
    if poll is Ready {
        root_after == root && poll_after == poll && ctx_after == ctx
    } else {
        R::polled(root, ctx, root_after, ctx_after, poll_after)
    }
}

/// The tasks in `taken` get their turns, in order. Those that still wait stay in
/// `still`; each one that finishes counts as progress.
pub open spec fn tasks_polled<T: Coroutine<T, ()>>(
    taken: Seq<T::Obs>,
    ctx: CtxView<T::Obs>,
    still: Seq<T::Obs>,
    ctx_after: CtxView<T::Obs>,
) -> bool
    decreases taken.len(),
{
    if taken.len() == 0 {
        still.len() == 0 && ctx_after == ctx
    } else {
        exists|mid: CtxView<T::Obs>, after: T::Obs, end: CtxView<T::Obs>, out: Poll<()>|
            {
                &&& #[trigger] T::polled(taken.last(), mid, after, end, out)
                &&& match out {
                    Poll::Pending => {
                        &&& still.len() > 0
                        &&& still.last() == after
                        &&& ctx_after == end
                        &&& tasks_polled::<T>(taken.drop_last(), ctx, still.drop_last(), mid)
                    },
                    Poll::Ready(_) => {
                        &&& ctx_after == end.with_progress(true)
                        &&& tasks_polled::<T>(taken.drop_last(), ctx, still, mid)
                    },
                }
            }
    }
}

/// One round: the root's turn, then the turn of every task that waited when the
/// root was through. Tasks spawned by other tasks go last.
pub open spec fn round<T: Coroutine<T, ()>, R: Coroutine<T, Result<Payload, String>>>(
    s: PassState<R::Obs, T::Obs>,
    e: PassState<R::Obs, T::Obs>,
) -> bool {
    exists|mid: CtxView<T::Obs>, still: Seq<T::Obs>, end: CtxView<T::Obs>|
        {
            &&& #[trigger] root_polled::<T, R>(
                s.root,
                s.poll,
                s.ctx.with_progress(false),
                e.root,
                e.poll,
                mid,
            )
            &&& #[trigger] tasks_polled::<T>(
                mid.tasks,
                mid.with_tasks(Seq::empty()),
                still,
                end,
            )
            &&& e.ctx == end.with_tasks(still + end.tasks)
        }
}

/// `n` rounds, each of which calls for another one.
pub open spec fn unsettled_rounds<T: Coroutine<T, ()>, R: Coroutine<T, Result<Payload, String>>>(
    n: nat,
    s: PassState<R::Obs, T::Obs>,
    e: PassState<R::Obs, T::Obs>,
) -> bool
    decreases n,
{
    if n == 0 {
        e == s
    } else {
        exists|mid: PassState<R::Obs, T::Obs>|
            {
                &&& unsettled_rounds::<T, R>((n - 1) as nat, s, mid)
                &&& #[trigger] round::<T, R>(mid, e)
                &&& !e.is_settled()
            }
    }
}

/// Rounds follow each other until one settles; `ok` says that one did within
/// [`MAX_ROUNDS`].
pub open spec fn run_to_block<T: Coroutine<T, ()>, R: Coroutine<T, Result<Payload, String>>>(
    s: PassState<R::Obs, T::Obs>,
    e: PassState<R::Obs, T::Obs>,
    ok: bool,
) -> bool {
    if ok {
        exists|n: nat, mid: PassState<R::Obs, T::Obs>|
            {
                &&& n < MAX_ROUNDS
                &&& #[trigger] unsettled_rounds::<T, R>(n, s, mid)
                &&& #[trigger] round::<T, R>(mid, e)
                &&& e.is_settled()
            }
    } else {
        unsettled_rounds::<T, R>(MAX_ROUNDS as nat, s, e)
    }
}

/// Polls every task in `taken` once, in order. Returns those that still wait.
fn poll_tasks<T: Coroutine<T, ()>>(taken: Vec<T>, ctx: &mut WfContext<T>) -> (still: Vec<T>)
    ensures
        tasks_polled::<T>(taken.observed(), old(ctx)@, still.observed(), final(ctx)@),
{
    let mut still: Vec<T> = Vec::new();
    let ghost all = taken.observed();
    let ghost ctx0 = ctx@;
    proof {
        assert(still.observed() =~= Seq::empty());
    }
    for t in it: taken
        invariant
            it.seq() == taken@,
            all == taken.observed(),
            tasks_polled::<T>(all.take(it.index() as int), ctx0, still.observed(), ctx@),
    {
        let mut task = t;
        let ghost i = it.index() as int;
        let ghost mid = ctx@;
        let ghost kept = still.observed();
        let out = task.poll(ctx);
        let ghost end = ctx@;
        proof {
            assert(all.take(i + 1).drop_last() =~= all.take(i));
            assert(all.take(i + 1).last() == t.observed());
            assert(T::polled(all.take(i + 1).last(), mid, task.observed(), end, out.observed()));
        }
        if out.is_pending() {
            still.push(task);
            proof {
                assert(still.observed().drop_last() =~= kept);
                assert(still.observed().last() == task.observed());
            }
        } else {
            ctx.set_progressed(true);
        }
    }
    proof {
        assert(all.take(all.len() as int) =~= all);
    }
    still
}

/// Polls the root and every detached task, in creation order, until nothing can
/// move. Returns whether that point was reached.
///
/// A composed coroutine is a tree and one poll of the root drives all of it, so
/// without detached tasks one round that moves and one that does not are enough.
/// The loop exists for tasks that unblock each other.
pub fn run_until_all_blocked<T: Coroutine<T, ()>, R: Coroutine<T, Result<Payload, String>>>(
    root: &mut R,
    outcome: &mut Poll<Result<Payload, String>>,
    ctx: &mut WfContext<T>,
) -> (ok: bool)
    ensures
        run_to_block::<T, R>(
            PassState {
                root: old(root).observed(),
                poll: old(outcome).observed(),
                ctx: old(ctx)@,
            },
            PassState {
                root: final(root).observed(),
                poll: final(outcome).observed(),
                ctx: final(ctx)@,
            },
            ok,
        ),
{
    let ghost s = PassState {
        root: root.observed(),
        poll: outcome.observed(),
        ctx: ctx@,
    };
    let ghost mut now = s;
    let mut n: usize = 0;
    while n < MAX_ROUNDS
        invariant
            n <= MAX_ROUNDS,
            now == (PassState {
                root: root.observed(),
                poll: outcome.observed(),
                ctx: ctx@,
            }),
            unsettled_rounds::<T, R>(n as nat, s, now),
            s == (PassState {
                root: old(root).observed(),
                poll: old(outcome).observed(),
                ctx: old(ctx)@,
            }),
        decreases MAX_ROUNDS - n,
    {
        ctx.set_progressed(false);
        if outcome.is_pending() {
            *outcome = root.poll(ctx);
        }
        let ghost mid = ctx@;
        proof {
            assert(root_polled::<T, R>(
                now.root,
                now.poll,
                now.ctx.with_progress(false),
                root.observed(),
                outcome.observed(),
                mid,
            ));
        }
        let taken = ctx.take_tasks();
        let still = poll_tasks(taken, ctx);
        let ghost end = ctx@;
        let ghost kept = still.observed();
        ctx.return_tasks(still);
        let ghost next = PassState {
            root: root.observed(),
            poll: outcome.observed(),
            ctx: ctx@,
        };
        proof {
            assert(tasks_polled::<T>(mid.tasks, mid.with_tasks(Seq::empty()), kept, end));
            assert(root_polled::<T, R>(
                now.root,
                now.poll,
                now.ctx.with_progress(false),
                next.root,
                next.poll,
                mid,
            ));
            assert(next.ctx == end.with_tasks(kept + end.tasks));
            assert(round::<T, R>(now, next));
        }
        if outcome.is_ready() {
            return true;
        }
        if !ctx.progressed() {
            return true;
        }
        proof {
            now = next;
        }
        n = n + 1;
    }
    false
}

/// The recorded results become visible one at a time, each after the workflow
/// has run until it was blocked. The rest stays undelivered once the root is
/// done, or once the workflow fails to block.
pub open spec fn deliveries<T: Coroutine<T, ()>, R: Coroutine<T, Result<Payload, String>>>(
    results: Seq<RecordedResultView>,
    s: PassState<R::Obs, T::Obs>,
    e: PassState<R::Obs, T::Obs>,
    ok: bool,
) -> bool
    decreases results.len(),
{
    if results.len() == 0 || s.poll is Ready {
        e == s && ok
    } else {
        exists|mid: PassState<R::Obs, T::Obs>, blocked: bool|
            {
                &&& #[trigger] run_to_block::<T, R>(s.delivered(results.first()), mid, blocked)
                &&& if blocked {
                    deliveries::<T, R>(results.drop_first(), mid, e, ok)
                } else {
                    e == mid && !ok
                }
            }
    }
}

/// What one pass yields.
pub struct PassView {
    pub poll: Poll<Result<Text, Text>>,
    pub commands: Seq<CommandView>,
    pub logs: Seq<Text>,
    pub deadlocked: bool,
}

/// The log records an activity that has no result yet.
pub open spec fn owes_activity(h: Seq<HistoryEventView>) -> bool {
    exists|i: int|
        {
            &&& 0 <= i < commands_of(h).len()
            &&& (#[trigger] commands_of(h)[i]) is ScheduleActivity
            &&& !is_resolved(h, commands_of(h)[i].seq())
        }
}

/// The log records a timer that has not fired yet.
pub open spec fn owes_timer(h: Seq<HistoryEventView>) -> bool {
    exists|i: int|
        {
            &&& 0 <= i < commands_of(h).len()
            &&& (#[trigger] commands_of(h)[i]) is StartTimer
            &&& !is_resolved(h, commands_of(h)[i].seq())
        }
}

/// A task with this pass over the log `h` leaves something behind wherever its
/// worker dies, as long as the clock has room: it has a new command to write down,
/// or nothing to attempt before it closes the execution or fires a timer.
pub open spec fn leaves_a_mark(h: Seq<HistoryEventView>, pass: PassView) -> bool {
    let recorded = commands_of(h).len();
    &&& !pass.deadlocked
    &&& pass.commands.len() > recorded || (pass.commands.len() == recorded && !owes_activity(h)
        && (pass.poll is Ready || owes_timer(h)))
}

/// The pass is over the log of a task that left nothing behind, and so may this
/// one: it only does that task's work again.
pub open spec fn repeats_idle_task(h: Seq<HistoryEventView>, pass: PassView) -> bool {
    follows_idle_task(h) && !leaves_a_mark(h, pass)
}

/// The lines that a pass over the log `h` hands out where it ends in the context
/// `ctx`.
pub open spec fn lines_handed_out<T>(
    h: Seq<HistoryEventView>,
    pass: PassView,
    ctx: CtxView<T>,
) -> Seq<Text> {
    if repeats_idle_task(h, pass) {
        Seq::empty()
    } else {
        ctx.new_lines()
    }
}

/// A pass from its start state: run until blocked, then deliver.
pub open spec fn pass_runs<T: Coroutine<T, ()>, R: Coroutine<T, Result<Payload, String>>>(
    results: Seq<RecordedResultView>,
    s: PassState<R::Obs, T::Obs>,
    e: PassState<R::Obs, T::Obs>,
    deadlocked: bool,
) -> bool {
    exists|mid: PassState<R::Obs, T::Obs>, blocked: bool|
        {
            &&& #[trigger] run_to_block::<T, R>(s, mid, blocked)
            &&& if blocked {
                deliveries::<T, R>(results, mid, e, !deadlocked)
            } else {
                e == mid && deadlocked
            }
        }
}

/// `pass` is what replaying the workflow `wf` over the log `h` may yield: the
/// workflow starts from a fresh context, sees the recorded results in log order,
/// and leaves its commands behind, numbered in the order they were issued, with the
/// lines that no earlier task has logged.
pub open spec fn replays<
    T: Coroutine<T, ()>,
    R: Coroutine<T, Result<Payload, String>>,
    W: Workflow<T, R>,
>(wf: W, h: Seq<HistoryEventView>, pass: PassView) -> bool {
    &&& in_sequence(pass.commands)
    &&& pass.commands.len() <= SeqNo::MAX
    &&& exists|root: R::Obs, ctx: CtxView<T::Obs>, e: PassState<R::Obs, T::Obs>|
        {
            &&& #[trigger] wf.started(fresh_ctx::<T::Obs>(h), root, ctx)
            &&& #[trigger] pass_runs::<T, R>(
                results_of(h),
                PassState { root, poll: Poll::Pending, ctx },
                e,
                pass.deadlocked,
            )
            &&& pass.poll == e.poll
            &&& pass.commands == e.ctx.commands
            &&& pass.logs == lines_handed_out(h, pass, e.ctx)
        }
}

/// Which kinds of recorded commands have no result yet: activities, and timers.
fn outstanding(history: &History) -> (r: (bool, bool))
    ensures
        r.0 == owes_activity(history@),
        r.1 == owes_timer(history@),
{
    broadcast use vstd::std_specs::hash::group_hash_axioms;

    let resolved = history.resolved_seqs();
    let recorded = history.recorded_commands();
    let ghost all = commands_of(history@);
    let mut activity: bool = false;
    let mut timer: bool = false;
    let mut i: usize = 0;
    while i < recorded.len()
        invariant
            i <= recorded.len(),
            all == commands_of(history@),
            command_views(recorded@) == all,
            forall|s: SeqNo| #[trigger] resolved@.contains(s) <==> is_resolved(history@, s),
            activity == exists|j: int|
                0 <= j < i && (#[trigger] all[j]) is ScheduleActivity && !is_resolved(
                    history@,
                    all[j].seq(),
                ),
            timer == exists|j: int|
                0 <= j < i && (#[trigger] all[j]) is StartTimer && !is_resolved(
                    history@,
                    all[j].seq(),
                ),
        decreases recorded.len() - i,
    {
        let c = &recorded[i];
        proof {
            assert(all[i as int] == c@);
        }
        if !resolved.contains(&c.seq()) {
            match c {
                Command::ScheduleActivity { .. } => {
                    activity = true;
                },
                Command::StartTimer { .. } => {
                    timer = true;
                },
                Command::RecordMarker { .. } => {},
            }
        }
        i = i + 1;
    }
    (activity, timer)
}

/// The harvest of one pass.
pub struct Pass {
    /// What the root coroutine last gave.
    pub poll: Poll<Result<Payload, String>>,
    /// Every command that the workflow issued, from the start.
    pub commands: Vec<Command>,
    /// The lines that the workflow logged and no earlier task has.
    pub logs: Vec<String>,
    /// The workflow never came to rest.
    pub deadlocked: bool,
}

impl View for Pass {
    type V = PassView;

    open spec fn view(&self) -> PassView {
        PassView {
            poll: self.poll.observed(),
            commands: command_views(self.commands@),
            logs: texts(self.logs@),
            deadlocked: self.deadlocked,
        }
    }
}

/// One replay pass: builds a brand-new workflow coroutine, feeds it the recorded
/// results **in log order**, harvests the commands, throws it away.
pub fn replay_once<
    T: Coroutine<T, ()>,
    R: Coroutine<T, Result<Payload, String>>,
    W: Workflow<T, R>,
>(wf: &W, history: &History) -> (pass: Pass)
    ensures
        replays::<T, R, W>(*wf, history@, pass@),
{
    let mut ctx: WfContext<T> = WfContext::new(history);
    let mut root = wf.start(&mut ctx);
    let mut poll: Poll<Result<Payload, String>> = Poll::Pending;
    let ghost s = PassState::<R::Obs, T::Obs> {
        root: root.observed(),
        poll: Poll::Pending,
        ctx: ctx@,
    };
    proof {
        assert(wf.started(fresh_ctx::<T::Obs>(history@), s.root, s.ctx));
    }

    // Run to the first block, before any result is visible.
    let first: bool = run_until_all_blocked(&mut root, &mut poll, &mut ctx);
    let ghost all = results_of(history@);
    let ghost mid = PassState { root: root.observed(), poll: poll.observed(), ctx: ctx@ };
    let ghost mut now = mid;
    let mut ok: bool = first;

    // Then make every recorded result visible, one at a time, in log order.
    if first {
        let results = history.results_in_order();
        let mut i: usize = 0;
        proof {
            assert(all.skip(0) =~= all);
        }
        while i < results.len() && poll.is_pending() && ok
            invariant
                i <= results.len(),
                result_views(results@) == all,
                now == (PassState { root: root.observed(), poll: poll.observed(), ctx: ctx@ }),
                ok ==> forall|e: PassState<R::Obs, T::Obs>, last: bool| #[trigger]
                    deliveries::<T, R>(all.skip(i as int), now, e, last) ==> deliveries::<T, R>(
                        all,
                        mid,
                        e,
                        last,
                    ),
                !ok ==> deliveries::<T, R>(all, mid, now, false),
            decreases results.len() - i,
        {
            let ghost before = now;
            let ghost rest = all.skip(i as int);
            ctx.deliver(&results[i]);
            ok = run_until_all_blocked(&mut root, &mut poll, &mut ctx);
            proof {
                assert(rest.first() == results@[i as int]@);
                assert(rest.drop_first() =~= all.skip(i + 1));
                now = PassState { root: root.observed(), poll: poll.observed(), ctx: ctx@ };
                assert(run_to_block::<T, R>(before.delivered(rest.first()), now, ok));
                if ok {
                    assert forall|e: PassState<R::Obs, T::Obs>, last: bool| #[trigger]
                        deliveries::<T, R>(all.skip(i + 1), now, e, last) implies deliveries::<
                        T,
                        R,
                    >(all, mid, e, last) by {
                        assert(deliveries::<T, R>(rest, before, e, last));
                    }
                } else {
                    assert(deliveries::<T, R>(rest, before, now, false));
                }
            }
            i = i + 1;
        }
        proof {
            if ok {
                assert(deliveries::<T, R>(all.skip(i as int), now, now, true));
            }
        }
    }
    proof {
        assert(run_to_block::<T, R>(s, mid, first));
        assert(pass_runs::<T, R>(all, s, now, !ok));
    }

    // The suspended coroutine and its tasks die here. The history survives.
    let (commands, lines) = ctx.finish();
    let recorded: usize = history.recorded_commands().len();
    let (activity, timer) = outstanding(history);
    let marks: bool = ok && (commands.len() > recorded || (commands.len() == recorded && !activity
        && (poll.is_ready() || timer)));
    let logs: Vec<String> = if history.follows_idle_task() && !marks {
        Vec::new()
    } else {
        lines
    };
    let pass = Pass { poll, commands, logs, deadlocked: !ok };
    proof {
        assert(marks == leaves_a_mark(history@, pass@));
        assert(pass@.logs =~= lines_handed_out(history@, pass@, now.ctx));
        assert(pass_runs::<T, R>(
            results_of(history@),
            PassState { root: s.root, poll: Poll::Pending, ctx: s.ctx },
            now,
            pass@.deadlocked,
        ));
    }
    pass
}

} // verus!
