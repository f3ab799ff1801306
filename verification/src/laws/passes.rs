//! The steps of a pass, taken apart: each lemma names what a relation of
//! [`crate::replay`] says to exist.

use vstd::prelude::*;

use crate::coroutine::{Coroutine, Poll, Workflow};
use crate::history::{results_of, HistoryEventView, Payload, RecordedResultView};
use crate::replay::{
    deliveries, lines_handed_out, pass_runs, replays, root_polled, round, run_to_block,
    tasks_polled, unsettled_rounds, PassState, PassView, MAX_ROUNDS,
};
use crate::workflow::{fresh_ctx, CtxView};

verus! {

/// The last turn among the tasks in `taken`.
pub struct LastTurn<T> {
    /// The context before the turn.
    pub mid: CtxView<T>,
    /// The task after the turn.
    pub after: T,
    /// The context after the turn.
    pub end: CtxView<T>,
    pub out: Poll<()>,
    /// The earlier tasks that still wait.
    pub kept: Seq<T>,
}

pub(crate) proof fn lemma_last_turn<T: Coroutine<T, ()>>(
    taken: Seq<T::Obs>,
    ctx: CtxView<T::Obs>,
    still: Seq<T::Obs>,
    ctx_after: CtxView<T::Obs>,
) -> (t: LastTurn<T::Obs>)
    requires
        taken.len() > 0,
        tasks_polled::<T>(taken, ctx, still, ctx_after),
    ensures
        T::polled(taken.last(), t.mid, t.after, t.end, t.out),
        tasks_polled::<T>(taken.drop_last(), ctx, t.kept, t.mid),
        match t.out {
            Poll::Pending => ctx_after == t.end && still == t.kept.push(t.after),
            Poll::Ready(_) => ctx_after == t.end.with_progress(true) && still == t.kept,
        },
{
    let (mid, after, end, out) = choose|
        mid: CtxView<T::Obs>,
        after: T::Obs,
        end: CtxView<T::Obs>,
        out: Poll<()>,
    |
        {
            &&& #[trigger] T::polled(taken.last(), mid, after, end, out)
            &&& match out {
                Poll::Pending => {
                    &&& still.len() > 0
                    &&& still.last() == after
                    &&& ctx_after == end
                    &&& tasks_polled::<T>(taken.drop_last(), ctx, still.drop_last(), mid)
                },
                Poll::Ready(_) => {
                    &&& ctx_after == end.with_progress(true)
                    &&& tasks_polled::<T>(taken.drop_last(), ctx, still, mid)
                },
            }
        };
    let kept = if out is Pending {
        still.drop_last()
    } else {
        still
    };
    if out is Pending {
        assert(still =~= kept.push(after));
    }
    LastTurn { mid, after, end, out, kept }
}

/// The two halves of a round: the context after the root's turn, the tasks that
/// still wait, and the context after their turns.
pub(crate) proof fn lemma_turns<T: Coroutine<T, ()>, R: Coroutine<T, Result<Payload, String>>>(
    s: PassState<R::Obs, T::Obs>,
    e: PassState<R::Obs, T::Obs>,
) -> (t: (CtxView<T::Obs>, Seq<T::Obs>, CtxView<T::Obs>))
    requires
        round::<T, R>(s, e),
    ensures
        root_polled::<T, R>(s.root, s.poll, s.ctx.with_progress(false), e.root, e.poll, t.0),
        tasks_polled::<T>(t.0.tasks, t.0.with_tasks(Seq::empty()), t.1, t.2),
        e.ctx == t.2.with_tasks(t.1 + t.2.tasks),
{
    let c0 = s.ctx.with_progress(false);
    choose|mid: CtxView<T::Obs>, still: Seq<T::Obs>, end: CtxView<T::Obs>|
        {
            &&& #[trigger] root_polled::<T, R>(s.root, s.poll, c0, e.root, e.poll, mid)
            &&& #[trigger] tasks_polled::<T>(mid.tasks, mid.with_tasks(Seq::empty()), still, end)
            &&& e.ctx == end.with_tasks(still + end.tasks)
        }
}

/// The state before the last of `n` rounds.
pub(crate) proof fn lemma_last_round<
    T: Coroutine<T, ()>,
    R: Coroutine<T, Result<Payload, String>>,
>(n: nat, s: PassState<R::Obs, T::Obs>, e: PassState<R::Obs, T::Obs>) -> (mid: PassState<
    R::Obs,
    T::Obs,
>)
    requires
        n > 0,
        unsettled_rounds::<T, R>(n, s, e),
    ensures
        unsettled_rounds::<T, R>((n - 1) as nat, s, mid),
        round::<T, R>(mid, e),
        !e.is_settled(),
{
    choose|mid: PassState<R::Obs, T::Obs>|
        {
            &&& unsettled_rounds::<T, R>((n - 1) as nat, s, mid)
            &&& #[trigger] round::<T, R>(mid, e)
            &&& !e.is_settled()
        }
}

/// How many rounds came before the one that settled, and the state then.
pub(crate) proof fn lemma_settling_round<
    T: Coroutine<T, ()>,
    R: Coroutine<T, Result<Payload, String>>,
>(s: PassState<R::Obs, T::Obs>, e: PassState<R::Obs, T::Obs>) -> (r: (
    nat,
    PassState<R::Obs, T::Obs>,
))
    requires
        run_to_block::<T, R>(s, e, true),
    ensures
        r.0 < MAX_ROUNDS,
        unsettled_rounds::<T, R>(r.0, s, r.1),
        round::<T, R>(r.1, e),
        e.is_settled(),
{
    choose|n: nat, mid: PassState<R::Obs, T::Obs>|
        {
            &&& n < MAX_ROUNDS
            &&& #[trigger] unsettled_rounds::<T, R>(n, s, mid)
            &&& #[trigger] round::<T, R>(mid, e)
            &&& e.is_settled()
        }
}

/// The state after the first delivery, and whether the workflow came to rest
/// there.
pub(crate) proof fn lemma_first_delivery<
    T: Coroutine<T, ()>,
    R: Coroutine<T, Result<Payload, String>>,
>(
    results: Seq<RecordedResultView>,
    s: PassState<R::Obs, T::Obs>,
    e: PassState<R::Obs, T::Obs>,
    ok: bool,
) -> (r: (PassState<R::Obs, T::Obs>, bool))
    requires
        results.len() > 0,
        s.poll is Pending,
        deliveries::<T, R>(results, s, e, ok),
    ensures
        run_to_block::<T, R>(s.delivered(results.first()), r.0, r.1),
        r.1 ==> deliveries::<T, R>(results.drop_first(), r.0, e, ok),
        !r.1 ==> e == r.0 && !ok,
{
    choose|mid: PassState<R::Obs, T::Obs>, blocked: bool|
        {
            &&& #[trigger] run_to_block::<T, R>(s.delivered(results.first()), mid, blocked)
            &&& if blocked {
                deliveries::<T, R>(results.drop_first(), mid, e, ok)
            } else {
                e == mid && !ok
            }
        }
}

/// The state before any result is visible, and whether the workflow came to rest
/// there.
pub(crate) proof fn lemma_first_rest<
    T: Coroutine<T, ()>,
    R: Coroutine<T, Result<Payload, String>>,
>(
    results: Seq<RecordedResultView>,
    s: PassState<R::Obs, T::Obs>,
    e: PassState<R::Obs, T::Obs>,
    deadlocked: bool,
) -> (r: (PassState<R::Obs, T::Obs>, bool))
    requires
        pass_runs::<T, R>(results, s, e, deadlocked),
    ensures
        run_to_block::<T, R>(s, r.0, r.1),
        r.1 ==> deliveries::<T, R>(results, r.0, e, !deadlocked),
        !r.1 ==> e == r.0 && deadlocked,
{
    choose|mid: PassState<R::Obs, T::Obs>, blocked: bool|
        {
            &&& #[trigger] run_to_block::<T, R>(s, mid, blocked)
            &&& if blocked {
                deliveries::<T, R>(results, mid, e, !deadlocked)
            } else {
                e == mid && deadlocked
            }
        }
}

/// The first and the last state of a pass.
pub(crate) proof fn lemma_ends_of_pass<
    T: Coroutine<T, ()>,
    R: Coroutine<T, Result<Payload, String>>,
    W: Workflow<T, R>,
>(wf: W, h: Seq<HistoryEventView>, pass: PassView) -> (r: (
    PassState<R::Obs, T::Obs>,
    PassState<R::Obs, T::Obs>,
))
    requires
        replays::<T, R, W>(wf, h, pass),
    ensures
        wf.started(fresh_ctx::<T::Obs>(h), r.0.root, r.0.ctx),
        r.0.poll is Pending,
        pass_runs::<T, R>(results_of(h), r.0, r.1, pass.deadlocked),
        pass.poll == r.1.poll,
        pass.commands == r.1.ctx.commands,
        pass.logs == lines_handed_out(h, pass, r.1.ctx),
{
    let (root, ctx, e) = choose|
        root: R::Obs,
        ctx: CtxView<T::Obs>,
        e: PassState<R::Obs, T::Obs>,
    |
        {
            &&& #[trigger] wf.started(fresh_ctx::<T::Obs>(h), root, ctx)
            &&& #[trigger] pass_runs::<T, R>(
                results_of(h),
                PassState { root, poll: Poll::Pending, ctx },
                e,
                pass.deadlocked,
            )
            &&& pass.poll == e.poll
            &&& pass.commands == e.ctx.commands
            &&& pass.logs == lines_handed_out(h, pass, e.ctx)
        };
    (PassState { root, poll: Poll::Pending, ctx }, e)
}

/// The state after the first `k` of `n` rounds.
pub(crate) proof fn lemma_first_rounds<
    T: Coroutine<T, ()>,
    R: Coroutine<T, Result<Payload, String>>,
>(k: nat, n: nat, s: PassState<R::Obs, T::Obs>, e: PassState<R::Obs, T::Obs>) -> (mid: PassState<
    R::Obs,
    T::Obs,
>)
    requires
        k <= n,
        unsettled_rounds::<T, R>(n, s, e),
    ensures
        unsettled_rounds::<T, R>(k, s, mid),
    decreases n,
{
    if k == n {
        e
    } else {
        let m = lemma_last_round::<T, R>(n, s, e);
        lemma_first_rounds::<T, R>(k, (n - 1) as nat, s, m)
    }
}

} // verus!
