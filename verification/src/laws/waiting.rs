//! What a workflow sees while it waits.

use vstd::prelude::*;

use crate::combinators::{
    both_joined, branch_polled, branches_polled, joined, right_polled, Either, Join2, Join2View,
    JoinAll, Select2, Select2View,
};
use crate::coroutine::{Coroutine, Observe, Poll};
use crate::history::{OutcomeView, Payload, SeqNo};
use crate::text::Text;
use crate::workflow::{activity_result, ActivityFailure, ActivityFuture, CtxView, TimerFuture};

verus! {

/// Identity follows the order in which requests are made, not the order in which
/// they are awaited: awaiting an activity or a timer issues no command and takes
/// no sequence number.
pub proof fn law_awaiting_issues_nothing<T: Observe>(
    seq: SeqNo,
    ctx: CtxView<T::Obs>,
    after: SeqNo,
    ctx_after: CtxView<T::Obs>,
    activity: Poll<Result<Text, Text>>,
    timer: Poll<()>,
)
    requires
        <ActivityFuture as Coroutine<T, Result<Payload, ActivityFailure>>>::polled(
            seq,
            ctx,
            after,
            ctx_after,
            activity,
        ) || <TimerFuture as Coroutine<T, ()>>::polled(seq, ctx, after, ctx_after, timer),
    ensures
        after == seq,
        ctx_after.commands == ctx.commands,
        ctx_after.next_seq() == ctx.next_seq(),
{
}

/// A race between two activities goes to the one whose result is there. The left
/// one wins only the tie.
pub proof fn law_a_race_goes_to_the_one_that_is_there<T: Observe>(
    before: Select2View<SeqNo, SeqNo>,
    ctx: CtxView<T::Obs>,
    after: Select2View<SeqNo, SeqNo>,
    ctx_after: CtxView<T::Obs>,
    out: Poll<Either<Result<Text, Text>, Result<Text, Text>>>,
)
    requires
        <Select2<ActivityFuture, ActivityFuture> as Coroutine<
            T,
            Either<Result<Payload, ActivityFailure>, Result<Payload, ActivityFailure>>,
        >>::polled(before, ctx, after, ctx_after, out),
    ensures
        out == if ctx.resolved.contains_key(before.left) {
            Poll::Ready(
                Either::<Result<Text, Text>, Result<Text, Text>>::Left(
                    activity_result(ctx.resolved[before.left].0),
                ),
            )
        } else if ctx.resolved.contains_key(before.right) {
            Poll::Ready(Either::Right(activity_result(ctx.resolved[before.right].0)))
        } else {
            Poll::Pending
        },
        after == before,
{
}

/// A join of two activities waits for both, whichever comes first.
pub proof fn law_a_join_waits_for_both<T: Observe>(
    left: SeqNo,
    right: SeqNo,
    ctx: CtxView<T::Obs>,
    after: Join2View<SeqNo, SeqNo, Result<Text, Text>, Result<Text, Text>>,
    ctx_after: CtxView<T::Obs>,
    out: Poll<(Result<Text, Text>, Result<Text, Text>)>,
)
    requires
        <Join2<
            ActivityFuture,
            ActivityFuture,
            Result<Payload, ActivityFailure>,
            Result<Payload, ActivityFailure>,
        > as Coroutine<
            T,
            (Result<Payload, ActivityFailure>, Result<Payload, ActivityFailure>),
        >>::polled(
            Join2View { left: (left, None), right: (right, None) },
            ctx,
            after,
            ctx_after,
            out,
        ),
    ensures
        out == if ctx.resolved.contains_key(left) && ctx.resolved.contains_key(right) {
            Poll::Ready(
                (
                    activity_result(ctx.resolved[left].0),
                    activity_result(ctx.resolved[right].0),
                ),
            )
        } else {
            Poll::Pending
        },
{
}

/// A branch of a join gets its turn at most once per poll: with its output there it
/// is left alone, and else it is polled, and keeps the output if it has one then.
pub open spec fn takes_its_turn<T: Observe, O: Observe, A: Coroutine<T, O>>(
    before: (A::Obs, Option<O::Obs>),
    ctx: CtxView<T::Obs>,
    after: (A::Obs, Option<O::Obs>),
    ctx_after: CtxView<T::Obs>,
) -> bool {
    match before.1 {
        Some(_) => after == before && ctx_after == ctx,
        None => match after.1 {
            Some(o) => A::polled(before.0, ctx, after.0, ctx_after, Poll::Ready(o)),
            None => A::polled(before.0, ctx, after.0, ctx_after, Poll::Pending),
        },
    }
}

/// The contexts between the turns of the branches.
proof fn lemma_turns_of_branches<T: Observe, O: Observe, A: Coroutine<T, O>>(
    before: Seq<(A::Obs, Option<O::Obs>)>,
    ctx: CtxView<T::Obs>,
    after: Seq<(A::Obs, Option<O::Obs>)>,
    ctx_after: CtxView<T::Obs>,
) -> (between: Seq<CtxView<T::Obs>>)
    requires
        branches_polled::<T, O, A>(before, ctx, after, ctx_after),
    ensures
        after.len() == before.len(),
        between.len() == before.len() + 1,
        between[0] == ctx,
        between[before.len() as int] == ctx_after,
        forall|i: int|
            0 <= i < before.len() ==> takes_its_turn::<T, O, A>(
                #[trigger] before[i],
                between[i],
                after[i],
                between[i + 1],
            ),
    decreases before.len(),
{
    if before.len() == 0 {
        seq![ctx]
    } else {
        let n = before.len() - 1;
        let mid = choose|mid: CtxView<T::Obs>|
            {
                &&& branches_polled::<T, O, A>(before.drop_last(), ctx, after.drop_last(), mid)
                &&& #[trigger] branch_polled::<T, O, A>(
                    before.last(),
                    mid,
                    after.last(),
                    ctx_after,
                )
            };
        let first = lemma_turns_of_branches::<T, O, A>(
            before.drop_last(),
            ctx,
            after.drop_last(),
            mid,
        );
        let between = first.push(ctx_after);
        assert forall|i: int| 0 <= i < before.len() implies takes_its_turn::<T, O, A>(
            #[trigger] before[i],
            between[i],
            after[i],
            between[i + 1],
        ) by {
            if i < n {
                assert(before.drop_last()[i] == before[i]);
                assert(after.drop_last()[i] == after[i]);
            } else {
                assert(before[i] == before.last());
                assert(after[i] == after.last());
            }
        }
        between
    }
}

/// A join of any number of branches gives their outputs in the order of the branches.
/// In one poll the branches have their turns from the first to the last, each in the
/// context that the one before left. When all have their outputs, there is one entry
/// per branch, and entry `i` is the output of branch `i`; the join starts afresh. Else
/// the join waits, and every branch keeps what it has.
pub proof fn law_a_join_gives_outputs_in_order<T: Observe, O: Observe, A: Coroutine<T, O>>(
    before: Seq<(A::Obs, Option<O::Obs>)>,
    ctx: CtxView<T::Obs>,
    after: Seq<(A::Obs, Option<O::Obs>)>,
    ctx_after: CtxView<T::Obs>,
    out: Poll<Seq<O::Obs>>,
) -> (r: (Seq<(A::Obs, Option<O::Obs>)>, Seq<CtxView<T::Obs>>))
    requires
        <JoinAll<A, O> as Coroutine<T, Vec<O>>>::polled(before, ctx, after, ctx_after, out),
    ensures
        ({
            let n = before.len() as int;
            let (had, between) = r;
            &&& had.len() == n
            &&& between.len() == n + 1
            &&& between[0] == ctx
            &&& between[n] == ctx_after
            &&& forall|i: int|
                0 <= i < n ==> takes_its_turn::<T, O, A>(
                    #[trigger] before[i],
                    between[i],
                    had[i],
                    between[i + 1],
                )
            &&& match out {
                Poll::Ready(v) => {
                    &&& v.len() == n
                    &&& after.len() == n
                    &&& forall|i: int| 0 <= i < n ==> had[i].1 == Some(#[trigger] v[i])
                    &&& forall|i: int|
                        0 <= i < n ==> #[trigger] after[i] == (had[i].0, None::<O::Obs>)
                },
                Poll::Pending => {
                    &&& after == had
                    &&& exists|i: int| 0 <= i < n && (#[trigger] had[i]).1 is None
                },
            }
        }),
{
    let had = choose|had: Seq<(A::Obs, Option<O::Obs>)>| #[trigger]
        branches_polled::<T, O, A>(before, ctx, had, ctx_after) && joined(had, after, out);
    let between = lemma_turns_of_branches::<T, O, A>(before, ctx, had, ctx_after);
    (had, between)
}

/// What an activity's result is to the workflow, by the result alone.
pub open spec fn gives(r: Result<Text, Text>, outcome: OutcomeView) -> bool {
    match outcome {
        OutcomeView::Completed(p) => r == Ok::<Text, Text>(p),
        OutcomeView::Failed(f) => r == Err::<Text, Text>(f),
    }
}

/// A join of activities is ready exactly when all of them have results, and then its
/// entry `i` is what the result of activity `i` says.
pub proof fn law_a_join_of_activities_gives_their_results<T: Observe>(
    seqs: Seq<SeqNo>,
    before: Seq<(SeqNo, Option<Result<Text, Text>>)>,
    ctx: CtxView<T::Obs>,
    after: Seq<(SeqNo, Option<Result<Text, Text>>)>,
    ctx_after: CtxView<T::Obs>,
    out: Poll<Seq<Result<Text, Text>>>,
)
    requires
        before.len() == seqs.len(),
        forall|i: int|
            0 <= i < seqs.len() ==> #[trigger] before[i] == (seqs[i], None::<Result<Text, Text>>),
        <JoinAll<ActivityFuture, Result<Payload, ActivityFailure>> as Coroutine<
            T,
            Vec<Result<Payload, ActivityFailure>>,
        >>::polled(before, ctx, after, ctx_after, out),
    ensures
        out is Ready <==> forall|i: int|
            0 <= i < seqs.len() ==> ctx.resolved.contains_key(#[trigger] seqs[i]),
        out matches Poll::Ready(v) ==> {
            &&& v.len() == seqs.len()
            &&& forall|i: int|
                0 <= i < seqs.len() ==> gives(#[trigger] v[i], ctx.resolved[seqs[i]].0)
        },
        ctx_after.commands == ctx.commands,
{
    let (had, between) = law_a_join_gives_outputs_in_order::<
        T,
        Result<Payload, ActivityFailure>,
        ActivityFuture,
    >(before, ctx, after, ctx_after, out);
    let n = seqs.len() as int;
    lemma_awaiting_keeps_results::<T>(before, had, between, n);
    assert forall|i: int| 0 <= i < n implies {
        &&& had[i].1 is Some <==> ctx.resolved.contains_key(#[trigger] seqs[i])
        &&& had[i].1 matches Some(r) ==> gives(r, ctx.resolved[seqs[i]].0)
    } by {
        assert(before[i] == (seqs[i], None::<Result<Text, Text>>));
        lemma_awaiting_keeps_results::<T>(before, had, between, i);
        assert(takes_its_turn::<T, Result<Payload, ActivityFailure>, ActivityFuture>(
            before[i],
            between[i],
            had[i],
            between[i + 1],
        ));
    }
    if out is Pending {
        let i = choose|i: int| 0 <= i < n && (#[trigger] had[i]).1 is None;
        assert(!ctx.resolved.contains_key(seqs[i]));
    } else {
        assert forall|i: int| 0 <= i < n implies ctx.resolved.contains_key(
            #[trigger] seqs[i],
        ) by {
            assert(had[i].1 == Some(out->Ready_0[i]));
        }
    }
}

proof fn lemma_awaiting_keeps_results<T: Observe>(
    before: Seq<(SeqNo, Option<Result<Text, Text>>)>,
    had: Seq<(SeqNo, Option<Result<Text, Text>>)>,
    between: Seq<CtxView<T::Obs>>,
    k: int,
)
    requires
        0 <= k <= before.len(),
        had.len() == before.len(),
        between.len() == before.len() + 1,
        forall|i: int|
            0 <= i < before.len() ==> takes_its_turn::<
                T,
                Result<Payload, ActivityFailure>,
                ActivityFuture,
            >(#[trigger] before[i], between[i], had[i], between[i + 1]),
    ensures
        between[k].resolved == between[0].resolved,
        between[k].commands == between[0].commands,
    decreases k,
{
    if k > 0 {
        lemma_awaiting_keeps_results::<T>(before, had, between, k - 1);
        assert(takes_its_turn::<T, Result<Payload, ActivityFailure>, ActivityFuture>(
            before[k - 1],
            between[k - 1],
            had[k - 1],
            between[k],
        ));
    }
}

/// A join of two has both branches take their turns, the left one first, and gives
/// the left output first. It waits while one of the outputs is missing, and starts
/// afresh once it gave both.
pub proof fn law_a_join_of_two_gives_left_then_right<
    T: Observe,
    OA: Observe,
    OB: Observe,
    A: Coroutine<T, OA>,
    B: Coroutine<T, OB>,
>(
    before: Join2View<A::Obs, B::Obs, OA::Obs, OB::Obs>,
    ctx: CtxView<T::Obs>,
    after: Join2View<A::Obs, B::Obs, OA::Obs, OB::Obs>,
    ctx_after: CtxView<T::Obs>,
    out: Poll<(OA::Obs, OB::Obs)>,
) -> (r: ((A::Obs, Option<OA::Obs>), CtxView<T::Obs>, (B::Obs, Option<OB::Obs>)))
    requires
        <Join2<A, B, OA, OB> as Coroutine<T, (OA, OB)>>::polled(before, ctx, after, ctx_after, out),
    ensures
        takes_its_turn::<T, OA, A>(before.left, ctx, r.0, r.1),
        takes_its_turn::<T, OB, B>(before.right, r.1, r.2, ctx_after),
        match out {
            Poll::Ready(v) => {
                &&& r.0.1 == Some(v.0)
                &&& r.2.1 == Some(v.1)
                &&& after.left == (r.0.0, None::<OA::Obs>)
                &&& after.right == (r.2.0, None::<OB::Obs>)
            },
            Poll::Pending => {
                &&& r.0.1 is None || r.2.1 is None
                &&& after.left == r.0
                &&& after.right == r.2
            },
        },
{
    choose|
        l: (A::Obs, Option<OA::Obs>),
        m: CtxView<T::Obs>,
        r: (B::Obs, Option<OB::Obs>),
    | #[trigger]
        branch_polled::<T, OA, A>(before.left, ctx, l, m) && #[trigger] branch_polled::<T, OB, B>(
            before.right,
            m,
            r,
            ctx_after,
        ) && both_joined(l, r, after, out)
}

/// A race polls the left branch, and the right one only if the left one waits. What
/// it gives is the output of the branch that was ready, marked by its side.
pub proof fn law_a_race_polls_left_then_right<
    T: Observe,
    OA: Observe,
    OB: Observe,
    A: Coroutine<T, OA>,
    B: Coroutine<T, OB>,
>(
    before: Select2View<A::Obs, B::Obs>,
    ctx: CtxView<T::Obs>,
    after: Select2View<A::Obs, B::Obs>,
    ctx_after: CtxView<T::Obs>,
    out: Poll<Either<OA::Obs, OB::Obs>>,
) -> (mid: CtxView<T::Obs>)
    requires
        <Select2<A, B> as Coroutine<T, Either<OA, OB>>>::polled(before, ctx, after, ctx_after, out),
    ensures
        match out {
            Poll::Ready(Either::Left(v)) => {
                &&& A::polled(before.left, ctx, after.left, ctx_after, Poll::Ready(v))
                &&& after.right == before.right
            },
            Poll::Ready(Either::Right(v)) => {
                &&& A::polled(before.left, ctx, after.left, mid, Poll::Pending)
                &&& B::polled(before.right, mid, after.right, ctx_after, Poll::Ready(v))
            },
            Poll::Pending => {
                &&& A::polled(before.left, ctx, after.left, mid, Poll::Pending)
                &&& B::polled(before.right, mid, after.right, ctx_after, Poll::Pending)
            },
        },
{
    let (a, mid) = choose|a: Poll<OA::Obs>, mid: CtxView<T::Obs>|
        {
            &&& #[trigger] A::polled(before.left, ctx, after.left, mid, a)
            &&& right_polled::<T, OA, OB, B>(a, before.right, mid, after.right, ctx_after, out)
        };
    mid
}

} // verus!
