//! A workflow is a pure function of its history.
//!
//! The engine adds no choice of its own: if polling the workflow's code has one
//! possible outcome, so has a whole pass.

use vstd::prelude::*;

use crate::combinators::{branch_polled, branches_polled, joined, Either, Join2, JoinAll, Select2};
use crate::coroutine::{Coroutine, Observe, Poll, Workflow};
use crate::history::{results_of, HistoryEventView, Payload, RecordedResultView};
use crate::laws::passes::{
    lemma_ends_of_pass, lemma_first_delivery, lemma_first_rest, lemma_first_rounds,
    lemma_last_round, lemma_last_turn, lemma_settling_round, lemma_turns,
};
use crate::replay::{
    deliveries, replays, round, run_to_block, tasks_polled, unsettled_rounds, PassState, PassView,
    MAX_ROUNDS,
};
use crate::workflow::{ActivityFailure, ActivityFuture, CtxView, TimerFuture};

verus! {

/// Polling a coroutine of type `C` has at most one outcome.
pub open spec fn deterministic<T: Observe, O: Observe, C: Coroutine<T, O>>() -> bool {
    forall|
        b: C::Obs,
        c: CtxView<T::Obs>,
        a1: C::Obs,
        c1: CtxView<T::Obs>,
        o1: Poll<O::Obs>,
        a2: C::Obs,
        c2: CtxView<T::Obs>,
        o2: Poll<O::Obs>,
    | #[trigger]
        C::polled(b, c, a1, c1, o1) && #[trigger] C::polled(b, c, a2, c2, o2) ==> a1 == a2 && c1
            == c2 && o1 == o2
}

/// Starting the workflow `wf` has at most one outcome.
pub open spec fn starts_deterministically<T: Observe, R: Observe, W: Workflow<T, R>>(
    wf: W,
) -> bool {
    forall|
        c: CtxView<T::Obs>,
        r1: R::Obs,
        c1: CtxView<T::Obs>,
        r2: R::Obs,
        c2: CtxView<T::Obs>,
    | #[trigger]
        wf.started(c, r1, c1) && #[trigger] wf.started(c, r2, c2) ==> r1 == r2 && c1 == c2
}

/// The code of the workflow `wf` is deterministic: its start, its root and its
/// detached tasks.
pub open spec fn deterministic_workflow<
    T: Coroutine<T, ()>,
    R: Coroutine<T, Result<Payload, String>>,
    W: Workflow<T, R>,
>(wf: W) -> bool {
    &&& deterministic::<T, (), T>()
    &&& deterministic::<T, Result<Payload, String>, R>()
    &&& starts_deterministically::<T, R, W>(wf)
}

proof fn lemma_tasks_deterministic<T: Coroutine<T, ()>>(
    taken: Seq<T::Obs>,
    ctx: CtxView<T::Obs>,
    s1: Seq<T::Obs>,
    e1: CtxView<T::Obs>,
    s2: Seq<T::Obs>,
    e2: CtxView<T::Obs>,
)
    requires
        deterministic::<T, (), T>(),
        tasks_polled::<T>(taken, ctx, s1, e1),
        tasks_polled::<T>(taken, ctx, s2, e2),
    ensures
        s1 == s2,
        e1 == e2,
    decreases taken.len(),
{
    if taken.len() == 0 {
        assert(s1 =~= s2);
    } else {
        let t1 = lemma_last_turn::<T>(taken, ctx, s1, e1);
        let t2 = lemma_last_turn::<T>(taken, ctx, s2, e2);
        lemma_tasks_deterministic::<T>(taken.drop_last(), ctx, t1.kept, t1.mid, t2.kept, t2.mid);
    }
}

proof fn lemma_round_deterministic<
    T: Coroutine<T, ()>,
    R: Coroutine<T, Result<Payload, String>>,
>(
    s: PassState<R::Obs, T::Obs>,
    e1: PassState<R::Obs, T::Obs>,
    e2: PassState<R::Obs, T::Obs>,
)
    requires
        deterministic::<T, (), T>(),
        deterministic::<T, Result<Payload, String>, R>(),
        round::<T, R>(s, e1),
        round::<T, R>(s, e2),
    ensures
        e1 == e2,
{
    let (m1, k1, d1) = lemma_turns::<T, R>(s, e1);
    let (m2, k2, d2) = lemma_turns::<T, R>(s, e2);
    lemma_tasks_deterministic::<T>(m1.tasks, m1.with_tasks(Seq::empty()), k1, d1, k2, d2);
}

proof fn lemma_rounds_deterministic<
    T: Coroutine<T, ()>,
    R: Coroutine<T, Result<Payload, String>>,
>(
    n: nat,
    s: PassState<R::Obs, T::Obs>,
    e1: PassState<R::Obs, T::Obs>,
    e2: PassState<R::Obs, T::Obs>,
)
    requires
        deterministic::<T, (), T>(),
        deterministic::<T, Result<Payload, String>, R>(),
        unsettled_rounds::<T, R>(n, s, e1),
        unsettled_rounds::<T, R>(n, s, e2),
    ensures
        e1 == e2,
    decreases n,
{
    if n > 0 {
        let m1 = lemma_last_round::<T, R>(n, s, e1);
        let m2 = lemma_last_round::<T, R>(n, s, e2);
        lemma_rounds_deterministic::<T, R>((n - 1) as nat, s, m1, m2);
        lemma_round_deterministic::<T, R>(m1, e1, e2);
    }
}

/// A round that settles cannot be followed by one that does not.
proof fn lemma_settled_once<T: Coroutine<T, ()>, R: Coroutine<T, Result<Payload, String>>>(
    n: nat,
    mid: PassState<R::Obs, T::Obs>,
    e: PassState<R::Obs, T::Obs>,
    more: nat,
    s: PassState<R::Obs, T::Obs>,
    later: PassState<R::Obs, T::Obs>,
)
    requires
        deterministic::<T, (), T>(),
        deterministic::<T, Result<Payload, String>, R>(),
        unsettled_rounds::<T, R>(n, s, mid),
        round::<T, R>(mid, e),
        e.is_settled(),
        unsettled_rounds::<T, R>(more, s, later),
    ensures
        more <= n,
{
    if more > n {
        let upto = lemma_first_rounds::<T, R>((n + 1) as nat, more, s, later);
        let before = lemma_last_round::<T, R>((n + 1) as nat, s, upto);
        lemma_rounds_deterministic::<T, R>(n, s, mid, before);
        lemma_round_deterministic::<T, R>(mid, e, upto);
    }
}

proof fn lemma_run_to_block_deterministic<
    T: Coroutine<T, ()>,
    R: Coroutine<T, Result<Payload, String>>,
>(
    s: PassState<R::Obs, T::Obs>,
    e1: PassState<R::Obs, T::Obs>,
    ok1: bool,
    e2: PassState<R::Obs, T::Obs>,
    ok2: bool,
)
    requires
        deterministic::<T, (), T>(),
        deterministic::<T, Result<Payload, String>, R>(),
        run_to_block::<T, R>(s, e1, ok1),
        run_to_block::<T, R>(s, e2, ok2),
    ensures
        e1 == e2,
        ok1 == ok2,
{
    let max = MAX_ROUNDS as nat;
    if ok1 {
        let (n1, m1) = lemma_settling_round::<T, R>(s, e1);
        if ok2 {
            let (n2, m2) = lemma_settling_round::<T, R>(s, e2);
            lemma_settled_once::<T, R>(n1, m1, e1, n2, s, m2);
            lemma_settled_once::<T, R>(n2, m2, e2, n1, s, m1);
            lemma_rounds_deterministic::<T, R>(n1, s, m1, m2);
            lemma_round_deterministic::<T, R>(m1, e1, e2);
        } else {
            lemma_settled_once::<T, R>(n1, m1, e1, max, s, e2);
        }
    } else if ok2 {
        let (n2, m2) = lemma_settling_round::<T, R>(s, e2);
        lemma_settled_once::<T, R>(n2, m2, e2, max, s, e1);
    } else {
        lemma_rounds_deterministic::<T, R>(max, s, e1, e2);
    }
}

proof fn lemma_deliveries_deterministic<
    T: Coroutine<T, ()>,
    R: Coroutine<T, Result<Payload, String>>,
>(
    results: Seq<RecordedResultView>,
    s: PassState<R::Obs, T::Obs>,
    e1: PassState<R::Obs, T::Obs>,
    ok1: bool,
    e2: PassState<R::Obs, T::Obs>,
    ok2: bool,
)
    requires
        deterministic::<T, (), T>(),
        deterministic::<T, Result<Payload, String>, R>(),
        deliveries::<T, R>(results, s, e1, ok1),
        deliveries::<T, R>(results, s, e2, ok2),
    ensures
        e1 == e2,
        ok1 == ok2,
    decreases results.len(),
{
    if results.len() > 0 && s.poll is Pending {
        let (m1, b1) = lemma_first_delivery::<T, R>(results, s, e1, ok1);
        let (m2, b2) = lemma_first_delivery::<T, R>(results, s, e2, ok2);
        lemma_run_to_block_deterministic::<T, R>(s.delivered(results.first()), m1, b1, m2, b2);
        if b1 {
            lemma_deliveries_deterministic::<T, R>(results.drop_first(), m1, e1, ok1, e2, ok2);
        }
    }
}

/// Replay is a pure function of the history: two passes of one deterministic
/// workflow over one log issue the same commands, log the same lines and give
/// the same answer.
pub proof fn law_replay_is_a_function_of_the_history<
    T: Coroutine<T, ()>,
    R: Coroutine<T, Result<Payload, String>>,
    W: Workflow<T, R>,
>(wf: W, h: Seq<HistoryEventView>, one: PassView, other: PassView)
    requires
        deterministic_workflow::<T, R, W>(wf),
        replays::<T, R, W>(wf, h, one),
        replays::<T, R, W>(wf, h, other),
    ensures
        one == other,
{
    let results = results_of(h);
    let (s1, e1) = lemma_ends_of_pass::<T, R, W>(wf, h, one);
    let (s2, e2) = lemma_ends_of_pass::<T, R, W>(wf, h, other);
    let (m1, b1) = lemma_first_rest::<T, R>(results, s1, e1, one.deadlocked);
    let (m2, b2) = lemma_first_rest::<T, R>(results, s2, e2, other.deadlocked);
    lemma_run_to_block_deterministic::<T, R>(s1, m1, b1, m2, b2);
    if b1 {
        lemma_deliveries_deterministic::<T, R>(
            results,
            m1,
            e1,
            !one.deadlocked,
            e2,
            !other.deadlocked,
        );
    }
}

/// Awaiting an activity or a timer is deterministic.
pub proof fn law_futures_are_deterministic<T: Observe>()
    ensures
        deterministic::<T, Result<Payload, ActivityFailure>, ActivityFuture>(),
        deterministic::<T, (), TimerFuture>(),
{
}

/// Waiting for both of two deterministic coroutines is deterministic.
pub proof fn law_join2_is_deterministic<
    T: Observe,
    OA: Observe,
    OB: Observe,
    A: Coroutine<T, OA>,
    B: Coroutine<T, OB>,
>()
    requires
        deterministic::<T, OA, A>(),
        deterministic::<T, OB, B>(),
    ensures
        deterministic::<T, (OA, OB), Join2<A, B, OA, OB>>(),
{
}

/// Racing two deterministic coroutines is deterministic.
pub proof fn law_select2_is_deterministic<
    T: Observe,
    OA: Observe,
    OB: Observe,
    A: Coroutine<T, OA>,
    B: Coroutine<T, OB>,
>()
    requires
        deterministic::<T, OA, A>(),
        deterministic::<T, OB, B>(),
    ensures
        deterministic::<T, Either<OA, OB>, Select2<A, B>>(),
{
}

proof fn lemma_branches_deterministic<T: Observe, O: Observe, A: Coroutine<T, O>>(
    before: Seq<(A::Obs, Option<O::Obs>)>,
    ctx: CtxView<T::Obs>,
    a1: Seq<(A::Obs, Option<O::Obs>)>,
    c1: CtxView<T::Obs>,
    a2: Seq<(A::Obs, Option<O::Obs>)>,
    c2: CtxView<T::Obs>,
)
    requires
        deterministic::<T, O, A>(),
        branches_polled::<T, O, A>(before, ctx, a1, c1),
        branches_polled::<T, O, A>(before, ctx, a2, c2),
    ensures
        a1 == a2,
        c1 == c2,
    decreases before.len(),
{
    if before.len() == 0 {
        assert(a1 =~= a2);
    } else {
        let m1 = choose|mid: CtxView<T::Obs>|
            {
                &&& branches_polled::<T, O, A>(before.drop_last(), ctx, a1.drop_last(), mid)
                &&& #[trigger] branch_polled::<T, O, A>(before.last(), mid, a1.last(), c1)
            };
        let m2 = choose|mid: CtxView<T::Obs>|
            {
                &&& branches_polled::<T, O, A>(before.drop_last(), ctx, a2.drop_last(), mid)
                &&& #[trigger] branch_polled::<T, O, A>(before.last(), mid, a2.last(), c2)
            };
        lemma_branches_deterministic::<T, O, A>(
            before.drop_last(),
            ctx,
            a1.drop_last(),
            m1,
            a2.drop_last(),
            m2,
        );
        assert(a1 =~= a1.drop_last().push(a1.last()));
        assert(a2 =~= a2.drop_last().push(a2.last()));
    }
}

/// Waiting for any number of deterministic coroutines is deterministic.
pub proof fn law_join_all_is_deterministic<T: Observe, O: Observe, A: Coroutine<T, O>>()
    requires
        deterministic::<T, O, A>(),
    ensures
        deterministic::<T, Vec<O>, JoinAll<A, O>>(),
{
    assert forall|
        b: Seq<(A::Obs, Option<O::Obs>)>,
        c: CtxView<T::Obs>,
        a1: Seq<(A::Obs, Option<O::Obs>)>,
        c1: CtxView<T::Obs>,
        o1: Poll<Seq<O::Obs>>,
        a2: Seq<(A::Obs, Option<O::Obs>)>,
        c2: CtxView<T::Obs>,
        o2: Poll<Seq<O::Obs>>,
    | #[trigger]
        <JoinAll<A, O> as Coroutine<T, Vec<O>>>::polled(b, c, a1, c1, o1) && #[trigger] <JoinAll<
            A,
            O,
        > as Coroutine<T, Vec<O>>>::polled(b, c, a2, c2, o2) implies a1 == a2 && c1 == c2 && o1
        == o2 by {
        let m1 = choose|mid: Seq<(A::Obs, Option<O::Obs>)>| #[trigger]
            branches_polled::<T, O, A>(b, c, mid, c1) && joined(mid, a1, o1);
        let m2 = choose|mid: Seq<(A::Obs, Option<O::Obs>)>| #[trigger]
            branches_polled::<T, O, A>(b, c, mid, c2) && joined(mid, a2, o2);
        lemma_branches_deterministic::<T, O, A>(b, c, m1, c1, m2, c2);
    }
}

} // verus!
